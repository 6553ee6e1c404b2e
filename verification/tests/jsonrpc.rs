use java_lsp::jsonrpc::{
    incoming, integer, parse_incoming, Incoming, Json, JsonItem, JsonShape, OutgoingNotification,
    Response, INVALID_REQUEST, PARSE_ERROR,
};
use serde_json::Value;

fn value(text: &str) -> Value {
    serde_json::from_str(text).unwrap()
}

#[test]
fn deserializing_request_shaped_json_yields_request() {
    let body = br#"{"jsonrpc": "2.0", "id": 1, "method": "initialize", "params": {}}"#;

    let incoming: Incoming = parse_incoming(body).unwrap();

    match incoming {
        Incoming::Request(request) => {
            assert_eq!(request.id, Json::new("1"));
            assert_eq!(request.method, "initialize");
            assert_eq!(request.params, Json::new("{}"));
        }
        Incoming::Notification(_) => panic!("expected a Request, got a Notification"),
    }
}

#[test]
fn deserializing_notification_shaped_json_yields_notification() {
    let body = br#"{"jsonrpc": "2.0", "method": "initialized", "params": {}}"#;

    let incoming: Incoming = parse_incoming(body).unwrap();

    match incoming {
        Incoming::Notification(notification) => {
            assert_eq!(notification.method, "initialized");
        }
        Incoming::Request(_) => panic!("expected a Notification, got a Request"),
    }
}

#[test]
fn a_message_in_an_array_gives_its_fields_in_order() {
    match parse_incoming(br#"[null, "shutdown"]"#).unwrap() {
        Incoming::Request(request) => {
            assert_eq!(request.id, Json::null());
            assert_eq!(request.method, "shutdown");
            assert_eq!(request.params, Json::null());
        }
        Incoming::Notification(_) => panic!("expected a Request, got a Notification"),
    }
    match parse_incoming(br#"["exit", 7]"#).unwrap() {
        Incoming::Notification(notification) => {
            assert_eq!(notification.method, "exit");
            assert_eq!(notification.params, Json::new("7"));
        }
        Incoming::Request(_) => panic!("expected a Notification, got a Request"),
    }
    assert!(parse_incoming(br#"[1, "a", {}, {}]"#).is_err());
    assert!(parse_incoming(b"[]").is_err());
    assert!(parse_incoming(b"3").is_err());
}

#[test]
fn incoming_goes_by_the_members_of_an_object() {
    let item = |text: &str, string: Option<&str>| JsonItem {
        text: text.to_string(),
        string: string.map(str::to_string),
    };
    let shape = JsonShape::Object(vec![
        ("method".to_string(), item("\"m\"", Some("m"))),
        ("id".to_string(), item("\"x\"", Some("x"))),
    ]);

    match incoming(&Some(shape)).unwrap() {
        Incoming::Request(request) => {
            assert_eq!(request.id, Json::new("\"x\""));
            assert_eq!(request.method, "m");
            assert_eq!(request.params, Json::null());
        }
        Incoming::Notification(_) => panic!("expected a Request, got a Notification"),
    }
    let no_text = JsonShape::Object(vec![("method".to_string(), item("3", None))]);
    assert!(incoming(&Some(no_text)).is_err());
    assert!(incoming(&None).is_err());
}

#[test]
fn success_response_serializes_to_expected_shape() {
    let response = Response::success(Json::new("1"), Json::new("{\"capabilities\": {}}"));

    assert_eq!(
        value(&response.to_json()),
        value(r#"{"jsonrpc": "2.0", "id": 1, "result": {"capabilities": {}}}"#)
    );
}

#[test]
fn outgoing_notification_serializes_to_expected_shape() {
    let notification = OutgoingNotification::new(
        "textDocument/publishDiagnostics",
        Json::new("{\"uri\": \"file:///Main.java\", \"diagnostics\": []}"),
    );

    assert_eq!(
        value(&notification.to_json()),
        value(
            r#"{
                "jsonrpc": "2.0",
                "method": "textDocument/publishDiagnostics",
                "params": {"uri": "file:///Main.java", "diagnostics": []}
            }"#
        )
    );
}

#[test]
fn error_response_serializes_to_expected_shape() {
    let response = Response::error(Json::new("1"), -32002, "server not initialized");

    assert_eq!(
        value(&response.to_json()),
        value(
            r#"{
                "jsonrpc": "2.0",
                "id": 1,
                "error": {"code": -32002, "message": "server not initialized"}
            }"#
        )
    );
}

#[test]
fn messages_are_quoted_with_escapes() {
    let response = Response::error(Json::null(), 5, "a \"b\"\n\\ é");

    let back = value(&response.to_json());
    assert_eq!(back["error"]["message"], Value::from("a \"b\"\n\\ é"));
    assert_eq!(
        response.to_json(),
        "{\"jsonrpc\":\"2.0\",\"id\":null,\"error\":{\"code\":5,\"message\":\"a \\\"b\\\"\\n\\\\ é\"}}"
    );
}

#[test]
fn control_characters_are_escaped() {
    let response = Response::error(Json::null(), 5, "\u{8}\t\n\u{c}\r\u{0}\u{1f}\u{7f}/'");

    assert_eq!(
        response.to_json(),
        "{\"jsonrpc\":\"2.0\",\"id\":null,\"error\":{\"code\":5,\"message\":\"\\b\\t\\n\\f\\r\\u0000\\u001f\u{7f}/'\"}}"
    );
}

#[test]
fn integers_are_written_in_decimal() {
    assert_eq!(integer(0), "0");
    assert_eq!(integer(-32700), "-32700");
    assert_eq!(integer(i64::MIN), i64::MIN.to_string());
    assert_eq!(integer(i64::MAX), i64::MAX.to_string());
}

#[test]
fn parse_incoming_returns_parse_error_for_invalid_json() {
    let response = parse_incoming(b"not json").unwrap_err();

    let value = value(&response.to_json());

    assert_eq!(value["id"], Value::Null);
    assert_eq!(value["error"]["code"], Value::from(PARSE_ERROR));
}

#[test]
fn parse_incoming_returns_invalid_request_with_extracted_id_for_malformed_body() {
    let response = parse_incoming(br#"{"jsonrpc":"2.0","id":1}"#).unwrap_err();

    let value = value(&response.to_json());

    assert_eq!(value["id"], Value::from(1));
    assert_eq!(value["error"]["code"], Value::from(INVALID_REQUEST));
}
