use java_lsp::handshake::{ExitAction, Handshake};
use java_lsp::jsonrpc::{Json, Notification, Request, Response};
use serde_json::Value;

fn request(id: i64, method: &str) -> Request {
    Request {
        id: Json::new(&id.to_string()),
        method: method.to_string(),
        params: Json::null(),
    }
}

fn notification(method: &str) -> Notification {
    Notification {
        method: method.to_string(),
        params: Json::null(),
    }
}

fn value_of(response: &Response) -> Value {
    serde_json::from_str(&response.to_json()).unwrap()
}

#[test]
fn initialize_while_uninitialized_returns_initialize_result_and_transitions() {
    let mut handshake = Handshake::new();

    let response = handshake.handle_request(&request(1, "initialize"));
    let value = value_of(&response);

    assert!(value.get("result").unwrap().get("capabilities").is_some());
    assert!(value.get("error").is_none());
}

#[test]
fn initialize_advertises_incremental_text_document_sync() {
    let mut handshake = Handshake::new();

    let response = handshake.handle_request(&request(1, "initialize"));
    let value = value_of(&response);

    let sync = &value["result"]["capabilities"]["textDocumentSync"];
    assert_eq!(sync["openClose"], Value::from(true));
    assert_eq!(sync["change"], Value::from(2));
}

#[test]
fn initialize_advertises_definition_hover_and_completion_support() {
    let mut handshake = Handshake::new();

    let response = handshake.handle_request(&request(1, "initialize"));
    let value = value_of(&response);

    let capabilities = &value["result"]["capabilities"];
    assert_eq!(capabilities["definitionProvider"], Value::from(true));
    assert_eq!(capabilities["hoverProvider"], Value::from(true));
    assert!(capabilities["completionProvider"].is_object());
    assert_eq!(
        capabilities["completionProvider"]["triggerCharacters"][0],
        Value::from(".")
    );
}

#[test]
fn initialize_result_reads_as_the_protocols_own() {
    let mut handshake = Handshake::new();

    let value = value_of(&handshake.handle_request(&request(1, "initialize")));
    let result: lsp_types::InitializeResult =
        serde_json::from_value(value["result"].clone()).unwrap();

    assert_eq!(serde_json::to_value(result).unwrap(), value["result"]);
}

#[test]
fn is_initialized_reflects_state() {
    let mut handshake = Handshake::new();
    assert!(!handshake.is_initialized());

    handshake.handle_request(&request(1, "initialize"));
    assert!(handshake.is_initialized());

    handshake.handle_request(&request(2, "shutdown"));
    assert!(!handshake.is_initialized());
}

#[test]
fn request_other_than_initialize_while_uninitialized_returns_server_not_initialized_error() {
    let mut handshake = Handshake::default();

    let response = handshake.handle_request(&request(1, "shutdown"));
    let value = value_of(&response);

    assert_eq!(value["error"]["code"], Value::from(-32002));
    assert_eq!(value["id"], Value::from(1));
    assert!(!handshake.is_initialized());
}

#[test]
fn unknown_method_while_initialized_returns_method_not_found_error() {
    let mut handshake = Handshake::new();
    handshake.handle_request(&request(1, "initialize"));

    let response = handshake.handle_request(&request(2, "textDocument/hover"));
    let value = value_of(&response);

    assert_eq!(value["error"]["code"], Value::from(-32601));
    assert_eq!(
        value["error"]["message"],
        Value::from("method not found: textDocument/hover")
    );
}

#[test]
fn shutdown_while_initialized_returns_null_result_and_transitions() {
    let mut handshake = Handshake::new();
    handshake.handle_request(&request(1, "initialize"));

    let response = handshake.handle_request(&request(2, "shutdown"));
    let value = value_of(&response);

    assert_eq!(value["result"], Value::Null);
    assert!(value.get("result").is_some());
}

#[test]
fn duplicate_initialize_while_initialized_returns_invalid_request_error() {
    let mut handshake = Handshake::new();
    handshake.handle_request(&request(1, "initialize"));

    let response = handshake.handle_request(&request(2, "initialize"));
    let value = value_of(&response);

    assert_eq!(value["error"]["code"], Value::from(-32600));
}

#[test]
fn request_while_shutting_down_returns_invalid_request_error() {
    let mut handshake = Handshake::new();
    handshake.handle_request(&request(1, "initialize"));
    handshake.handle_request(&request(2, "shutdown"));

    let response = handshake.handle_request(&request(3, "shutdown"));
    let value = value_of(&response);

    assert_eq!(value["error"]["code"], Value::from(-32600));
}

#[test]
fn exit_after_shutdown_exits_with_code_zero() {
    let mut handshake = Handshake::new();
    handshake.handle_request(&request(1, "initialize"));
    handshake.handle_request(&request(2, "shutdown"));

    let action = handshake.handle_notification(&notification("exit"));

    assert!(matches!(action, ExitAction::Exit(0)));
}

#[test]
fn exit_without_shutdown_exits_with_code_one() {
    let mut handshake = Handshake::new();
    handshake.handle_request(&request(1, "initialize"));

    let action = handshake.handle_notification(&notification("exit"));

    assert!(matches!(action, ExitAction::Exit(1)));
}

#[test]
fn initialized_notification_continues() {
    let mut handshake = Handshake::new();
    handshake.handle_request(&request(1, "initialize"));

    let action = handshake.handle_notification(&notification("initialized"));

    assert!(matches!(action, ExitAction::Continue));
}
