use java_lsp::handshake::ExitAction;
use java_lsp::jsonrpc::{Incoming, Json, Notification, Response};
use java_lsp::server::{Server, Task};
use java_lsp::session::{handle_message, take_in, Turn};
use java_lsp::transport::{read_message, ByteReader};
use java_lsp::workspace_index::WorkspaceIndex;
use serde_json::Value;

/// The messages that a turn writes.
fn written(turn: &Turn) -> Vec<Value> {
    let mut reader = ByteReader::new(turn.output.clone());
    let mut messages = Vec::new();
    while let Some(body) = read_message(&mut reader).unwrap() {
        messages.push(serde_json::from_slice(&body).unwrap());
    }
    assert_eq!(reader.pos, turn.output.len());
    messages
}

fn send(server: &mut Server, body: &str) -> Turn {
    handle_message(server, &WorkspaceIndex::new(), body.as_bytes()).unwrap()
}

const INITIALIZE: &str = "{\"jsonrpc\":\"2.0\",\"id\":1,\"method\":\"initialize\",\"params\":{}}";
const SHUTDOWN: &str = "{\"jsonrpc\":\"2.0\",\"id\":\"last\",\"method\":\"shutdown\"}";
const EXIT: &str = "{\"jsonrpc\":\"2.0\",\"method\":\"exit\"}";

#[test]
fn what_is_no_json_is_answered_with_a_parse_error() {
    let mut server = Server::new();

    let turn = send(&mut server, "{");

    let body = "{\"jsonrpc\":\"2.0\",\"id\":null,\"error\":{\"code\":-32700,\"message\":\"parse error\"}}";
    let expected = format!("Content-Length: {}\r\n\r\n{body}", body.len());
    assert_eq!(turn.output, expected.into_bytes());
    assert_eq!(turn.action, ExitAction::Continue);
    assert!(turn.tasks.is_empty());
}

#[test]
fn a_request_gets_one_response_under_its_id() {
    let mut server = Server::new();

    let refused = written(&send(&mut server, SHUTDOWN));
    assert_eq!(refused.len(), 1);
    assert_eq!(refused[0]["id"], Value::from("last"));
    assert_eq!(refused[0]["error"]["code"], Value::from(-32002));

    let answered = written(&send(&mut server, INITIALIZE));
    assert_eq!(answered.len(), 1);
    assert_eq!(answered[0]["id"], Value::from(1));
    assert!(answered[0]["result"]["capabilities"].is_object());
}

#[test]
fn a_notification_gets_no_response() {
    let mut server = Server::new();
    send(&mut server, INITIALIZE);

    let turn = send(
        &mut server,
        "{\"jsonrpc\":\"2.0\",\"method\":\"textDocument/didOpen\",\"params\":{\"textDocument\":{\"uri\":\"file:///A.java\",\"languageId\":\"java\",\"version\":3,\"text\":\"class A {}\"}}}",
    );

    let messages = written(&turn);
    assert_eq!(messages.len(), 1);
    assert_eq!(
        messages[0]["method"],
        Value::from("textDocument/publishDiagnostics")
    );
    assert!(messages[0].get("id").is_none());
    assert!(matches!(
        turn.tasks[..],
        [Task::Reindex {
            generation: 1,
            version: 3,
            ..
        }]
    ));
}

#[test]
fn only_exit_ends_the_conversation() {
    let mut server = Server::new();
    assert_eq!(send(&mut server, EXIT).action, ExitAction::Exit(1));
    assert_eq!(send(&mut server, INITIALIZE).action, ExitAction::Continue);
    assert_eq!(send(&mut server, SHUTDOWN).action, ExitAction::Continue);
    let exit = send(&mut server, EXIT);
    assert_eq!(exit.action, ExitAction::Exit(0));
    assert!(exit.output.is_empty());
}

#[test]
fn a_message_is_taken_in_as_it_was_received() {
    let mut server = Server::new();
    let index = WorkspaceIndex::new();

    let refused = Response::error(Json::new("7"), -32600, "invalid request");
    let turn = take_in(&mut server, &index, Err(refused)).unwrap();
    let messages = written(&turn);
    assert_eq!(messages.len(), 1);
    assert_eq!(messages[0]["id"], Value::from(7));
    assert_eq!(messages[0]["error"]["message"], Value::from("invalid request"));

    let exit = Notification {
        method: "exit".to_string(),
        params: Json::null(),
    };
    let turn = take_in(&mut server, &index, Ok(Incoming::Notification(exit))).unwrap();
    assert_eq!(turn.action, ExitAction::Exit(1));
    assert!(turn.output.is_empty() && turn.tasks.is_empty());
}
