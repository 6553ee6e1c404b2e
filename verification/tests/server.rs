use java_lsp::handshake::ExitAction;
use java_lsp::jsonrpc::{Json, Notification, OutgoingNotification, Request, Response};
use java_lsp::params::{DidChangeParams, DidOpenParams, InitializeParams};
use java_lsp::project_model::{ModuleModel, ProjectModel};
use java_lsp::protocol::{TextDocumentContentChangeEvent, Uri};
use java_lsp::server::{
    compiled_class_path, lombok_redirects, plan_lombok_compile, reindex, workspace_root, Server,
    Task,
};
use java_lsp::syntax::SyntaxTree;
use java_lsp::workspace_index::WorkspaceIndex;
use serde_json::Value;

fn request(id: i64, method: &str, params: &str) -> Request {
    Request {
        id: Json::new(&id.to_string()),
        method: method.to_string(),
        params: Json::new(params),
    }
}

fn notification(method: &str, params: &str) -> Notification {
    Notification {
        method: method.to_string(),
        params: Json::new(params),
    }
}

fn did_open(uri: &str, version: i32, text: &str) -> Notification {
    let text = serde_json::to_string(text).unwrap();
    notification(
        "textDocument/didOpen",
        &format!(
            "{{\"textDocument\":{{\"uri\":\"{uri}\",\"languageId\":\"java\",\"version\":{version},\"text\":{text}}}}}"
        ),
    )
}

fn did_close(uri: &str) -> Notification {
    notification(
        "textDocument/didClose",
        &format!("{{\"textDocument\":{{\"uri\":\"{uri}\"}}}}"),
    )
}

fn did_save(uri: &str) -> Notification {
    notification(
        "textDocument/didSave",
        &format!("{{\"textDocument\":{{\"uri\":\"{uri}\"}}}}"),
    )
}

/// A server and its index, with every reindex carried out at once.
struct Session {
    server: Server,
    index: WorkspaceIndex,
    other_tasks: Vec<Task>,
}

impl Session {
    fn uninitialized() -> Self {
        Session {
            server: Server::new(),
            index: WorkspaceIndex::new(),
            other_tasks: Vec::new(),
        }
    }

    fn new() -> Self {
        let mut session = Session::uninitialized();
        session.request(&request(1, "initialize", "{}"));
        session
    }

    fn request(&mut self, request: &Request) -> Value {
        let response: Response = self.server.handle_request(request, &self.index);
        serde_json::from_str(&response.to_json()).unwrap()
    }

    fn notify(&mut self, notification: &Notification) -> (ExitAction, Vec<Value>) {
        let outcome = self.server.handle_notification(notification);
        for task in outcome.tasks {
            match task {
                Task::Reindex {
                    uri,
                    generation,
                    version,
                    source,
                    tree,
                } => {
                    reindex(uri, generation, version, &source, &tree).apply(&mut self.index);
                }
                other => self.other_tasks.push(other),
            }
        }
        let sent: Vec<Value> = outcome
            .sent
            .iter()
            .map(|n: &OutgoingNotification| serde_json::from_str(&n.to_json()).unwrap())
            .collect();
        (outcome.action, sent)
    }
}

#[test]
fn did_open_while_initialized_publishes_diagnostics_for_broken_source() {
    let mut session = Session::new();

    let (exit, outgoing) = session.notify(&did_open("file:///Main.java", 1, "class Main {"));

    assert_eq!(exit, ExitAction::Continue);
    assert_eq!(outgoing.len(), 1);
    let value = &outgoing[0];
    assert_eq!(value["method"], Value::from("textDocument/publishDiagnostics"));
    assert_eq!(value["params"]["uri"], Value::from("file:///Main.java"));
    assert!(
        !value["params"]["diagnostics"]
            .as_array()
            .unwrap()
            .is_empty()
    );
    let params: lsp_types::PublishDiagnosticsParams =
        serde_json::from_value(value["params"].clone()).unwrap();
    assert_eq!(serde_json::to_value(&params).unwrap(), value["params"]);
    assert_eq!(
        params.diagnostics[0].severity,
        Some(lsp_types::DiagnosticSeverity::ERROR)
    );
}

#[test]
fn did_open_before_initialize_is_ignored() {
    let mut session = Session::uninitialized();

    let (exit, outgoing) = session.notify(&did_open("file:///Main.java", 1, "class Main {"));

    assert_eq!(exit, ExitAction::Continue);
    assert!(outgoing.is_empty());
}

#[test]
fn did_change_publishes_updated_diagnostics() {
    let mut session = Session::new();
    session.notify(&did_open("file:///Main.java", 1, "class Main {"));

    let (_, outgoing) = session.notify(&notification(
        "textDocument/didChange",
        r#"{
            "textDocument": {"uri": "file:///Main.java", "version": 2},
            "contentChanges": [{"text": "class Main {}"}]
        }"#,
    ));

    assert_eq!(outgoing.len(), 1);
    assert!(
        outgoing[0]["params"]["diagnostics"]
            .as_array()
            .unwrap()
            .is_empty()
    );
}

#[test]
fn did_change_of_a_range_reindexes_the_changed_text() {
    let mut session = Session::new();
    session.notify(&did_open("file:///Main.java", 1, "class Main {}"));

    session.notify(&notification(
        "textDocument/didChange",
        r#"{
            "textDocument": {"uri": "file:///Main.java", "version": 2},
            "contentChanges": [
                {"range": {"start": {"line": 0, "character": 6}, "end": {"line": 0, "character": 10}}, "text": "Other"}
            ]
        }"#,
    ));

    assert!(session.index.lookup("Main").is_empty());
    assert_eq!(session.index.lookup("Other").len(), 1);
}

#[test]
fn did_close_publishes_empty_diagnostics_to_clear_stale_errors() {
    let mut session = Session::new();
    session.notify(&did_open("file:///Main.java", 1, "class Main {"));

    let (exit, outgoing) = session.notify(&did_close("file:///Main.java"));

    assert_eq!(exit, ExitAction::Continue);
    assert_eq!(outgoing.len(), 1);
    let value = &outgoing[0];
    assert_eq!(value["method"], Value::from("textDocument/publishDiagnostics"));
    assert_eq!(value["params"]["uri"], Value::from("file:///Main.java"));
    assert!(
        value["params"]["diagnostics"]
            .as_array()
            .unwrap()
            .is_empty()
    );
}

#[test]
fn a_change_after_a_close_is_ignored() {
    let mut session = Session::new();
    session.notify(&did_open("file:///Main.java", 1, "class Main {}"));
    session.notify(&did_close("file:///Main.java"));

    let (_, outgoing) = session.notify(&notification(
        "textDocument/didChange",
        r#"{
            "textDocument": {"uri": "file:///Main.java", "version": 2},
            "contentChanges": [{"text": "class Broken {"}]
        }"#,
    ));

    assert_eq!(
        outgoing[0]["params"]["diagnostics"].as_array().unwrap().len(),
        0
    );
    assert!(session.index.lookup("Broken").is_empty());
}

#[test]
fn malformed_notifications_are_ignored() {
    let mut session = Session::new();
    for method in [
        "textDocument/didOpen",
        "textDocument/didChange",
        "textDocument/didClose",
        "textDocument/didSave",
    ] {
        let (exit, outgoing) = session.notify(&notification(method, "{\"textDocument\": 3}"));
        assert_eq!(exit, ExitAction::Continue);
        assert!(outgoing.is_empty());
    }
    assert!(session.other_tasks.is_empty());
}

#[test]
fn did_save_while_initialized_is_accepted_without_error() {
    let mut session = Session::new();
    session.notify(&did_open("file:///Main.java", 1, "class Main {}"));

    let (exit, outgoing) = session.notify(&did_save("file:///Main.java"));

    assert_eq!(exit, ExitAction::Continue);
    assert!(outgoing.is_empty());
    assert!(session.other_tasks.is_empty());
}

#[test]
fn a_lombok_document_is_compiled_once_per_content() {
    let mut session = Session::new();
    session.notify(&did_open(
        "file:///src/A.java",
        1,
        "import lombok.Getter;\nclass A {}",
    ));
    assert_eq!(session.other_tasks.len(), 1);
    match &session.other_tasks[0] {
        Task::CompileLombok { path, source, .. } => {
            assert_eq!(path, "/src/A.java");
            assert_eq!(source, "import lombok.Getter;\nclass A {}");
        }
        _ => panic!("expected a Lombok compile"),
    }

    session.notify(&did_save("file:///src/A.java"));
    assert_eq!(session.other_tasks.len(), 1);

    session.notify(&notification(
        "textDocument/didChange",
        r#"{
            "textDocument": {"uri": "file:///src/A.java", "version": 2},
            "contentChanges": [{"text": "import lombok.*; class A { int x; }"}]
        }"#,
    ));
    assert_eq!(session.other_tasks.len(), 1);
    session.notify(&did_save("file:///src/A.java"));
    assert_eq!(session.other_tasks.len(), 2);
}

#[test]
fn reopening_a_closed_document_with_a_lower_version_number_still_reindexes() {
    let mut session = Session::new();

    session.notify(&did_open("file:///Main.java", 10, "class Old {}"));
    assert!(!session.index.lookup("Old").is_empty());

    session.notify(&did_close("file:///Main.java"));

    // A fresh editor session restarts version numbering from 1.
    session.notify(&did_open("file:///Main.java", 1, "class New {}"));
    assert!(!session.index.lookup("New").is_empty());

    assert!(session.index.lookup("Old").is_empty());
}

#[test]
fn a_late_reindex_of_a_closed_session_is_stale() {
    let mut session = Session::new();
    let first = session
        .server
        .handle_notification(&did_open("file:///Main.java", 10, "class Old {}"));
    session.notify(&did_close("file:///Main.java"));
    session.notify(&did_open("file:///Main.java", 1, "class New {}"));

    for task in first.tasks {
        if let Task::Reindex {
            uri,
            generation,
            version,
            source,
            tree,
        } = task
        {
            let update = reindex(uri, generation, version, &source, &tree);
            assert!(!update.apply(&mut session.index));
        }
    }

    assert!(session.index.lookup("Old").is_empty());
    assert_eq!(session.index.lookup("New").len(), 1);
}

#[test]
fn exit_after_shutdown_still_routes_through_handshake() {
    let mut session = Session::new();
    session.request(&request(2, "shutdown", "null"));

    let (exit, outgoing) = session.notify(&notification("exit", "null"));

    assert_eq!(exit, ExitAction::Exit(0));
    assert!(outgoing.is_empty());
}

#[test]
fn goto_definition_resolves_a_symbol_indexed_from_a_reindexed_open_document() {
    let mut session = Session::new();

    session.notify(&did_open("file:///Greeter.java", 1, "class Greeter {}"));
    session.notify(&did_open("file:///Main.java", 1, "class Main { Greeter g; }"));

    assert!(!session.index.lookup("Greeter").is_empty());

    let character = "class Main { Gree".len();
    let value = session.request(&request(
        2,
        "textDocument/definition",
        &format!(
            "{{\"textDocument\":{{\"uri\":\"file:///Main.java\"}},\"position\":{{\"line\":0,\"character\":{character}}}}}"
        ),
    ));

    assert!(value["result"].is_array());
    assert_eq!(value["result"][0]["uri"], Value::from("file:///Greeter.java"));
    let locations: Vec<lsp_types::Location> =
        serde_json::from_value(value["result"].clone()).unwrap();
    assert_eq!(serde_json::to_value(&locations).unwrap(), value["result"]);
    assert_eq!(locations[0].range.start.character, 6);
    assert_eq!(locations[0].range.end.character, 13);
}

#[test]
fn goto_definition_on_a_qualified_call_resolves_only_the_receivers_own_class() {
    let mut session = Session::new();

    session.notify(&did_open(
        "file:///Person.java",
        1,
        "class Person { String getName() { return null; } }",
    ));
    session.notify(&did_open(
        "file:///Car.java",
        1,
        "class Car { String getName() { return null; } }",
    ));
    session.notify(&did_open(
        "file:///Main.java",
        1,
        "class Main { void run() { Person person = new Person(); person.getName(); } }",
    ));

    let character = "class Main { void run() { Person person = new Person(); person.get".len();
    let value = session.request(&request(
        2,
        "textDocument/definition",
        &format!(
            "{{\"textDocument\":{{\"uri\":\"file:///Main.java\"}},\"position\":{{\"line\":0,\"character\":{character}}}}}"
        ),
    ));

    let locations = value["result"].as_array().unwrap();
    assert_eq!(locations.len(), 1);
    assert_eq!(locations[0]["uri"], Value::from("file:///Person.java"));
}

#[test]
fn goto_definition_returns_null_when_nothing_resolves() {
    let mut session = Session::new();
    session.notify(&did_open("file:///Main.java", 1, "class Main {}"));

    let value = session.request(&request(
        2,
        "textDocument/definition",
        r#"{
            "textDocument": {"uri": "file:///Main.java"},
            "position": {"line": 0, "character": 0}
        }"#,
    ));

    assert_eq!(value["result"], Value::Null);
}

#[test]
fn hover_and_completion_answer_in_the_protocols_shape() {
    let mut session = Session::new();
    session.notify(&did_open("file:///Main.java", 1, "class Main { Main other; Ma }"));
    let at = |character: usize| {
        format!(
            "{{\"textDocument\":{{\"uri\":\"file:///Main.java\"}},\"position\":{{\"line\":0,\"character\":{character}}}}}"
        )
    };

    let value = session.request(&request(2, "textDocument/hover", &at(8)));
    let hover: lsp_types::Hover = serde_json::from_value(value["result"].clone()).unwrap();
    assert_eq!(serde_json::to_value(&hover).unwrap(), value["result"]);
    assert_eq!(value["result"]["contents"], Value::from("class Main"));

    let value = session.request(&request(3, "textDocument/completion", &at(27)));
    let items: Vec<lsp_types::CompletionItem> =
        serde_json::from_value(value["result"].clone()).unwrap();
    assert_eq!(serde_json::to_value(&items).unwrap(), value["result"]);
    assert_eq!(items.len(), 1);
    assert_eq!(items[0].label, "Main");
    assert_eq!(items[0].kind, Some(lsp_types::CompletionItemKind::CLASS));

    let value = session.request(&request(4, "textDocument/completion", &at(13)));
    assert_eq!(value["result"], Value::Null);
}

#[test]
fn unreadable_parameters_are_answered_with_an_error() {
    let mut session = Session::new();
    for method in [
        "textDocument/definition",
        "textDocument/hover",
        "textDocument/completion",
    ] {
        let value = session.request(&request(7, method, "{\"textDocument\": 3}"));
        assert_eq!(value["id"], Value::from(7));
        assert_eq!(value["error"]["code"], Value::from(-32602));
        assert!(
            value["error"]["message"]
                .as_str()
                .unwrap()
                .starts_with("invalid params: ")
        );
    }
}

#[test]
fn features_are_refused_before_initialize() {
    let mut session = Session::uninitialized();
    let value = session.request(&request(1, "textDocument/hover", "{}"));
    assert_eq!(value["error"]["code"], Value::from(-32002));
}

#[test]
fn initialized_starts_scanning_and_resolving_the_workspace() {
    let mut session = Session::uninitialized();
    session.request(&request(
        1,
        "initialize",
        r#"{"processId": null, "rootUri": "file:///ignored", "capabilities": {},
            "workspaceFolders": [{"uri": "file:///work/My%20Project", "name": "p"}]}"#,
    ));

    let (exit, outgoing) = session.notify(&notification("initialized", "{}"));

    assert_eq!(exit, ExitAction::Continue);
    assert!(outgoing.is_empty());
    assert_eq!(session.other_tasks.len(), 2);
    match (&session.other_tasks[0], &session.other_tasks[1]) {
        (Task::ScanWorkspace { root }, Task::ResolveBuild { root: same }) => {
            assert_eq!(root, "/work/My Project");
            assert_eq!(same, "/work/My Project");
        }
        _ => panic!("expected a scan and a build resolution"),
    }
}

#[test]
fn the_workspace_root_is_the_first_folder_or_the_root_uri() {
    let uri = Uri::new;
    let params = |folders: Option<Vec<Uri>>, root: Option<Uri>| {
        workspace_root(Some(InitializeParams { folders, root }))
    };

    assert_eq!(
        params(
            Some(vec![uri("file:///a"), uri("file:///b")]),
            Some(uri("file:///c"))
        ),
        Some(uri("file:///a"))
    );
    assert_eq!(
        params(Some(vec![]), Some(uri("file:///c"))),
        Some(uri("file:///c"))
    );
    assert_eq!(params(None, None), None);
    assert_eq!(workspace_root(None), None);
}

fn module(root: &str, classpath: &[&str]) -> ModuleModel {
    ModuleModel {
        root: root.to_string(),
        source_dirs: vec![format!("{root}/src")],
        classpath: classpath.iter().map(|s| s.to_string()).collect(),
        java_version: None,
    }
}

#[test]
fn a_lombok_file_of_a_module_with_lombok_is_planned() {
    let source = "package a.b;\nimport lombok.Getter;\nclass A {}";
    let tree = SyntaxTree::parse(source);
    let model = ProjectModel {
        modules: vec![module("/m", &["/x/gson.jar", "/x/lombok-1.jar"])],
    };

    let plan =
        plan_lombok_compile("/m/src/a/b/A.java", source, tree.tree(), &model, "/cache").unwrap();

    assert_eq!(plan.module.root, "/m");
    assert_eq!(plan.lombok_jar, "/x/lombok-1.jar");
    assert!(plan.output_dir.starts_with("/cache/javac-output/"));
    assert_eq!(
        compiled_class_path("/m/src/a/b/A.java", source, tree.tree()),
        Some("a/b/A.class".to_string())
    );

    let elsewhere = plan_lombok_compile("/n/A.java", source, tree.tree(), &model, "/cache");
    assert!(elsewhere.is_none());
    let without = ProjectModel {
        modules: vec![module("/m", &["/x/gson.jar"])],
    };
    assert!(
        plan_lombok_compile("/m/src/A.java", source, tree.tree(), &without, "/cache").is_none()
    );
    let plain = SyntaxTree::parse("class A {}");
    assert!(
        plan_lombok_compile("/m/src/A.java", "class A {}", plain.tree(), &model, "/cache")
            .is_none()
    );
    assert_eq!(
        compiled_class_path("/m/src/A.java", "class A {}", plain.tree()),
        Some("A.class".to_string())
    );
}

#[test]
fn redirects_need_a_classfile() {
    let tree = SyntaxTree::parse("class A {}");
    assert!(lombok_redirects("/A.java", "class A {}", tree.tree(), b"no class").is_none());
}

#[test]
fn each_session_of_a_document_has_a_generation_of_its_own() {
    let mut server = Server::new();
    let file = Uri::new("file:///Main.java");
    let opened = |version: i32| DidOpenParams {
        uri: file.clone(),
        version,
        text: "class Main {}".to_string(),
    };
    let generations = |tasks: &Vec<Task>| {
        tasks
            .iter()
            .map(|task| match task {
                Task::Reindex {
                    generation,
                    version,
                    ..
                } => (*generation, *version),
                _ => panic!("no other task is due"),
            })
            .collect::<Vec<(u64, i32)>>()
    };

    assert_eq!(generations(&server.did_open(Some(opened(9))).tasks), [(1, 9)]);
    let changed = DidChangeParams {
        uri: file.clone(),
        version: 10,
        changes: vec![TextDocumentContentChangeEvent {
            range: None,
            range_length: None,
            text: "class Other {}".to_string(),
        }],
    };
    assert_eq!(generations(&server.did_change(Some(changed)).tasks), [(1, 10)]);
    let closed = server.did_close(Some(file.clone()));
    assert_eq!(closed.sent.len(), 1);
    assert!(closed.tasks.is_empty());
    assert_eq!(generations(&server.did_open(Some(opened(1))).tasks), [(2, 1)]);

    let ignored = server.did_open(None);
    assert!(ignored.sent.is_empty() && ignored.tasks.is_empty());
    assert_eq!(ignored.action, ExitAction::Continue);
    assert!(server.did_save(Some(file)).tasks.is_empty());
    assert!(server.initialized().tasks.is_empty());
}
