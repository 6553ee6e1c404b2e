use java_lsp::completion::{complete_word, completion, Receiver};
use java_lsp::documents::DocumentStore;
use java_lsp::protocol::{CompletionItemKind, Position, Range, TextDocumentPosition, Uri};
use java_lsp::symbol::{SymbolInfo, SymbolKind};
use java_lsp::workspace_index::WorkspaceIndex;

fn uri(value: &str) -> Uri {
    Uri::new(value)
}

fn params(uri: Uri, position: Position) -> TextDocumentPosition {
    TextDocumentPosition { uri, position }
}

fn symbol(name: &str, kind: SymbolKind, uri: Uri) -> SymbolInfo {
    let range = Range::new(Position::new(0, 0), Position::new(0, 1));
    SymbolInfo {
        name: name.to_string(),
        kind,
        uri,
        range,
        selection_range: range,
        owner: None,
    }
}

#[test]
fn completion_returns_matching_workspace_symbols_by_prefix() {
    let main = uri("file:///Main.java");
    let greeter = uri("file:///Greeter.java");

    let mut documents = DocumentStore::new();
    documents.open(main.clone(), "class Main { Gree }");

    let mut index = WorkspaceIndex::new();
    index.update_file(
        greeter.clone(),
        1,
        1,
        vec![symbol("Greeter", SymbolKind::Class, greeter)],
    );

    let position = Position::new(0, "class Main { Gree".len() as u32);
    let response = completion(&index, &documents, &params(main, position)).unwrap();

    let items = response;
    assert_eq!(items.len(), 1);
    assert_eq!(items[0].label, "Greeter");
    assert_eq!(items[0].kind, Some(CompletionItemKind::Class));
}

#[test]
fn completion_returns_none_when_there_is_no_prefix_being_typed() {
    let main = uri("file:///Main.java");
    let mut documents = DocumentStore::new();
    documents.open(main.clone(), "class Main {}");
    let index = WorkspaceIndex::new();

    let response = completion(&index, &documents, &params(main, Position::new(0, 6)));

    assert!(response.is_none());
}

fn owned_field_symbol(name: &str, uri: Uri, owner: &str) -> SymbolInfo {
    let range = Range::new(Position::new(0, 0), Position::new(0, 1));
    SymbolInfo {
        name: name.to_string(),
        kind: SymbolKind::Field,
        uri,
        range,
        selection_range: range,
        owner: Some(owner.to_string()),
    }
}

#[test]
fn completion_after_a_qualified_receiver_only_offers_that_types_members() {
    let main = uri("file:///Main.java");
    let person_uri = uri("file:///Person.java");
    let car_uri = uri("file:///Car.java");

    let mut documents = DocumentStore::new();
    documents.open(
        main.clone(),
        "class Main { void run() { Person person = new Person(); person.na } }",
    );

    let mut index = WorkspaceIndex::new();
    index.update_file(
        person_uri.clone(),
        1,
        1,
        vec![owned_field_symbol("name", person_uri.clone(), "Person")],
    );
    index.update_file(
        car_uri.clone(),
        1,
        1,
        vec![owned_field_symbol("name", car_uri, "Car")],
    );

    let position = Position::new(
        0,
        "class Main { void run() { Person person = new Person(); person.na".len() as u32,
    );
    let response = completion(&index, &documents, &params(main, position)).unwrap();

    let items = response;
    assert_eq!(items.len(), 1);
    assert_eq!(items[0].label, "name");
}

#[test]
fn completion_returns_no_items_when_the_resolved_type_has_no_matching_member() {
    let main = uri("file:///Main.java");
    let person_uri = uri("file:///Person.java");
    let car_uri = uri("file:///Car.java");

    let mut documents = DocumentStore::new();
    documents.open(
        main.clone(),
        "class Main { void run() { Person person = new Person(); person.na } }",
    );

    let mut index = WorkspaceIndex::new();
    index.update_file(person_uri, 1, 1, vec![]);
    index.update_file(
        car_uri.clone(),
        1,
        1,
        vec![owned_field_symbol("name", car_uri, "Car")],
    );

    let position = Position::new(
        0,
        "class Main { void run() { Person person = new Person(); person.na".len() as u32,
    );
    let response = completion(&index, &documents, &params(main, position)).unwrap();

    // Offering an unrelated symbol would be worse than offering nothing.
    let items = response;
    assert!(items.is_empty());
}

#[test]
fn completion_returns_no_items_when_a_qualified_receivers_type_is_unresolved() {
    let main = uri("file:///Main.java");
    let car_uri = uri("file:///Car.java");

    let mut documents = DocumentStore::new();
    // `unknownVar` is never declared in scope, so its type can't be
    // resolved — a real dot-qualified receiver, just an unresolvable one.
    documents.open(main.clone(), "class Main { void run() { unknownVar.na } }");

    let mut index = WorkspaceIndex::new();
    index.update_file(
        car_uri.clone(),
        1,
        1,
        vec![owned_field_symbol("name", car_uri, "Car")],
    );

    let position = Position::new(0, "class Main { void run() { unknownVar.na".len() as u32);
    let response = completion(&index, &documents, &params(main, position)).unwrap();

    // Offering an unrelated symbol would be worse than offering nothing.
    let items = response;
    assert!(items.is_empty());
}

#[test]
fn completion_offers_every_member_right_after_the_dot_trigger_with_no_prefix_yet() {
    let main = uri("file:///Main.java");
    let person_uri = uri("file:///Person.java");

    let mut documents = DocumentStore::new();
    documents.open(
        main.clone(),
        "class Main { void run() { Person person = new Person(); person. } }",
    );

    let mut index = WorkspaceIndex::new();
    index.update_file(
        person_uri.clone(),
        1,
        1,
        vec![owned_field_symbol("name", person_uri, "Person")],
    );

    let position = Position::new(
        0,
        "class Main { void run() { Person person = new Person(); person.".len() as u32,
    );
    let response = completion(&index, &documents, &params(main, position)).unwrap();

    let items = response;
    assert_eq!(items.len(), 1);
    assert_eq!(items[0].label, "name");
}

#[test]
fn completion_behind_a_chained_call_offers_nothing() {
    let main = uri("file:///Main.java");
    let mut documents = DocumentStore::new();
    documents.open(main.clone(), "class Main { void run() { getPerson().na } }");
    let mut index = WorkspaceIndex::new();
    index.update_file(
        main.clone(),
        1,
        1,
        vec![owned_field_symbol("name", main.clone(), "Main")],
    );

    let position = Position::new(0, "class Main { void run() { getPerson().na".len() as u32);
    let items = completion(&index, &documents, &params(main, position)).unwrap();

    assert!(items.is_empty());
}

#[test]
fn completion_behind_this_offers_the_enclosing_types_members() {
    let main = uri("file:///Main.java");
    let mut documents = DocumentStore::new();
    documents.open(main.clone(), "class Main { int name; void run() { this.na } }");
    let mut index = WorkspaceIndex::new();
    index.update_file(
        main.clone(),
        1,
        1,
        vec![
            owned_field_symbol("name", main.clone(), "Main"),
            owned_field_symbol("nanny", main.clone(), "Other"),
        ],
    );

    let position = Position::new(0, "class Main { int name; void run() { this.na".len() as u32);
    let items = completion(&index, &documents, &params(main.clone(), position)).unwrap();

    assert_eq!(items.len(), 1);
    assert_eq!(items[0].label, "name");
    assert_eq!(items[0].kind, Some(CompletionItemKind::Field));
    let elsewhere = uri("file:///Closed.java");
    assert!(completion(&index, &documents, &params(elsewhere, position)).is_none());
}

#[test]
fn a_word_is_completed_by_its_prefix_and_receiver() {
    let file = uri("file:///A.java");
    let mut index = WorkspaceIndex::new();
    index.update_file(
        file.clone(),
        1,
        1,
        vec![
            symbol("name", SymbolKind::Method, file.clone()),
            owned_field_symbol("names", file.clone(), "Person"),
            owned_field_symbol("nut", file.clone(), "Person"),
            owned_field_symbol("named", file.clone(), "Car"),
        ],
    );
    let labels = |prefix: &str, receiver: Receiver| {
        complete_word(&index, prefix, &receiver)
            .map(|items| items.into_iter().map(|item| item.label).collect::<Vec<String>>())
    };

    let person = || Receiver::Typed("Person".to_string());
    assert_eq!(
        labels("na", Receiver::Nothing).unwrap(),
        ["name", "named", "names"]
    );
    assert_eq!(labels("", Receiver::Nothing), None);
    assert_eq!(labels("na", person()).unwrap(), ["names"]);
    assert_eq!(labels("", person()).unwrap(), ["names", "nut"]);
    assert_eq!(labels("na", Receiver::Unknown), Some(Vec::new()));
}
