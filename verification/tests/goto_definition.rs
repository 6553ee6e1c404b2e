use java_lsp::documents::DocumentStore;
use java_lsp::goto_definition::{definitions_named, goto_definition};
use java_lsp::protocol::{Position, Range, TextDocumentPosition, Uri};
use java_lsp::symbol::{SymbolInfo, SymbolKind};
use java_lsp::workspace_index::WorkspaceIndex;

fn uri(value: &str) -> Uri {
    Uri::new(value)
}

fn params(uri: Uri, position: Position) -> TextDocumentPosition {
    TextDocumentPosition { uri, position }
}

#[test]
fn resolves_a_reference_to_its_workspace_declaration() {
    let main = uri("file:///Main.java");
    let greeter = uri("file:///Greeter.java");

    let mut documents = DocumentStore::new();
    documents.open(main.clone(), "class Main { Greeter g; }");

    let mut index = WorkspaceIndex::new();
    let declaration_range = Range::new(Position::new(0, 6), Position::new(0, 13));
    index.update_file(
        greeter.clone(),
        1,
        1,
        vec![SymbolInfo {
            name: "Greeter".to_string(),
            kind: SymbolKind::Class,
            uri: greeter.clone(),
            range: declaration_range,
            selection_range: declaration_range,
            owner: None,
        }],
    );

    let position = Position::new(0, "class Main { Gree".len() as u32);
    let response = goto_definition(&index, &documents, &params(main, position)).unwrap();

    let locations = response;
    assert_eq!(locations.len(), 1);
    assert_eq!(locations[0].uri, greeter);
    assert_eq!(locations[0].range, declaration_range);
}

#[test]
fn goto_definition_returns_none_when_the_cursor_is_not_on_an_identifier() {
    let main = uri("file:///Main.java");
    let mut documents = DocumentStore::new();
    documents.open(main.clone(), "class Main {}");
    let index = WorkspaceIndex::new();

    let response = goto_definition(&index, &documents, &params(main, Position::new(0, 0)));

    assert!(response.is_none());
}

#[test]
fn returns_none_when_no_declaration_matches_the_name() {
    let main = uri("file:///Main.java");
    let mut documents = DocumentStore::new();
    documents.open(main.clone(), "class Main { Unknown u; }");
    let index = WorkspaceIndex::new();

    let position = Position::new(0, "class Main { Unkn".len() as u32);
    let response = goto_definition(&index, &documents, &params(main, position));

    assert!(response.is_none());
}

fn method_symbol(uri: Uri, range: Range, owner: &str) -> SymbolInfo {
    SymbolInfo {
        name: "getName".to_string(),
        kind: SymbolKind::Method,
        uri,
        range,
        selection_range: range,
        owner: Some(owner.to_string()),
    }
}

#[test]
fn a_qualified_method_call_resolves_to_only_the_receivers_own_declaring_class() {
    let main = uri("file:///Main.java");
    let person_uri = uri("file:///Person.java");
    let car_uri = uri("file:///Car.java");

    let mut documents = DocumentStore::new();
    documents.open(
        main.clone(),
        "class Main { void run() { Person person = new Person(); person.getName(); } }",
    );

    let mut index = WorkspaceIndex::new();
    let person_range = Range::new(Position::new(0, 0), Position::new(0, 7));
    let car_range = Range::new(Position::new(0, 0), Position::new(0, 7));
    index.update_file(
        person_uri.clone(),
        1,
        1,
        vec![method_symbol(person_uri.clone(), person_range, "Person")],
    );
    index.update_file(
        car_uri.clone(),
        1,
        1,
        vec![method_symbol(car_uri, car_range, "Car")],
    );

    let position = Position::new(
        0,
        "class Main { void run() { Person person = new Person(); person.get".len() as u32,
    );
    let response = goto_definition(&index, &documents, &params(main, position)).unwrap();

    let locations = response;
    assert_eq!(locations.len(), 1);
    assert_eq!(locations[0].uri, person_uri);
    assert_eq!(locations[0].range, person_range);
}

#[test]
fn falls_back_to_every_same_named_candidate_when_the_receiver_type_is_unresolvable() {
    let main = uri("file:///Main.java");
    let person_uri = uri("file:///Person.java");
    let car_uri = uri("file:///Car.java");

    let mut documents = DocumentStore::new();
    documents.open(
        main.clone(),
        "class Main { void run() { getPerson().getName(); } }",
    );

    let mut index = WorkspaceIndex::new();
    let person_range = Range::new(Position::new(0, 0), Position::new(0, 7));
    let car_range = Range::new(Position::new(0, 0), Position::new(0, 7));
    index.update_file(
        person_uri.clone(),
        1,
        1,
        vec![method_symbol(person_uri, person_range, "Person")],
    );
    index.update_file(
        car_uri.clone(),
        1,
        1,
        vec![method_symbol(car_uri, car_range, "Car")],
    );

    let position = Position::new(0, "class Main { void run() { getPerson().get".len() as u32);
    let response = goto_definition(&index, &documents, &params(main, position)).unwrap();

    let locations = response;
    assert_eq!(locations.len(), 2);
}

#[test]
fn the_definitions_of_a_name_are_narrowed_to_the_receivers_type() {
    let range = Range::new(Position::new(2, 4), Position::new(2, 9));
    let owned = |file: &str, owner: &str| SymbolInfo {
        name: "start".to_string(),
        kind: SymbolKind::Method,
        uri: uri(file),
        range,
        selection_range: range,
        owner: Some(owner.to_string()),
    };
    let mut index = WorkspaceIndex::new();
    index.update_file(
        uri("file:///Car.java"),
        1,
        1,
        vec![owned("file:///Car.java", "Car")],
    );
    index.update_file(
        uri("file:///Race.java"),
        1,
        1,
        vec![owned("file:///Race.java", "Race")],
    );
    let files = |receiver: Option<&str>| {
        definitions_named(&index, "start", receiver)
            .unwrap()
            .into_iter()
            .map(|location| location.uri.as_str().to_string())
            .collect::<Vec<String>>()
    };

    assert_eq!(files(Some("Race")), ["file:///Race.java"]);
    assert_eq!(files(Some("Boat")), ["file:///Car.java", "file:///Race.java"]);
    assert_eq!(files(None), ["file:///Car.java", "file:///Race.java"]);
    assert!(definitions_named(&index, "stop", None).is_none());
}
