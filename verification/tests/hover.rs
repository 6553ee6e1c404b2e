use java_lsp::documents::DocumentStore;
use java_lsp::hover::{hover, hover_named};
use java_lsp::protocol::{Position, Range, TextDocumentPosition, Uri};
use java_lsp::symbol::{SymbolInfo, SymbolKind};
use java_lsp::workspace_index::WorkspaceIndex;

fn uri(value: &str) -> Uri {
    Uri::new(value)
}

fn params(uri: Uri, position: Position) -> TextDocumentPosition {
    TextDocumentPosition { uri, position }
}

#[test]
fn hover_returns_kind_and_name_for_a_resolved_symbol() {
    let main = uri("file:///Main.java");
    let greeter = uri("file:///Greeter.java");

    let mut documents = DocumentStore::new();
    documents.open(main.clone(), "class Main { Greeter g; }");

    let mut index = WorkspaceIndex::new();
    let range = Range::new(Position::new(0, 6), Position::new(0, 13));
    index.update_file(
        greeter.clone(),
        1,
        1,
        vec![SymbolInfo {
            name: "Greeter".to_string(),
            kind: SymbolKind::Class,
            uri: greeter,
            range,
            selection_range: range,
            owner: None,
        }],
    );

    let position = Position::new(0, "class Main { Gree".len() as u32);
    let result = hover(&index, &documents, &params(main, position)).unwrap();

    assert_eq!(result.contents, "class Greeter");
}

#[test]
fn hover_prefers_a_declaration_over_an_import_regardless_of_index_insertion_order() {
    let main = uri("file:///Main.java");
    let greeter = uri("file:///Greeter.java");
    let class_range = Range::new(Position::new(0, 6), Position::new(0, 13));
    let class_symbol = SymbolInfo {
        name: "Greeter".to_string(),
        kind: SymbolKind::Class,
        uri: greeter,
        range: class_range,
        selection_range: class_range,
        owner: None,
    };
    let import_range = Range::new(Position::new(0, 0), Position::new(0, 7));
    let import_symbol = SymbolInfo {
        name: "Greeter".to_string(),
        kind: SymbolKind::Import,
        uri: main.clone(),
        range: import_range,
        selection_range: import_range,
        owner: None,
    };

    let mut documents = DocumentStore::new();
    documents.open(main.clone(), "class Main { Greeter g; }");
    let position = Position::new(0, "class Main { Gree".len() as u32);

    // Import indexed before the class it refers to.
    let mut import_first = WorkspaceIndex::new();
    import_first.update_file(main.clone(), 1, 1, vec![import_symbol.clone()]);
    import_first.update_file(import_symbol.uri.clone(), 1, 1, vec![class_symbol.clone()]);
    let result = hover(&import_first, &documents, &params(main.clone(), position)).unwrap();
    assert_eq!(
        result.contents,
        "class Greeter"
    );

    // Class indexed before the import that refers to it.
    let mut class_first = WorkspaceIndex::new();
    class_first.update_file(class_symbol.uri.clone(), 1, 1, vec![class_symbol]);
    class_first.update_file(main.clone(), 1, 1, vec![import_symbol]);
    let result = hover(&class_first, &documents, &params(main, position)).unwrap();
    assert_eq!(
        result.contents,
        "class Greeter"
    );
}

#[test]
fn hover_returns_none_when_not_on_an_identifier() {
    let main = uri("file:///Main.java");
    let mut documents = DocumentStore::new();
    documents.open(main.clone(), "class Main {}");
    let index = WorkspaceIndex::new();

    let result = hover(&index, &documents, &params(main, Position::new(0, 0)));

    assert!(result.is_none());
}

#[test]
fn hover_returns_none_when_no_symbol_matches() {
    let main = uri("file:///Main.java");
    let mut documents = DocumentStore::new();
    documents.open(main.clone(), "class Main { Unknown u; }");
    let index = WorkspaceIndex::new();

    let position = Position::new(0, "class Main { Unkn".len() as u32);
    let result = hover(&index, &documents, &params(main, position));

    assert!(result.is_none());
}

#[test]
fn hover_narrows_to_the_receivers_type() {
    let main = uri("file:///Main.java");
    let source = "class Main { void run() { Person person; person.getName(); } }";
    let mut documents = DocumentStore::new();
    documents.open(main.clone(), source);
    let range = Range::new(Position::new(0, 0), Position::new(0, 1));
    let owned = |kind: SymbolKind, file: &str, owner: &str| SymbolInfo {
        name: "getName".to_string(),
        kind,
        uri: uri(file),
        range,
        selection_range: range,
        owner: Some(owner.to_string()),
    };
    let mut index = WorkspaceIndex::new();
    index.update_file(
        uri("file:///Car.java"),
        1,
        1,
        vec![owned(SymbolKind::Field, "file:///Car.java", "Car")],
    );
    index.update_file(
        uri("file:///Person.java"),
        1,
        1,
        vec![owned(SymbolKind::Method, "file:///Person.java", "Person")],
    );

    let at = source.find("getName").unwrap() as u32;
    let result = hover(&index, &documents, &params(main, Position::new(0, at))).unwrap();

    assert_eq!(result.contents, "method getName");
    assert_eq!(
        result.range,
        Some(Range::new(Position::new(0, at), Position::new(0, at + 7)))
    );
}

#[test]
fn the_hover_of_a_name_shows_its_kind_and_the_range_it_was_asked_for() {
    let file = uri("file:///A.java");
    let declared = Range::new(Position::new(0, 0), Position::new(0, 1));
    let mut index = WorkspaceIndex::new();
    for (name, kind) in [
        ("A", SymbolKind::Class),
        ("B", SymbolKind::Interface),
        ("C", SymbolKind::Enum),
        ("d", SymbolKind::Method),
        ("E", SymbolKind::Constructor),
        ("f", SymbolKind::Field),
        ("G", SymbolKind::Import),
    ] {
        index.update_file(
            uri(&format!("file:///{name}.java")),
            1,
            1,
            vec![SymbolInfo {
                name: name.to_string(),
                kind,
                uri: file.clone(),
                range: declared,
                selection_range: declared,
                owner: None,
            }],
        );
    }
    let asked = Range::new(Position::new(7, 1), Position::new(7, 2));

    for (name, contents) in [
        ("A", "class A"),
        ("B", "interface B"),
        ("C", "enum C"),
        ("d", "method d"),
        ("E", "constructor E"),
        ("f", "field f"),
        ("G", "import G"),
    ] {
        let shown = hover_named(&index, name, asked, None).unwrap();
        assert_eq!(shown.contents, contents);
        assert_eq!(shown.range, Some(asked));
    }
    assert!(hover_named(&index, "H", asked, None).is_none());
}
