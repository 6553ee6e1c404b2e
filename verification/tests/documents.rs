use java_lsp::documents::DocumentStore;
use java_lsp::protocol::{Position, Range, TextDocumentContentChangeEvent, Uri};

fn uri(value: &str) -> Uri {
    Uri::new(value)
}

#[test]
fn open_with_valid_source_returns_no_diagnostics() {
    let mut store = DocumentStore::new();

    let diagnostics = store.open(uri("file:///Main.java"), "class Main {}");

    assert_eq!(diagnostics, Vec::new());
}

#[test]
fn open_with_broken_source_returns_diagnostics() {
    let mut store = DocumentStore::new();

    let diagnostics = store.open(uri("file:///Main.java"), "class Main {");

    assert!(!diagnostics.is_empty());
}

#[test]
fn change_with_full_text_replacement_updates_diagnostics() {
    let mut store = DocumentStore::new();
    let doc = uri("file:///Main.java");
    store.open(doc.clone(), "class Main {");

    let diagnostics = store.change(
        &doc,
        &vec![TextDocumentContentChangeEvent {
            range: None,
            range_length: None,
            text: "class Main {}".to_string(),
        }],
    );

    assert_eq!(diagnostics, Vec::new());
}

#[test]
fn change_applies_multiple_content_changes_in_order() {
    let mut store = DocumentStore::new();
    let doc = uri("file:///Main.java");
    store.open(doc.clone(), "class Main { void run() { int x = 1 } }");

    let insert_at = Position::new(0, "class Main { void run() { int x = 1".len() as u32);
    let diagnostics = store.change(
        &doc,
        &vec![
            TextDocumentContentChangeEvent {
                range: Some(Range::new(insert_at, insert_at)),
                range_length: None,
                text: ";".to_string(),
            },
            TextDocumentContentChangeEvent {
                range: Some(Range::new(insert_at, insert_at)),
                range_length: None,
                text: " ".to_string(),
            },
        ],
    );

    assert_eq!(diagnostics, Vec::new());
}

#[test]
fn change_on_unknown_document_returns_no_diagnostics() {
    let mut store = DocumentStore::new();

    let diagnostics = store.change(
        &uri("file:///NeverOpened.java"),
        &vec![TextDocumentContentChangeEvent {
            range: None,
            range_length: None,
            text: "class Main {}".to_string(),
        }],
    );

    assert_eq!(diagnostics, Vec::new());
}

#[test]
fn document_returns_the_current_syntax_tree_for_an_open_uri() {
    let mut store = DocumentStore::new();
    let doc = uri("file:///Main.java");
    store.open(doc.clone(), "class Main {}");

    let tree = store.document(&doc).unwrap();

    assert_eq!(tree.source(), "class Main {}");
}

#[test]
fn document_returns_none_for_an_unopened_uri() {
    let store = DocumentStore::new();

    assert!(store.document(&uri("file:///NeverOpened.java")).is_none());
}

#[test]
fn close_removes_the_document_so_later_changes_are_ignored() {
    let mut store = DocumentStore::new();
    let doc = uri("file:///Main.java");
    store.open(doc.clone(), "class Main {");

    store.close(&doc);
    let diagnostics = store.change(
        &doc,
        &vec![TextDocumentContentChangeEvent {
            range: None,
            range_length: None,
            text: "class Main {}".to_string(),
        }],
    );

    assert_eq!(diagnostics, Vec::new());
}

#[test]
fn documents_are_kept_apart() {
    let mut store = DocumentStore::new();
    let (a, b) = (uri("file:///A.java"), uri("file:///B.java"));
    store.open(a.clone(), "class A {}");
    store.open(b.clone(), "class B {}");
    store.open(a.clone(), "class A2 {}");
    assert_eq!(store.document(&a).unwrap().source(), "class A2 {}");
    assert_eq!(store.document(&b).unwrap().source(), "class B {}");

    store.close(&a);
    assert!(store.document(&a).is_none());
    assert_eq!(store.document(&b).unwrap().source(), "class B {}");
}
