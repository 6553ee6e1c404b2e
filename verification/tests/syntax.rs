use java_lsp::protocol::{DiagnosticSeverity, Position, Range, TextDocumentContentChangeEvent};
use java_lsp::syntax::{edited, InputEdit, Point, SyntaxTree};

fn change(range: Option<Range>, text: &str) -> TextDocumentContentChangeEvent {
    TextDocumentContentChangeEvent {
        range,
        range_length: None,
        text: text.to_string(),
    }
}

#[test]
fn valid_source_has_no_diagnostics() {
    let tree = SyntaxTree::parse("class Main { public static void main(String[] args) {} }");

    assert_eq!(tree.diagnostics(), Vec::new());
}

#[test]
fn missing_semicolon_produces_a_diagnostic() {
    let tree = SyntaxTree::parse("class Main { void run() { int x = 1 } }");

    let diagnostics = tree.diagnostics();

    assert_eq!(diagnostics.len(), 1);
    assert_eq!(diagnostics[0].severity, Some(DiagnosticSeverity::Error));
    assert_eq!(diagnostics[0].source.as_deref(), Some("java-lsp"));
    assert_eq!(diagnostics[0].message, "syntax error: missing ;");
}

#[test]
fn unbalanced_brace_produces_a_diagnostic() {
    let tree = SyntaxTree::parse("class Main { void run() {");

    assert!(!tree.diagnostics().is_empty());
}

#[test]
fn full_document_change_without_range_reparses_from_scratch() {
    let mut tree = SyntaxTree::parse("class Main { void run() { int x = 1 } }");
    assert!(!tree.diagnostics().is_empty());

    tree.edit(&change(None, "class Main { void run() { int x = 1; } }"));

    assert!(tree.diagnostics().is_empty());
}

#[test]
fn incremental_change_inserting_missing_semicolon_clears_the_diagnostic() {
    let mut tree = SyntaxTree::parse("class Main { void run() { int x = 1 } }");
    assert!(!tree.diagnostics().is_empty());

    let insert_at = Position::new(0, "class Main { void run() { int x = 1".len() as u32);
    tree.edit(&change(Some(Range::new(insert_at, insert_at)), ";"));

    assert_eq!(tree.diagnostics(), Vec::new());
    assert_eq!(tree.source(), "class Main { void run() { int x = 1; } }");
}

#[test]
fn incremental_change_deleting_a_brace_introduces_a_diagnostic() {
    let source = "class Main { void run() { int x = 1; } }";
    let mut tree = SyntaxTree::parse(source);
    assert!(tree.diagnostics().is_empty());

    let end = Position::new(0, source.len() as u32);
    let start = Position::new(0, source.len() as u32 - 1);
    tree.edit(&change(Some(Range::new(start, end)), ""));

    assert!(!tree.diagnostics().is_empty());
}

#[test]
fn edit_with_a_backwards_range_does_not_panic() {
    let source = "class Main { void run() { int x = 1; } }";
    let mut tree = SyntaxTree::parse(source);

    let earlier = Position::new(0, 5);
    let later = Position::new(0, 10);
    tree.edit(&change(Some(Range::new(later, earlier)), ""));

    assert!(!tree.diagnostics().is_empty());
    assert_eq!(tree.source(), "class { void run() { int x = 1; } }");
}

#[test]
fn edit_inserting_text_with_newlines_tracks_the_new_end_position() {
    let mut tree = SyntaxTree::parse("class Main { void run() { int x = 1 } }");

    let insert_at = Position::new(0, "class Main { void run() { int x = 1".len() as u32);
    tree.edit(&change(
        Some(Range::new(insert_at, insert_at)),
        ";\n    int y = 2;\n",
    ));

    assert_eq!(tree.diagnostics(), Vec::new());
}

#[test]
fn edited_says_what_a_change_replaced() {
    let source = "ab\n€cd\n";
    let range = Range::new(Position::new(1, 1), Position::new(1, 2));

    let (text, edit) = edited(source, range, "x\nyz");

    assert_eq!(text, "ab\n€x\nyzd\n");
    assert_eq!(
        edit,
        InputEdit {
            start_byte: 6,
            old_end_byte: 7,
            new_end_byte: 10,
            start_position: Point { row: 1, column: 3 },
            old_end_position: Point { row: 1, column: 4 },
            new_end_position: Point { row: 2, column: 2 },
        }
    );
    let backwards = Range::new(range.end, range.start);
    assert_eq!(edited(source, backwards, "x\nyz"), (text, edit));
}

#[test]
fn tree_and_source_accessors_expose_current_state() {
    let tree = SyntaxTree::parse("class Main {}");

    assert_eq!(tree.source(), "class Main {}");
    assert!(!tree.tree().root_node().has_error());
}

#[test]
fn identifier_at_returns_the_identifier_under_the_cursor() {
    let source = "class Main {}";
    let tree = SyntaxTree::parse(source);
    let position = "class Ma".len() as u32;

    let (name, range) = tree.identifier_at(Position::new(0, position)).unwrap();

    assert_eq!(name, "Main");
    assert_eq!(
        range,
        Range::new(
            Position::new(0, "class ".len() as u32),
            Position::new(0, "class Main".len() as u32)
        )
    );
}

#[test]
fn identifier_at_recognizes_type_identifier_nodes() {
    let source = "class Main { Helper helper; }";
    let tree = SyntaxTree::parse(source);
    let position = "class Main { Hel".len() as u32;

    let (name, _) = tree.identifier_at(Position::new(0, position)).unwrap();

    assert_eq!(name, "Helper");
}

#[test]
fn identifier_at_agrees_with_the_trees_own_lookup() {
    let source = "package a.b;\nclass Main<T> { int f(int x) { return this.g(x, y -> y + 1)[0]; } ";
    let tree = SyntaxTree::parse(source);
    for offset in 0..source.len() {
        let node = tree
            .tree()
            .root_node()
            .descendant_for_byte_range(offset, offset)
            .unwrap();
        let expected = if matches!(node.kind(), "identifier" | "type_identifier") {
            Some(source[node.start_byte()..node.end_byte()].to_string())
        } else {
            None
        };
        let line = source[..offset].matches('\n').count();
        let column = offset - source[..offset].rfind('\n').map_or(0, |i| i + 1);
        let found = tree
            .identifier_at(Position::new(line as u32, column as u32))
            .map(|(name, _)| name);
        assert_eq!(found, expected, "at {offset}");
    }
}

#[test]
fn identifier_at_returns_none_when_not_on_an_identifier() {
    let tree = SyntaxTree::parse("class Main {}");

    assert_eq!(tree.identifier_at(Position::new(0, 0)), None);
}

#[test]
fn identifier_prefix_before_returns_the_partial_word_before_the_cursor() {
    let tree = SyntaxTree::parse("class Main { void run() { int gree } }");
    let position = "class Main { void run() { int gree".len() as u32;

    let prefix = tree.identifier_prefix_before(Position::new(0, position));

    assert_eq!(prefix, "gree");
}

#[test]
fn identifier_prefix_before_is_empty_right_after_a_non_identifier_character() {
    let tree = SyntaxTree::parse("class Main {}");

    let prefix = tree.identifier_prefix_before(Position::new(0, 6));

    assert_eq!(prefix, "");
}

#[test]
fn qualified_completion_receiver_finds_what_stands_before_the_dot() {
    let receiver = |source: &str| {
        SyntaxTree::parse(source)
            .qualified_completion_receiver(Position::new(0, source.len() as u32))
    };

    assert_eq!(
        receiver("x = person.na"),
        Some(("person".to_string(), Position::new(0, 4)))
    );
    assert_eq!(
        receiver("x = person ."),
        Some(("person".to_string(), Position::new(0, 4)))
    );
    assert_eq!(
        receiver("a.b.na"),
        Some(("a.b".to_string(), Position::new(0, 0)))
    );
    assert_eq!(
        receiver("get().na"),
        Some((String::new(), Position::new(0, 5)))
    );
    assert_eq!(receiver("person"), None);
    assert_eq!(receiver(""), None);
}

#[test]
fn a_change_can_be_undone() {
    let source = "class A {\n  int €x;\n}\n";
    let range = Range::new(Position::new(1, 2), Position::new(1, 8));

    let (text, edit) = edited(source, range, "String\n  y");
    assert_eq!(text, "class A {\n  String\n  y;\n}\n");
    assert_eq!(
        text.len() - edit.new_end_byte,
        source.len() - edit.old_end_byte
    );

    let back = Range::new(Position::new(1, 2), Position::new(2, 3));
    assert_eq!(edited(&text, back, "int €x").0, source);
}
