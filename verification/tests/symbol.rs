use java_lsp::protocol::{Position, Range, Uri};
use java_lsp::symbol::{
    best_match, extract_symbols, is_more_relevant, narrow_to_receiver_type, relevance_key,
    SymbolInfo, SymbolKind,
};
use tree_sitter::{Parser, Tree};

fn parse(source: &str) -> Tree {
    let mut parser = Parser::new();
    parser
        .set_language(&tree_sitter_java::LANGUAGE.into())
        .unwrap();
    parser.parse(source, None).unwrap()
}

fn uri() -> Uri {
    Uri::new("file:///Main.java")
}

fn names_with_kind(symbols: &[SymbolInfo], kind: SymbolKind) -> Vec<&str> {
    symbols
        .iter()
        .filter(|s| s.kind == kind)
        .map(|s| s.name.as_str())
        .collect()
}

#[test]
fn extract_symbols_finds_a_class_declaration() {
    let source = "class Main {}";
    let tree = parse(source);

    let symbols = extract_symbols(&uri(), source, &tree);

    assert_eq!(names_with_kind(&symbols, SymbolKind::Class), vec!["Main"]);
}

#[test]
fn extract_symbols_finds_an_interface_declaration() {
    let source = "interface Greetable {}";
    let tree = parse(source);

    let symbols = extract_symbols(&uri(), source, &tree);

    assert_eq!(
        names_with_kind(&symbols, SymbolKind::Interface),
        vec!["Greetable"]
    );
}

#[test]
fn extract_symbols_finds_an_enum_declaration() {
    let source = "enum Color { RED, GREEN }";
    let tree = parse(source);

    let symbols = extract_symbols(&uri(), source, &tree);

    assert_eq!(names_with_kind(&symbols, SymbolKind::Enum), vec!["Color"]);
}

#[test]
fn extract_symbols_treats_a_record_declaration_as_a_class() {
    let source = "record Point(int x, int y) {}";
    let tree = parse(source);

    let symbols = extract_symbols(&uri(), source, &tree);

    assert_eq!(names_with_kind(&symbols, SymbolKind::Class), vec!["Point"]);
}

#[test]
fn extract_symbols_finds_a_method_declaration() {
    let source = "class Main { void run() {} }";
    let tree = parse(source);

    let symbols = extract_symbols(&uri(), source, &tree);

    assert_eq!(names_with_kind(&symbols, SymbolKind::Method), vec!["run"]);
}

#[test]
fn extract_symbols_finds_a_constructor_declaration() {
    let source = "class Main { Main() {} }";
    let tree = parse(source);

    let symbols = extract_symbols(&uri(), source, &tree);

    assert_eq!(
        names_with_kind(&symbols, SymbolKind::Constructor),
        vec!["Main"]
    );
}

#[test]
fn extract_symbols_finds_every_declarator_in_a_multi_declarator_field() {
    let source = "class Main { int a, b; }";
    let tree = parse(source);

    let symbols = extract_symbols(&uri(), source, &tree);

    assert_eq!(names_with_kind(&symbols, SymbolKind::Field), vec!["a", "b"]);
}

#[test]
fn extract_symbols_finds_a_regular_import() {
    let source = "import java.util.List;\nclass Main {}";
    let tree = parse(source);

    let symbols = extract_symbols(&uri(), source, &tree);

    assert_eq!(names_with_kind(&symbols, SymbolKind::Import), vec!["List"]);
}

#[test]
fn extract_symbols_skips_a_wildcard_import() {
    let source = "import java.util.*;\nclass Main {}";
    let tree = parse(source);

    let symbols = extract_symbols(&uri(), source, &tree);

    assert!(names_with_kind(&symbols, SymbolKind::Import).is_empty());
}

#[test]
fn extract_symbols_sets_no_owner_for_a_top_level_class() {
    let source = "class Main {}";
    let tree = parse(source);

    let symbols = extract_symbols(&uri(), source, &tree);

    let class_symbol = symbols
        .iter()
        .find(|s| s.kind == SymbolKind::Class)
        .unwrap();
    assert_eq!(class_symbol.owner, None);
}

#[test]
fn extract_symbols_sets_no_owner_for_an_import() {
    let source = "import java.util.List;\nclass Main {}";
    let tree = parse(source);

    let symbols = extract_symbols(&uri(), source, &tree);

    let import_symbol = symbols
        .iter()
        .find(|s| s.kind == SymbolKind::Import)
        .unwrap();
    assert_eq!(import_symbol.owner, None);
}

#[test]
fn extract_symbols_sets_a_methods_owner_to_its_enclosing_class() {
    let source = "class Person { String getName() { return null; } }";
    let tree = parse(source);

    let symbols = extract_symbols(&uri(), source, &tree);

    let method = symbols
        .iter()
        .find(|s| s.kind == SymbolKind::Method)
        .unwrap();
    assert_eq!(method.owner.as_deref(), Some("Person"));
}

#[test]
fn extract_symbols_sets_a_fields_owner_to_its_enclosing_class() {
    let source = "class Person { String name; }";
    let tree = parse(source);

    let symbols = extract_symbols(&uri(), source, &tree);

    let field = symbols
        .iter()
        .find(|s| s.kind == SymbolKind::Field)
        .unwrap();
    assert_eq!(field.owner.as_deref(), Some("Person"));
}

#[test]
fn extract_symbols_sets_a_constructors_owner_to_its_enclosing_class() {
    let source = "class Person { Person() {} }";
    let tree = parse(source);

    let symbols = extract_symbols(&uri(), source, &tree);

    let constructor = symbols
        .iter()
        .find(|s| s.kind == SymbolKind::Constructor)
        .unwrap();
    assert_eq!(constructor.owner.as_deref(), Some("Person"));
}

#[test]
fn extract_symbols_distinguishes_owners_for_the_same_method_name_in_different_classes() {
    let source = "class Person { String getName() { return null; } } class Car { String getName() { return null; } }";
    let tree = parse(source);

    let symbols = extract_symbols(&uri(), source, &tree);

    let mut owners: Vec<Option<&str>> = symbols
        .iter()
        .filter(|s| s.kind == SymbolKind::Method && s.name == "getName")
        .map(|s| s.owner.as_deref())
        .collect();
    owners.sort();
    assert_eq!(owners, vec![Some("Car"), Some("Person")]);
}

#[test]
fn extract_symbols_attributes_a_nested_classs_members_to_the_nested_class_not_the_outer_one() {
    let source = "class Outer { class Inner { void run() {} } }";
    let tree = parse(source);

    let symbols = extract_symbols(&uri(), source, &tree);

    let inner_class = symbols
        .iter()
        .find(|s| s.kind == SymbolKind::Class && s.name == "Inner")
        .unwrap();
    assert_eq!(inner_class.owner.as_deref(), Some("Outer"));

    let run_method = symbols
        .iter()
        .find(|s| s.kind == SymbolKind::Method && s.name == "run")
        .unwrap();
    assert_eq!(run_method.owner.as_deref(), Some("Inner"));
}

#[test]
fn selection_range_is_narrower_than_the_full_declaration_range() {
    let source = "class Main {}";
    let tree = parse(source);

    let symbols = extract_symbols(&uri(), source, &tree);
    let class_symbol = symbols
        .iter()
        .find(|s| s.kind == SymbolKind::Class)
        .unwrap();

    assert_eq!(class_symbol.selection_range.start.character, 6);
    assert_eq!(class_symbol.selection_range.end.character, 10);
    assert_eq!(class_symbol.range.start.character, 0);
}

fn make_symbol(name: &str, kind: SymbolKind, uri_str: &str) -> SymbolInfo {
    let range = Range::new(Position::new(0, 0), Position::new(0, 1));
    SymbolInfo {
        name: name.to_string(),
        kind,
        uri: Uri::new(uri_str),
        range,
        selection_range: range,
        owner: None,
    }
}

#[test]
fn best_match_prefers_a_declaration_over_an_import_regardless_of_order() {
    let import = make_symbol("Greeter", SymbolKind::Import, "file:///Main.java");
    let class = make_symbol("Greeter", SymbolKind::Class, "file:///Greeter.java");

    assert_eq!(best_match(&vec![&import, &class]), Some(&class));
    assert_eq!(
        best_match(&vec![&class, &import]),
        Some(&make_symbol(
            "Greeter",
            SymbolKind::Class,
            "file:///Greeter.java"
        ))
    );
}

#[test]
fn best_match_is_deterministic_between_two_real_declarations_regardless_of_order() {
    let a = make_symbol("Builder", SymbolKind::Class, "file:///a/Builder.java");
    let b = make_symbol("Builder", SymbolKind::Class, "file:///b/Builder.java");

    let first_order = best_match(&vec![&a, &b]).cloned();
    let second_order = best_match(&vec![&b, &a]).cloned();

    assert_eq!(first_order, second_order);
}

fn make_symbol_with_owner(name: &str, uri_str: &str, owner: &str) -> SymbolInfo {
    let mut symbol = make_symbol(name, SymbolKind::Method, uri_str);
    symbol.owner = Some(owner.to_string());
    symbol
}

#[test]
fn narrow_to_receiver_type_keeps_only_the_candidate_owned_by_the_receiver() {
    let person_method = make_symbol_with_owner("getName", "file:///Person.java", "Person");
    let car_method = make_symbol_with_owner("getName", "file:///Car.java", "Car");
    let candidates = vec![person_method.clone(), car_method];

    let narrowed = narrow_to_receiver_type(&candidates, Some("Person"));

    assert_eq!(narrowed, vec![&person_method]);
}

#[test]
fn narrow_to_receiver_type_falls_back_to_every_candidate_when_none_match() {
    let person_method = make_symbol_with_owner("getName", "file:///Person.java", "Person");
    let car_method = make_symbol_with_owner("getName", "file:///Car.java", "Car");
    let candidates = vec![person_method, car_method];

    let narrowed = narrow_to_receiver_type(&candidates, Some("Dog"));

    assert_eq!(narrowed.len(), 2);
}

#[test]
fn narrow_to_receiver_type_returns_every_candidate_when_no_receiver_type_is_given() {
    let person_method = make_symbol_with_owner("getName", "file:///Person.java", "Person");
    let car_method = make_symbol_with_owner("getName", "file:///Car.java", "Car");
    let candidates = vec![person_method, car_method];

    let narrowed = narrow_to_receiver_type(&candidates, None);

    assert_eq!(narrowed.len(), 2);
}

#[test]
fn relevance_orders_by_import_then_uri_then_position() {
    let mut late = make_symbol("A", SymbolKind::Class, "file:///a");
    late.selection_range = Range::new(Position::new(3, 1), Position::new(3, 2));
    let early = make_symbol("A", SymbolKind::Class, "file:///a");
    let other = make_symbol("A", SymbolKind::Method, "file:///b");
    let import = make_symbol("A", SymbolKind::Import, "file:///0");

    assert_eq!(relevance_key(&late), (false, "file:///a", 3, 1));
    assert_eq!(relevance_key(&import), (true, "file:///0", 0, 0));
    assert!(is_more_relevant(&early, &late));
    assert!(is_more_relevant(&late, &other));
    assert!(is_more_relevant(&other, &import));
    assert!(!is_more_relevant(&early, &early));
    assert_eq!(
        best_match(&vec![&import, &other, &late, &early]),
        Some(&early)
    );
    assert_eq!(best_match(&Vec::new()), None);
}

#[test]
fn extract_symbols_names_every_kind_in_document_order() {
    let source = "import a.B;\nclass C { int x; C() {} void m() {} enum E {} }\ninterface I {}";
    let tree = parse(source);

    let symbols = extract_symbols(&uri(), source, &tree);

    let found: Vec<(&str, SymbolKind, Option<&str>)> = symbols
        .iter()
        .map(|s| (s.name.as_str(), s.kind, s.owner.as_deref()))
        .collect();
    assert_eq!(
        found,
        vec![
            ("B", SymbolKind::Import, None),
            ("C", SymbolKind::Class, None),
            ("x", SymbolKind::Field, Some("C")),
            ("C", SymbolKind::Constructor, Some("C")),
            ("m", SymbolKind::Method, Some("C")),
            ("E", SymbolKind::Enum, Some("C")),
            ("I", SymbolKind::Interface, None),
        ]
    );
    assert!(symbols.iter().all(|s| s.uri == uri()));
}
