use java_lsp::member_reference::{
    member_reference_at, resolve_declared_type_at, simple_type_name,
};
use java_lsp::protocol::Position;
use tree_sitter::{Parser, Tree};

fn parse(source: &str) -> Tree {
    let mut parser = Parser::new();
    parser
        .set_language(&tree_sitter_java::LANGUAGE.into())
        .unwrap();
    parser.parse(source, None).unwrap()
}

fn position_of(source: &str, needle: &str) -> Position {
    let index = source.find(needle).expect("needle not found in source");
    Position::new(0, index as u32)
}

#[test]
fn resolves_a_local_variables_declared_type_for_a_method_call() {
    let source =
        "class Main { void run() { Person person = new Person(); person.getName(); } }";
    let tree = parse(source);

    let reference = member_reference_at(&tree, source, position_of(source, "getName")).unwrap();

    assert_eq!(reference.name, "getName");
    assert_eq!(reference.receiver_type, "Person");
}

#[test]
fn resolves_a_parameters_declared_type_for_a_method_call() {
    let source = "class Main { void run(Person person) { person.getName(); } }";
    let tree = parse(source);

    let reference = member_reference_at(&tree, source, position_of(source, "getName")).unwrap();

    assert_eq!(reference.receiver_type, "Person");
}

#[test]
fn resolves_a_fields_declared_type_for_a_method_call() {
    let source = "class Main { Person person; void run() { person.getName(); } }";
    let tree = parse(source);

    let reference = member_reference_at(&tree, source, position_of(source, "getName")).unwrap();

    assert_eq!(reference.receiver_type, "Person");
}

#[test]
fn resolves_this_to_the_enclosing_class() {
    let source = "class Person { void run() { this.getName(); } }";
    let tree = parse(source);

    let reference = member_reference_at(&tree, source, position_of(source, "getName")).unwrap();

    assert_eq!(reference.receiver_type, "Person");
}

#[test]
fn resolves_an_unqualified_call_to_the_enclosing_class() {
    let source = "class Person { void run() { getName(); } }";
    let tree = parse(source);

    let reference = member_reference_at(&tree, source, position_of(source, "getName")).unwrap();

    assert_eq!(reference.receiver_type, "Person");
}

#[test]
fn resolves_a_field_access_receivers_type() {
    let source =
        "class Main { void run() { Person person = new Person(); String n = person.name; } }";
    let tree = parse(source);

    let reference = member_reference_at(&tree, source, position_of(source, "name;")).unwrap();

    assert_eq!(reference.name, "name");
    assert_eq!(reference.receiver_type, "Person");
}

#[test]
fn strips_generic_type_arguments_from_the_resolved_type() {
    let source = "class Main { void run() { List<String> items; items.size(); } }";
    let tree = parse(source);

    let reference = member_reference_at(&tree, source, position_of(source, "size")).unwrap();

    assert_eq!(reference.receiver_type, "List");
}

#[test]
fn strips_the_package_qualifier_from_a_fully_qualified_type() {
    let source = "class Main { void run() { java.util.List items; items.size(); } }";
    let tree = parse(source);

    let reference = member_reference_at(&tree, source, position_of(source, "size")).unwrap();

    assert_eq!(reference.receiver_type, "List");
}

#[test]
fn returns_none_for_a_chained_call_whose_receiver_is_itself_a_call() {
    let source = "class Main { void run() { getPerson().getName(); } }";
    let tree = parse(source);

    assert_eq!(
        member_reference_at(&tree, source, position_of(source, "getName")),
        None
    );
}

#[test]
fn resolves_the_variable_actually_in_scope_not_a_sibling_blocks_same_named_variable() {
    let source = "class Main { void run() { { Person p = new Person(); } { Car p = new Car(); p.getName(); } } }";
    let tree = parse(source);

    let reference = member_reference_at(&tree, source, position_of(source, "getName")).unwrap();

    assert_eq!(reference.receiver_type, "Car");
}

#[test]
fn resolve_declared_type_at_resolves_this_to_the_enclosing_class() {
    let source = "class Person { void run() { this.na } }";
    let tree = parse(source);
    let position = position_of(source, "this.na");

    let resolved = resolve_declared_type_at(&tree, source, position, "this");

    assert_eq!(resolved, Some("Person".to_string()));
}

#[test]
fn returns_none_when_the_receiver_variable_is_not_in_scope() {
    let source = "class Main { void run() { person.getName(); } }";
    let tree = parse(source);

    assert_eq!(
        member_reference_at(&tree, source, position_of(source, "getName")),
        None
    );
}

#[test]
fn returns_none_when_the_cursor_is_on_the_receiver_not_the_member_name() {
    let source =
        "class Main { void run() { Person person = new Person(); person.getName(); } }";
    let tree = parse(source);
    let position = position_of(source, "person.getName");

    assert_eq!(member_reference_at(&tree, source, position), None);
}

#[test]
fn resolve_declared_type_at_resolves_a_local_variables_type_from_a_position_within_it() {
    let source = "class Main { void run() { Person person = new Person(); person.na } }";
    let tree = parse(source);
    let position = position_of(source, "person.na");

    let resolved = resolve_declared_type_at(&tree, source, position, "person");

    assert_eq!(resolved, Some("Person".to_string()));
}

#[test]
fn resolve_declared_type_at_returns_none_for_an_identifier_not_in_scope() {
    let source = "class Main { void run() { person.na } }";
    let tree = parse(source);
    let position = position_of(source, "person.na");

    assert_eq!(
        resolve_declared_type_at(&tree, source, position, "person"),
        None
    );
}

#[test]
fn member_reference_returns_none_when_the_cursor_is_not_on_an_identifier() {
    let source = "class Main {}";
    let tree = parse(source);

    assert_eq!(
        member_reference_at(&tree, source, Position::new(0, 0)),
        None
    );
}

#[test]
fn simple_type_name_strips_brackets_arguments_and_package() {
    assert_eq!(simple_type_name("java.util.List<String>[]"), "List");
    assert_eq!(simple_type_name(" int [] [] "), "int");
    assert_eq!(simple_type_name("Map<a.B, c.D>"), "Map");
    assert_eq!(simple_type_name("List <String>"), "List");
    assert_eq!(simple_type_name("java . util . List <List<String>> [ ]"), "List");
    assert_eq!(simple_type_name("Outer<a.B>.Inner<C>"), "Inner");
    assert_eq!(simple_type_name("Person"), "Person");
    assert_eq!(simple_type_name(""), "");
}

#[test]
fn the_innermost_scope_wins() {
    let source = "class A { Field v; void m(Param v) { v.one(); { Local v; v.two(); } } void n() { v.three(); } }";
    let tree = parse(source);

    let receiver = |needle: &str| {
        member_reference_at(&tree, source, position_of(source, needle)).map(|r| r.receiver_type)
    };

    assert_eq!(receiver("one"), Some("Param".to_string()));
    assert_eq!(receiver("two"), Some("Local".to_string()));
    assert_eq!(receiver("three"), Some("Field".to_string()));
}
