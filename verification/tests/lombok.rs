use java_lsp::classfile::{ClassFile, Member};
use java_lsp::lombok::{
    content_hash, field_name_for_accessor, source_package, stub_symbol_overrides, uses_lombok,
};
use java_lsp::protocol::{Position, Range, Uri};
use java_lsp::symbol::{SymbolInfo, SymbolKind};
use tree_sitter::{Parser, Tree};

fn parse(source: &str) -> Tree {
    let mut parser = Parser::new();
    parser
        .set_language(&tree_sitter_java::LANGUAGE.into())
        .unwrap();
    parser.parse(source, None).unwrap()
}

#[test]
fn detects_a_single_type_lombok_import() {
    let source = "import lombok.Getter;\nclass Foo {}";
    assert!(uses_lombok(&parse(source), source));
}

#[test]
fn detects_a_wildcard_lombok_import() {
    let source = "import lombok.*;\nclass Foo {}";
    assert!(uses_lombok(&parse(source), source));
}

#[test]
fn detects_a_fully_qualified_lombok_annotation() {
    let source = "@lombok.Getter\nclass Foo {}";
    assert!(uses_lombok(&parse(source), source));
}

#[test]
fn detects_a_fully_qualified_lombok_annotation_with_arguments() {
    let source = "@lombok.Getter(lazy = true)\nclass Foo {}";
    assert!(uses_lombok(&parse(source), source));
}

#[test]
fn returns_false_for_code_with_no_lombok_usage() {
    let source = "import java.util.List;\nclass Foo { List names; }";
    assert!(!uses_lombok(&parse(source), source));
}

#[test]
fn does_not_false_positive_on_a_similarly_named_package() {
    let source = "import com.acme.lombokish.Thing;\nclass Foo {}";
    assert!(!uses_lombok(&parse(source), source));
}

#[test]
fn content_hash_is_stable_for_identical_content() {
    assert_eq!(content_hash("class Foo {}"), content_hash("class Foo {}"));
}

#[test]
fn content_hash_differs_for_different_content() {
    assert_ne!(content_hash("class Foo {}"), content_hash("class Bar {}"));
}

#[test]
fn source_package_extracts_the_declared_package() {
    let source = "package dev.javalsp.testbed;\nclass Foo {}";
    assert_eq!(
        source_package(&parse(source), source),
        Some("dev.javalsp.testbed".to_string())
    );
}

#[test]
fn source_package_returns_none_for_a_default_package_file() {
    let source = "class Foo {}";
    assert_eq!(source_package(&parse(source), source), None);
}

#[test]
fn field_name_for_accessor_handles_get_set_and_is() {
    assert_eq!(field_name_for_accessor("getName"), Some("name".to_string()));
    assert_eq!(field_name_for_accessor("setName"), Some("name".to_string()));
    assert_eq!(
        field_name_for_accessor("isActive"),
        Some("active".to_string())
    );
}

#[test]
fn field_name_for_accessor_rejects_non_accessor_shapes() {
    assert_eq!(field_name_for_accessor("get"), None);
    assert_eq!(field_name_for_accessor("is"), None);
    assert_eq!(field_name_for_accessor("foo"), None);
    assert_eq!(field_name_for_accessor("getname"), None);
}

fn class_file(this_class: &str, methods: Vec<Member>) -> ClassFile {
    ClassFile {
        access_flags: 0x0001,
        this_class: this_class.to_string(),
        super_class: Some("java/lang/Object".to_string()),
        interfaces: Vec::new(),
        fields: Vec::new(),
        methods,
    }
}

fn member(name: &str) -> Member {
    Member {
        name: name.to_string(),
        descriptor: "()V".to_string(),
        access_flags: 0x0001,
    }
}

fn symbol(name: &str, kind: SymbolKind) -> SymbolInfo {
    symbol_with_owner(name, kind, None)
}

fn symbol_with_owner(name: &str, kind: SymbolKind, owner: Option<&str>) -> SymbolInfo {
    let uri = Uri::new("file:///Person.java");
    let range = Range::new(Position::new(0, 0), Position::new(0, 1));
    SymbolInfo {
        name: name.to_string(),
        kind,
        uri,
        range,
        selection_range: range,
        owner: owner.map(str::to_string),
    }
}

#[test]
fn stub_symbol_overrides_excludes_a_hand_written_method() {
    let class = class_file("Person", vec![member("sayHello")]);
    let original_symbols = vec![symbol("sayHello", SymbolKind::Method)];

    let overrides = stub_symbol_overrides(&class, &original_symbols);

    assert_eq!(overrides.get("sayHello"), Some(&None));
}

#[test]
fn stub_symbol_overrides_excludes_a_hand_written_constructor() {
    let class = class_file("Person", vec![member("<init>")]);
    let original_symbols = vec![symbol("Person", SymbolKind::Constructor)];

    let overrides = stub_symbol_overrides(&class, &original_symbols);

    assert_eq!(overrides.get("Person"), Some(&None));
}

#[test]
fn stub_symbol_overrides_leaves_a_generated_constructor_with_no_hand_written_one_alone() {
    let class = class_file("Person", vec![member("<init>")]);
    let original_symbols: Vec<SymbolInfo> = vec![];

    let overrides = stub_symbol_overrides(&class, &original_symbols);

    assert!(!overrides.contains_key("Person"));
}

#[test]
fn stub_symbol_overrides_redirects_a_generated_accessor_to_its_field() {
    let class = class_file("Person", vec![member("getName")]);
    let field = symbol("name", SymbolKind::Field);
    let original_symbols = vec![field.clone()];

    let overrides = stub_symbol_overrides(&class, &original_symbols);

    let redirected = overrides
        .get("getName")
        .expect("getName should have an override entry")
        .as_ref()
        .expect("getName should redirect, not exclude");
    assert_eq!(redirected.name, "getName");
    assert_eq!(redirected.kind, SymbolKind::Method);
    assert_eq!(redirected.uri, field.uri);
    assert_eq!(redirected.range, field.range);
}

#[test]
fn stub_symbol_overrides_redirected_accessor_keeps_the_fields_owner() {
    let class = class_file("Person", vec![member("getName")]);
    let field = symbol_with_owner("name", SymbolKind::Field, Some("Person"));
    let original_symbols = vec![field];

    let overrides = stub_symbol_overrides(&class, &original_symbols);

    let redirected = overrides
        .get("getName")
        .expect("getName should have an override entry")
        .as_ref()
        .expect("getName should redirect, not exclude");
    assert_eq!(redirected.owner.as_deref(), Some("Person"));
}

#[test]
fn stub_symbol_overrides_redirects_an_accessor_to_its_fields_owner() {
    let class = class_file("Person", vec![member("getName")]);
    let field = symbol_with_owner("name", SymbolKind::Field, Some("Person"));
    let original_symbols = vec![field];

    let overrides = stub_symbol_overrides(&class, &original_symbols);

    let redirected = overrides
        .get("getName")
        .expect("getName should have an override entry")
        .as_ref()
        .expect("getName should redirect, not exclude");
    assert_eq!(redirected.owner.as_deref(), Some("Person"));
}

#[test]
fn stub_symbol_overrides_leaves_a_generated_non_accessor_member_alone() {
    let class = class_file("Person", vec![member("toString")]);
    let original_symbols: Vec<SymbolInfo> = vec![];

    let overrides = stub_symbol_overrides(&class, &original_symbols);

    assert!(!overrides.contains_key("toString"));
}

#[test]
fn stub_symbol_overrides_does_not_redirect_an_accessor_with_no_matching_field() {
    let class = class_file("Person", vec![member("getName")]);
    let original_symbols: Vec<SymbolInfo> = vec![];

    let overrides = stub_symbol_overrides(&class, &original_symbols);

    assert!(!overrides.contains_key("getName"));
}

#[test]
fn uses_lombok_needs_a_qualified_name_on_an_annotation() {
    let source = "@Getter\nclass Foo { @lombok.Setter int x; }";
    assert!(uses_lombok(&parse(source), source));
    let source = "@Getter\nclass Foo {}";
    assert!(!uses_lombok(&parse(source), source));
    let source = "import lombok;\nclass Foo {}";
    assert!(uses_lombok(&parse(source), source));
}

#[test]
fn stub_symbol_overrides_prefers_the_last_field_of_a_name() {
    let class = class_file("Person", vec![member("isActive")]);
    let first = symbol_with_owner("active", SymbolKind::Field, Some("Outer"));
    let second = symbol_with_owner("active", SymbolKind::Field, Some("Person"));

    let overrides = stub_symbol_overrides(&class, &[first, second]);

    let redirected = overrides.get("isActive").unwrap().as_ref().unwrap();
    assert_eq!(redirected.owner.as_deref(), Some("Person"));
}
