use java_lsp::class_stub::{
    decode_field_type, decode_method_descriptor, is_valid_simple_name, package_and_simple_name,
    render_stub,
};
use java_lsp::classfile::{
    ClassFile, Member, ACC_BRIDGE, ACC_ENUM, ACC_INTERFACE, ACC_PROTECTED, ACC_PUBLIC, ACC_STATIC,
};
use java_lsp::protocol::Uri;
use java_lsp::symbol::{extract_symbols, SymbolInfo, SymbolKind};
use java_lsp::syntax::SyntaxTree;

fn member(name: &str, descriptor: &str, access_flags: u16) -> Member {
    Member {
        name: name.to_string(),
        descriptor: descriptor.to_string(),
        access_flags,
    }
}

fn class(name: &str, fields: Vec<Member>, methods: Vec<Member>) -> ClassFile {
    ClassFile {
        access_flags: 0x0021,
        this_class: name.to_string(),
        super_class: Some("java/lang/Object".to_string()),
        interfaces: Vec::new(),
        fields,
        methods,
    }
}

fn simple() -> ClassFile {
    class(
        "Simple",
        vec![
            member("count", "I", ACC_PUBLIC),
            member("name", "Ljava/lang/String;", 0x0002),
        ],
        vec![
            member("<init>", "()V", ACC_PUBLIC),
            member("getCount", "()I", ACC_PUBLIC),
            member("setName", "(Ljava/lang/String;)V", ACC_PUBLIC),
        ],
    )
}

fn extract(rendered: &str) -> Vec<SymbolInfo> {
    let syntax = SyntaxTree::parse(rendered);
    assert!(
        !syntax.tree().root_node().has_error(),
        "rendered stub had a syntax error:\n{rendered}"
    );
    let uri = Uri::new("file:///Stub.java");
    extract_symbols(&uri, syntax.source(), syntax.tree())
}

fn names_of(symbols: &[SymbolInfo], kind: SymbolKind) -> Vec<&str> {
    symbols
        .iter()
        .filter(|s| s.kind == kind)
        .map(|s| s.name.as_str())
        .collect()
}

#[test]
fn decode_field_type_handles_primitives_objects_and_arrays() {
    assert_eq!(decode_field_type("I"), "int");
    assert_eq!(decode_field_type("Z"), "boolean");
    assert_eq!(decode_field_type("Ljava/util/List;"), "java.util.List");
    assert_eq!(decode_field_type("[I"), "int[]");
    assert_eq!(
        decode_field_type("[[Ljava/lang/String;"),
        "java.lang.String[][]"
    );
}

#[test]
fn decode_field_type_names_every_primitive() {
    let decoded: Vec<String> = ["B", "C", "D", "F", "J", "S"]
        .iter()
        .map(|d| decode_field_type(d))
        .collect();
    assert_eq!(
        decoded,
        vec!["byte", "char", "double", "float", "long", "short"]
    );
}

#[test]
fn decode_field_type_falls_back_to_object() {
    assert_eq!(decode_field_type(""), "java.lang.Object");
    assert_eq!(decode_field_type("[["), "java.lang.Object");
    assert_eq!(decode_field_type("V"), "java.lang.Object");
    assert_eq!(decode_field_type("Ljava/util/List"), "java.util.List");
}

#[test]
fn decode_method_descriptor_reads_parameters_and_return_type() {
    let signature = decode_method_descriptor("(Ljava/lang/String;I)Z");

    assert_eq!(
        signature.parameter_types,
        vec!["java.lang.String".to_string(), "int".to_string()]
    );
    assert_eq!(signature.return_type, "boolean");
}

#[test]
fn decode_method_descriptor_handles_no_arguments_and_void_return() {
    let signature = decode_method_descriptor("()V");

    assert!(signature.parameter_types.is_empty());
    assert_eq!(signature.return_type, "void");
}

#[test]
fn decode_method_descriptor_falls_back_for_what_is_no_descriptor() {
    let signature = decode_method_descriptor("I");

    assert!(signature.parameter_types.is_empty());
    assert_eq!(signature.return_type, "java.lang.Object");

    let partial = decode_method_descriptor("(IQJ)[J");
    assert_eq!(partial.parameter_types, vec!["int".to_string()]);
    assert_eq!(partial.return_type, "long[]");
}

#[test]
fn package_and_simple_name_splits_a_top_level_binary_name() {
    assert_eq!(
        package_and_simple_name("java/util/List"),
        (Some("java.util".to_string()), "List".to_string())
    );
}

#[test]
fn package_and_simple_name_handles_a_type_with_no_package() {
    assert_eq!(package_and_simple_name("Main"), (None, "Main".to_string()));
}

#[test]
fn package_and_simple_name_strips_the_outer_class_prefix_of_a_nested_type() {
    assert_eq!(
        package_and_simple_name("java/util/Map$Entry"),
        (Some("java.util".to_string()), "Entry".to_string())
    );
}

#[test]
fn is_valid_simple_name_rejects_anonymous_class_names() {
    assert!(is_valid_simple_name("Entry"));
    assert!(!is_valid_simple_name("1"));
    assert!(!is_valid_simple_name(""));
}

#[test]
fn is_valid_simple_name_accepts_letters_beyond_ascii() {
    assert!(is_valid_simple_name("Größe"));
    assert!(is_valid_simple_name("_x$1"));
    assert!(!is_valid_simple_name("a-b"));
    assert!(!is_valid_simple_name("a b"));
}

#[test]
fn render_stub_of_a_class_round_trips_through_extract_symbols() {
    let rendered = render_stub(&simple());
    let symbols = extract(&rendered);

    assert_eq!(names_of(&symbols, SymbolKind::Class), vec!["Simple"]);
    // `name` is a private field: excluded from the stub entirely.
    assert_eq!(names_of(&symbols, SymbolKind::Field), vec!["count"]);
    let mut methods = names_of(&symbols, SymbolKind::Method);
    methods.sort_unstable();
    assert_eq!(methods, vec!["getCount", "setName"]);
    assert_eq!(names_of(&symbols, SymbolKind::Constructor), vec!["Simple"]);
}

#[test]
fn render_stub_writes_a_class_in_full() {
    let mut described = simple();
    described.this_class = "com/example/Outer$Simple".to_string();
    described.super_class = Some("com/example/Base".to_string());
    described.interfaces = vec!["java/lang/Runnable".to_string(), "A".to_string()];
    described.methods.push(member(
        "of",
        "([IJ)Lcom/example/Base;",
        ACC_PROTECTED | ACC_STATIC,
    ));
    described
        .methods
        .push(member("bridged", "()V", ACC_PUBLIC | ACC_BRIDGE));

    assert_eq!(
        render_stub(&described),
        "package com.example;\n\n\
         public class Simple extends com.example.Base implements java.lang.Runnable, A {\n\
         \x20   public int count;\n\
         \x20   public Simple() {}\n\
         \x20   public int getCount() {}\n\
         \x20   public void setName(java.lang.String p0) {}\n\
         \x20   protected static com.example.Base of(int[] p0, long p1) {}\n\
         }\n"
    );
}

#[test]
fn render_stub_of_an_interface_round_trips_through_extract_symbols() {
    let mut greetable = class(
        "Greetable",
        vec![],
        vec![member("greet", "()Ljava/lang/String;", ACC_PUBLIC | 0x0400)],
    );
    greetable.access_flags = ACC_PUBLIC | ACC_INTERFACE | 0x0400;

    let rendered = render_stub(&greetable);
    let symbols = extract(&rendered);

    assert_eq!(names_of(&symbols, SymbolKind::Interface), vec!["Greetable"]);
    assert_eq!(names_of(&symbols, SymbolKind::Method), vec!["greet"]);
}

#[test]
fn render_stub_of_an_implementing_class_declares_implements_clause() {
    let mut implementing = class("Impl", vec![], vec![member("<init>", "()V", ACC_PUBLIC)]);
    implementing.interfaces = vec!["Greetable".to_string()];

    let rendered = render_stub(&implementing);
    assert!(rendered.contains("implements Greetable"));
    let symbols = extract(&rendered);

    assert_eq!(names_of(&symbols, SymbolKind::Class), vec!["Impl"]);
}

#[test]
fn render_stub_excludes_a_package_private_field_and_the_class_initializer() {
    let with_static = class(
        "WithStatic",
        vec![member("hidden", "I", ACC_STATIC)],
        vec![member("<init>", "()V", ACC_PUBLIC)],
    );

    let rendered = render_stub(&with_static);
    let symbols = extract(&rendered);

    assert!(
        symbols.iter().all(|s| s.kind != SymbolKind::Field),
        "package-private field should not appear in the stub: {rendered}"
    );
    assert_eq!(
        names_of(&symbols, SymbolKind::Constructor),
        vec!["WithStatic"]
    );
}

#[test]
fn render_stub_of_an_enum_omits_extends_and_field_declarations() {
    let color = ClassFile {
        access_flags: ACC_PUBLIC | ACC_ENUM,
        this_class: "Color".to_string(),
        super_class: Some("java/lang/Enum".to_string()),
        interfaces: Vec::new(),
        fields: vec![member("RED", "LColor;", ACC_PUBLIC | ACC_STATIC)],
        methods: vec![member("values", "()[LColor;", ACC_PUBLIC | ACC_STATIC)],
    };

    let rendered = render_stub(&color);
    assert!(!rendered.contains("extends"));
    assert!(!rendered.contains("RED"));
    let symbols = extract(&rendered);

    assert_eq!(names_of(&symbols, SymbolKind::Enum), vec!["Color"]);
    assert_eq!(names_of(&symbols, SymbolKind::Method), vec!["values"]);
}

#[test]
fn render_stub_keeps_a_volatile_field_and_leaves_out_a_bridge_method() {
    let flag = class(
        "Flag",
        vec![
            member("on", "Z", 0x0041),
            member("made", "Z", ACC_PUBLIC | 0x1000),
        ],
        vec![member("get", "()Z", ACC_PUBLIC | ACC_BRIDGE)],
    );

    assert_eq!(
        render_stub(&flag),
        "public class Flag {\n    public boolean on;\n}\n"
    );
}
