use java_lsp::classfile::{parse, ClassFile, Member};
use java_lsp::external_index::{
    default_cache_root, index_classpath_entry, is_class_file, is_jdk_internal_class,
    must_write_stub, reindex_class_file_with_overrides, stub_for_class, stub_for_class_bytes, Stub,
};
use java_lsp::jar::{class_entries, names_class, take_entry, JarEntry};
use java_lsp::lombok::Overrides;
use java_lsp::protocol::{Position, Range, Uri};
use java_lsp::symbol::{SymbolInfo, SymbolKind};
use java_lsp::workspace_index::WorkspaceIndex;
use java_lsp::workspace_scan::index_source_file;
use std::io::{Cursor, Write};
use zip::write::{SimpleFileOptions, ZipWriter};

fn push_utf8(bytes: &mut Vec<u8>, value: &str) {
    bytes.push(1); // tag: Utf8
    bytes.extend_from_slice(&(value.len() as u16).to_be_bytes());
    bytes.extend_from_slice(value.as_bytes());
}

fn push_class(bytes: &mut Vec<u8>, name_index: u16) {
    bytes.push(7); // tag: Class
    bytes.extend_from_slice(&name_index.to_be_bytes());
}

fn minimal_classfile_bytes(class_name: &str) -> Vec<u8> {
    let mut bytes = Vec::new();
    bytes.extend_from_slice(&0xCAFE_BABEu32.to_be_bytes());
    bytes.extend_from_slice(&[0, 0]); // minor_version
    bytes.extend_from_slice(&[0, 65]); // major_version

    // Constant pool: #1 Utf8 class_name, #2 Class -> #1,
    // #3 Utf8 "java/lang/Object", #4 Class -> #3.
    bytes.extend_from_slice(&[0, 5]); // constant_pool_count = 5 (4 real entries)
    push_utf8(&mut bytes, class_name);
    push_class(&mut bytes, 1);
    push_utf8(&mut bytes, "java/lang/Object");
    push_class(&mut bytes, 3);

    bytes.extend_from_slice(&[0, 0x21]); // access_flags: ACC_PUBLIC | ACC_SUPER
    bytes.extend_from_slice(&[0, 2]); // this_class -> #2
    bytes.extend_from_slice(&[0, 4]); // super_class -> #4
    bytes.extend_from_slice(&[0, 0]); // interfaces_count
    bytes.extend_from_slice(&[0, 0]); // fields_count
    bytes.extend_from_slice(&[0, 0]); // methods_count
    bytes.extend_from_slice(&[0, 0]); // attributes_count
    bytes
}

/// A class with one interface and one public field.
fn classfile_bytes(class_name: &str, interface: &str, field: &str, descriptor: &str) -> Vec<u8> {
    let mut bytes = Vec::new();
    bytes.extend_from_slice(&0xCAFE_BABEu32.to_be_bytes());
    bytes.extend_from_slice(&[0, 0]); // minor_version
    bytes.extend_from_slice(&[0, 65]); // major_version

    bytes.extend_from_slice(&[0, 9]); // constant_pool_count = 9 (8 real entries)
    push_utf8(&mut bytes, class_name); // #1
    push_class(&mut bytes, 1); // #2
    push_utf8(&mut bytes, "java/lang/Object"); // #3
    push_class(&mut bytes, 3); // #4
    push_utf8(&mut bytes, interface); // #5
    push_class(&mut bytes, 5); // #6
    push_utf8(&mut bytes, field); // #7
    push_utf8(&mut bytes, descriptor); // #8

    bytes.extend_from_slice(&[0, 0x21]); // access_flags: ACC_PUBLIC | ACC_SUPER
    bytes.extend_from_slice(&[0, 2]); // this_class -> #2
    bytes.extend_from_slice(&[0, 4]); // super_class -> #4
    bytes.extend_from_slice(&[0, 1, 0, 6]); // interfaces: #6
    bytes.extend_from_slice(&[0, 1]); // fields_count
    bytes.extend_from_slice(&[0, 1, 0, 7, 0, 8, 0, 0]); // ACC_PUBLIC, #7, #8, no attributes
    bytes.extend_from_slice(&[0, 0]); // methods_count
    bytes.extend_from_slice(&[0, 0]); // attributes_count
    bytes
}

/// A jar with `Simple`, which has a field, and `sub/Impl`, which implements
/// `Greetable`.
fn jar_with_members() -> Vec<u8> {
    let mut writer = ZipWriter::new(Cursor::new(Vec::new()));
    let options = SimpleFileOptions::default();
    for (name, class) in [
        (
            "Simple.class",
            classfile_bytes("Simple", "java/io/Serializable", "count", "I"),
        ),
        ("Greetable.class", minimal_classfile_bytes("Greetable")),
        (
            "sub/Impl.class",
            classfile_bytes("sub/Impl", "Greetable", "name", "Ljava/lang/String;"),
        ),
    ] {
        writer.start_file(name, options).unwrap();
        writer.write_all(&class).unwrap();
    }
    writer.finish().unwrap().into_inner()
}

fn stub_text(stubs: &[Stub], path: &str) -> String {
    stubs
        .iter()
        .find(|stub| stub.path == path)
        .unwrap()
        .text
        .clone()
}

fn sample_jar() -> Vec<u8> {
    let mut writer = ZipWriter::new(Cursor::new(Vec::new()));
    let options = SimpleFileOptions::default();
    for name in [
        "Simple.class",
        "Greetable.class",
        "sub/Impl.class",
        "module-info.class",
        "META-INF/MANIFEST.MF",
        "odd.class/readme",
    ] {
        writer.start_file(name, options).unwrap();
        let class_name = name.trim_end_matches(".class");
        writer
            .write_all(&minimal_classfile_bytes(class_name))
            .unwrap();
    }
    writer.add_directory("dir.class", options).unwrap();
    writer.finish().unwrap().into_inner()
}

#[test]
fn reads_class_entries_and_skips_directories_and_module_info() {
    let entries = class_entries("sample.jar", sample_jar()).unwrap();

    let names: Vec<&str> = entries.iter().map(|(name, _)| name.as_str()).collect();
    assert_eq!(
        names,
        vec!["Simple.class", "Greetable.class", "sub/Impl.class"]
    );
    assert!(!names.contains(&"module-info.class"));
    assert!(!names.iter().any(|name| name.ends_with('/')));
}

#[test]
fn entry_bytes_round_trip_through_the_classfile_parser() {
    let entries = class_entries("sample.jar", sample_jar()).unwrap();

    let (_, bytes) = entries
        .iter()
        .find(|(name, _)| name == "Simple.class")
        .unwrap();
    let class = parse(bytes).unwrap();

    assert_eq!(class.this_class, "Simple");
}

#[test]
fn bytes_that_are_no_jar_are_an_error() {
    let error = class_entries("x.jar", b"not a zip".to_vec()).unwrap_err();

    assert_eq!(error.jar, "x.jar");
    assert_eq!(error.entry, None);
    assert_eq!(error.message(), format!("\"x.jar\": {}", error.cause));
}

#[test]
fn a_class_whose_bytes_are_damaged_is_an_error() {
    let mut bytes = sample_jar();
    let at = bytes
        .windows(4)
        .position(|w| w == [0xCA, 0xFE, 0xBA, 0xBE])
        .unwrap_or(45);
    bytes[at + 4] ^= 0xFF;

    let error = class_entries("x.jar", bytes).unwrap_err();

    assert_eq!(error.entry.as_deref(), Some("Simple.class"));
    assert_eq!(
        error.message(),
        format!("\"x.jar\": Simple.class: {}", error.cause)
    );
}

#[test]
fn only_files_that_end_in_class_are_classes() {
    assert!(names_class("a/B.class", false));
    assert!(!names_class("a/B.class", true));
    assert!(!names_class("module-info.class", false));
    assert!(names_class("a/module-info.class", false));
    assert!(!names_class("class", false));
    assert!(!names_class("B.classy", false));
}

#[test]
fn the_cache_lies_where_the_environment_says() {
    assert_eq!(
        default_cache_root(Some("/xdg"), Some("/home/t"), "/tmp"),
        "/xdg/java-lsp"
    );
    assert_eq!(
        default_cache_root(None, Some("/home/t"), "/tmp"),
        "/home/t/.cache/java-lsp"
    );
    assert_eq!(default_cache_root(None, None, "/tmp"), "/tmp/java-lsp-cache");
}

#[test]
fn classfiles_are_known_by_their_names() {
    assert!(is_class_file("/x/A.class"));
    assert!(!is_class_file("/x/module-info.class"));
    assert!(!is_class_file("/x/A.java"));
    assert!(!is_class_file("/x/.class"));
}

#[test]
fn skips_jdk_internal_and_sun_packages() {
    assert!(is_jdk_internal_class("jdk/internal/Foo"));
    assert!(is_jdk_internal_class("sun/misc/Bar"));
    assert!(!is_jdk_internal_class("sunny/Day"));
    for name in ["jdk/internal/Foo", "sun/misc/Bar", "a/Outer$1"] {
        assert_eq!(
            stub_for_class_bytes(&minimal_classfile_bytes(name), "/cache"),
            None
        );
    }
    assert_eq!(stub_for_class_bytes(b"garbage", "/cache"), None);
}

#[test]
fn a_class_has_its_stub_under_its_binary_name() {
    assert_eq!(
        stub_for_class_bytes(&minimal_classfile_bytes("a/b/Outer$Inner"), "/cache"),
        Some(Stub {
            path: "/cache/stubs/a/b/Outer$Inner.java".to_string(),
            text: "package a.b;\n\npublic class Inner {\n}\n".to_string(),
        })
    );
}

#[test]
fn a_cached_stub_is_reused_unless_it_may_be_stale() {
    assert!(must_write_stub(false, false));
    assert!(must_write_stub(false, true));
    assert!(must_write_stub(true, true));
    assert!(!must_write_stub(true, false));
}

#[test]
fn index_classpath_entry_indexes_every_class_in_a_real_jar() {
    let mut index = WorkspaceIndex::new();

    for stub in index_classpath_entry("sample.jar", sample_jar(), "/cache") {
        index_source_file(&stub.path, &stub.text)
            .unwrap()
            .apply(&mut index);
    }

    assert!(!index.lookup("Simple").is_empty());
    assert!(!index.lookup("Greetable").is_empty());
    assert!(!index.lookup("Impl").is_empty());
    assert!(index_classpath_entry("x.jar", b"no jar".to_vec(), "/cache").is_empty());

    let stubs = index_classpath_entry("sample.jar", jar_with_members(), "/cache");
    assert!(stub_text(&stubs, "/cache/stubs/sub/Impl.java").contains("implements Greetable"));
}

#[test]
fn index_classpath_entry_produces_a_real_openable_file_with_real_content() {
    let stubs = index_classpath_entry("sample.jar", jar_with_members(), "/cache");

    let source = stub_text(&stubs, "/cache/stubs/Simple.java");
    assert!(source.contains("class Simple"));
    assert!(source.contains("int count"));
    assert_eq!(
        source,
        "public class Simple implements java.io.Serializable {\n    public int count;\n}\n"
    );
    assert_eq!(
        stub_text(&stubs, "/cache/stubs/sub/Impl.java"),
        "package sub;\n\npublic class Impl implements Greetable {\n    public java.lang.String name;\n}\n"
    );
}

#[test]
fn reindex_class_file_with_overrides_excludes_and_redirects_by_name() {
    let mut index = WorkspaceIndex::new();
    let method = |name: &str, descriptor: &str| Member {
        name: name.to_string(),
        descriptor: descriptor.to_string(),
        access_flags: 1,
    };
    let class = ClassFile {
        access_flags: 0x0021,
        this_class: "Simple".to_string(),
        super_class: Some("java/lang/Object".to_string()),
        interfaces: Vec::new(),
        fields: Vec::new(),
        methods: vec![
            method("<init>", "()V"),
            method("getCount", "()I"),
            method("setName", "(Ljava/lang/String;)V"),
        ],
    };

    let redirect_uri = Uri::new("file:///Elsewhere.java");
    let redirect_range = Range::new(Position::new(2, 0), Position::new(2, 1));
    let mut overrides = Overrides::new();
    overrides.insert("getCount".to_string(), None);
    overrides.insert(
        "setName".to_string(),
        Some(SymbolInfo {
            name: "setName".to_string(),
            kind: SymbolKind::Method,
            uri: redirect_uri.clone(),
            range: redirect_range,
            selection_range: redirect_range,
            owner: None,
        }),
    );

    let reindexed = reindex_class_file_with_overrides(&class, "/cache", &overrides).unwrap();
    assert_eq!(Some(&reindexed.stub), stub_for_class(&class, "/cache").as_ref());
    reindexed.update.unwrap().apply(&mut index);

    assert!(index.lookup("getCount").is_empty());
    let redirected = index.lookup("setName");
    assert_eq!(redirected.len(), 1);
    assert_eq!(redirected[0].uri, redirect_uri);
    assert_eq!(redirected[0].range, redirect_range);
    assert_eq!(index.lookup("Simple").len(), 2);
}

#[test]
fn an_entry_is_a_class_or_left_out_or_an_error() {
    let opened = |name: &str, is_dir: bool, content: Result<Vec<u8>, String>| JarEntry::Opened {
        name: name.to_string(),
        is_dir,
        content,
    };
    let damaged = || Err("damaged".to_string());
    let mut list = Vec::new();

    assert!(take_entry("a.jar", &mut list, opened("p/A.class", false, Ok(vec![1, 2]))).is_ok());
    assert!(take_entry("a.jar", &mut list, opened("p/A.class", true, damaged())).is_ok());
    assert!(take_entry("a.jar", &mut list, opened("notes.txt", false, damaged())).is_ok());
    assert!(take_entry("a.jar", &mut list, opened("module-info.class", false, damaged())).is_ok());
    let expected = vec![("p/A.class".to_string(), vec![1, 2])];
    assert_eq!(list, expected);

    let error = take_entry("a.jar", &mut list, opened("B.class", false, damaged())).unwrap_err();
    assert_eq!(error.message(), "\"a.jar\": B.class: damaged");
    let unopened = JarEntry::Unopened("encrypted".to_string());
    let error = take_entry("a.jar", &mut list, unopened).unwrap_err();
    assert_eq!(error.message(), "\"a.jar\": encrypted");
    assert_eq!(list, expected);
}
