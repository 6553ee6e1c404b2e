use java_lsp::classfile::{
    decode_modified_utf8, parse, ClassFileError, ACC_ABSTRACT, ACC_INTERFACE, ACC_PUBLIC, MAGIC,
};

fn push_utf8(bytes: &mut Vec<u8>, value: &str) {
    bytes.push(1); // tag: Utf8
    bytes.extend_from_slice(&(value.len() as u16).to_be_bytes());
    bytes.extend_from_slice(value.as_bytes());
}

fn push_class(bytes: &mut Vec<u8>, name_index: u16) {
    bytes.push(7); // tag: Class
    bytes.extend_from_slice(&name_index.to_be_bytes());
}

struct Built {
    pool: Vec<u8>,
    slots: u16,
}

impl Built {
    fn utf8(&mut self, value: &str) -> u16 {
        push_utf8(&mut self.pool, value);
        self.slots += 1;
        self.slots
    }

    fn class(&mut self, name: &str) -> u16 {
        let name_index = self.utf8(name);
        push_class(&mut self.pool, name_index);
        self.slots += 1;
        self.slots
    }
}

/// A classfile with the given flags, names, and members (flags, name,
/// descriptor).
fn class_bytes(
    access_flags: u16,
    this_class: &str,
    super_class: Option<&str>,
    interfaces: &[&str],
    fields: &[(u16, &str, &str)],
    methods: &[(u16, &str, &str)],
) -> Vec<u8> {
    let mut built = Built {
        pool: Vec::new(),
        slots: 0,
    };
    let this_index = built.class(this_class);
    let super_index = match super_class {
        Some(name) => built.class(name),
        None => 0,
    };
    let mut body: Vec<u8> = Vec::new();
    body.extend_from_slice(&access_flags.to_be_bytes());
    body.extend_from_slice(&this_index.to_be_bytes());
    body.extend_from_slice(&super_index.to_be_bytes());
    body.extend_from_slice(&(interfaces.len() as u16).to_be_bytes());
    for name in interfaces {
        let index = built.class(name);
        body.extend_from_slice(&index.to_be_bytes());
    }
    for list in [fields, methods] {
        body.extend_from_slice(&(list.len() as u16).to_be_bytes());
        for (flags, name, descriptor) in list {
            let name_index = built.utf8(name);
            let descriptor_index = built.utf8(descriptor);
            body.extend_from_slice(&flags.to_be_bytes());
            body.extend_from_slice(&name_index.to_be_bytes());
            body.extend_from_slice(&descriptor_index.to_be_bytes());
            body.extend_from_slice(&[0, 0]); // attributes_count
        }
    }
    body.extend_from_slice(&[0, 0]); // attributes_count

    let mut bytes: Vec<u8> = Vec::new();
    bytes.extend_from_slice(&MAGIC.to_be_bytes());
    bytes.extend_from_slice(&[0, 0, 0, 65]);
    bytes.extend_from_slice(&(built.slots + 1).to_be_bytes());
    bytes.extend_from_slice(&built.pool);
    bytes.extend_from_slice(&body);
    bytes
}

fn simple() -> Vec<u8> {
    class_bytes(
        0x0021,
        "Simple",
        Some("java/lang/Object"),
        &[],
        &[(ACC_PUBLIC, "count", "I"), (0x0002, "name", "Ljava/lang/String;")],
        &[
            (ACC_PUBLIC, "<init>", "()V"),
            (ACC_PUBLIC, "getCount", "()I"),
            (ACC_PUBLIC, "setName", "(Ljava/lang/String;)V"),
        ],
    )
}

#[test]
fn parses_this_class_and_super_class_from_a_real_classfile() {
    let class = parse(&simple()).unwrap();

    assert_eq!(class.this_class, "Simple");
    assert_eq!(class.super_class, Some("java/lang/Object".to_string()));
}

#[test]
fn parses_interfaces_from_a_real_classfile() {
    let class = parse(&class_bytes(
        0x0021,
        "Impl",
        Some("java/lang/Object"),
        &["Greetable"],
        &[],
        &[],
    ))
    .unwrap();

    assert_eq!(class.interfaces, vec!["Greetable".to_string()]);
}

#[test]
fn parses_an_interface_declaration_with_access_flags() {
    let class = parse(&class_bytes(
        ACC_PUBLIC | ACC_INTERFACE | ACC_ABSTRACT,
        "Greetable",
        Some("java/lang/Object"),
        &[],
        &[],
        &[(ACC_PUBLIC | ACC_ABSTRACT, "greet", "()Ljava/lang/String;")],
    ))
    .unwrap();

    assert!(class.is_interface());
    assert!(!class.is_enum());
    assert!(!class.is_annotation());
    assert_eq!(class.access_flags & ACC_ABSTRACT, ACC_ABSTRACT);
    assert_eq!(class.methods.len(), 1);
    assert_eq!(class.methods[0].name, "greet");
    assert_eq!(class.methods[0].descriptor, "()Ljava/lang/String;");
}

#[test]
fn parses_fields_with_descriptor_and_access_flags() {
    let class = parse(&simple()).unwrap();

    assert_eq!(class.fields.len(), 2);
    let count = class.fields.iter().find(|f| f.name == "count").unwrap();
    assert_eq!(count.descriptor, "I");
    assert_eq!(count.access_flags & ACC_PUBLIC, ACC_PUBLIC);

    let name = class.fields.iter().find(|f| f.name == "name").unwrap();
    assert_eq!(name.descriptor, "Ljava/lang/String;");
    assert_eq!(name.access_flags & ACC_PUBLIC, 0);
}

#[test]
fn parses_methods_including_the_constructor() {
    let class = parse(&simple()).unwrap();

    let names: Vec<&str> = class.methods.iter().map(|m| m.name.as_str()).collect();
    assert_eq!(names, vec!["<init>", "getCount", "setName"]);
}

#[test]
fn excludes_the_static_initializer_from_methods() {
    let class = parse(&class_bytes(
        0x0021,
        "WithStatic",
        Some("java/lang/Object"),
        &[],
        &[],
        &[(0, "<init>", "()V"), (8, "<clinit>", "()V")],
    ))
    .unwrap();

    let names: Vec<&str> = class.methods.iter().map(|m| m.name.as_str()).collect();
    assert_eq!(names, vec!["<init>"]);
    assert!(!names.contains(&"<clinit>"));
}

#[test]
fn parse_returns_err_on_invalid_magic() {
    let result = parse(&[0, 0, 0, 0, 0, 0, 0, 0]);

    assert_eq!(result, Err(ClassFileError::InvalidMagic));
}

#[test]
fn parse_returns_err_instead_of_panicking_on_truncated_input() {
    let full = simple();

    for len in [0, 1, 4, 8, 10, 20, full.len() / 2] {
        let result = parse(&full[..len]);
        assert!(result.is_err(), "expected an error for truncated len {len}");
    }
}

#[test]
fn parse_returns_err_at_every_cut_and_ignores_trailing_bytes() {
    let full = simple();
    for len in 0..full.len() {
        assert_eq!(parse(&full[..len]), Err(ClassFileError::UnexpectedEof));
    }

    let mut longer = full.clone();
    longer.extend_from_slice(&[1, 2, 3]);
    assert_eq!(parse(&longer), parse(&full));
}

#[test]
fn parse_reports_an_unknown_constant_tag() {
    let mut bytes: Vec<u8> = Vec::new();
    bytes.extend_from_slice(&MAGIC.to_be_bytes());
    bytes.extend_from_slice(&[0, 0, 0, 65, 0, 2, 99]);

    assert_eq!(
        parse(&bytes),
        Err(ClassFileError::InvalidConstantPoolTag(99))
    );
}

#[test]
fn parse_reports_an_index_that_is_no_class() {
    let mut bytes: Vec<u8> = Vec::new();
    bytes.extend_from_slice(&MAGIC.to_be_bytes());
    bytes.extend_from_slice(&[0, 0, 0, 65, 0, 1]); // an empty pool
    bytes.extend_from_slice(&[0, 0, 0, 7]); // access_flags, this_class -> #7

    assert_eq!(parse(&bytes), Err(ClassFileError::InvalidConstantPoolIndex));
}

#[test]
fn parse_reports_a_name_that_is_not_modified_utf8() {
    let mut bytes: Vec<u8> = Vec::new();
    bytes.extend_from_slice(&MAGIC.to_be_bytes());
    bytes.extend_from_slice(&[0, 0, 0, 65, 0, 2, 1, 0, 1, 0xFF]);

    assert_eq!(parse(&bytes), Err(ClassFileError::InvalidModifiedUtf8));
}

#[test]
fn parse_counts_two_slots_for_long_and_double_constants() {
    let mut bytes: Vec<u8> = Vec::new();
    bytes.extend_from_slice(&MAGIC.to_be_bytes());
    bytes.extend_from_slice(&[0, 0, 0, 65]);
    bytes.extend_from_slice(&[0, 7]); // slots 1 to 6
    bytes.push(5); // Long: slots 1 and 2
    bytes.extend_from_slice(&[0; 8]);
    bytes.push(6); // Double: slots 3 and 4
    bytes.extend_from_slice(&[0; 8]);
    push_utf8(&mut bytes, "Main"); // slot 5
    push_class(&mut bytes, 5); // slot 6
    bytes.extend_from_slice(&[0, 1, 0, 6, 0, 0]); // flags, this_class, no super_class
    bytes.extend_from_slice(&[0, 0, 0, 0, 0, 0, 0, 0]);

    let class = parse(&bytes).unwrap();

    assert_eq!(class.this_class, "Main");
    assert_eq!(class.super_class, None);
}

#[test]
fn decode_modified_utf8_reads_plain_ascii() {
    assert_eq!(decode_modified_utf8(b"hello").unwrap(), "hello");
}

#[test]
fn decode_modified_utf8_reads_nul_encoded_as_two_bytes() {
    let decoded = decode_modified_utf8(&[0xC0, 0x80]).unwrap();

    assert_eq!(decoded, "\0");
}

#[test]
fn decode_modified_utf8_reads_a_supplementary_character_as_a_surrogate_pair() {
    // U+10000, encoded as a high/low surrogate pair per JVMS 4.4.7,
    // each half individually encoded as a three-byte sequence.
    let bytes = [0xED, 0xA0, 0x80, 0xED, 0xB0, 0x80];

    let decoded = decode_modified_utf8(&bytes).unwrap();

    assert_eq!(decoded.chars().collect::<Vec<_>>(), vec!['\u{10000}']);
}

#[test]
fn decode_modified_utf8_reads_standard_utf8_of_the_basic_plane() {
    let text = "Grüße, 世界 €";
    assert_eq!(decode_modified_utf8(text.as_bytes()).unwrap(), text);
}

#[test]
fn decode_modified_utf8_returns_err_for_an_invalid_leading_byte() {
    assert_eq!(
        decode_modified_utf8(&[0xFF]),
        Err(ClassFileError::InvalidModifiedUtf8)
    );
}

#[test]
fn decode_modified_utf8_returns_err_for_a_truncated_multibyte_sequence() {
    assert_eq!(
        decode_modified_utf8(&[0xC0]),
        Err(ClassFileError::InvalidModifiedUtf8)
    );
}

#[test]
fn decode_modified_utf8_returns_err_for_a_lone_surrogate() {
    assert_eq!(
        decode_modified_utf8(&[0xED, 0xA0, 0x80]),
        Err(ClassFileError::InvalidModifiedUtf8)
    );
    assert_eq!(
        decode_modified_utf8(&[0xED, 0xB0, 0x80]),
        Err(ClassFileError::InvalidModifiedUtf8)
    );
}

/// A hand-built minimal classfile (no fields, no methods, and an oversized
/// bogus attribute between the class-level attribute count and EOF): proves
/// attribute skipping honors `attribute_length` generically, rather than only
/// ever seeing the specific attributes `javac` happens to emit.
#[test]
fn parse_skips_an_attribute_of_arbitrary_length() {
    let mut bytes = Vec::new();
    bytes.extend_from_slice(&MAGIC.to_be_bytes());
    bytes.extend_from_slice(&[0, 0]); // minor_version
    bytes.extend_from_slice(&[0, 65]); // major_version

    // Constant pool: #1 Utf8 "Main", #2 Class -> #1, #3 Utf8 "java/lang/Object", #4 Class -> #3
    bytes.extend_from_slice(&[0, 5]); // constant_pool_count = 5 (4 real entries)
    push_utf8(&mut bytes, "Main");
    push_class(&mut bytes, 1);
    push_utf8(&mut bytes, "java/lang/Object");
    push_class(&mut bytes, 3);

    bytes.extend_from_slice(&[0, 0x21]); // access_flags: ACC_PUBLIC | ACC_SUPER
    bytes.extend_from_slice(&[0, 2]); // this_class -> #2 (Main)
    bytes.extend_from_slice(&[0, 4]); // super_class -> #4 (java/lang/Object)
    bytes.extend_from_slice(&[0, 0]); // interfaces_count
    bytes.extend_from_slice(&[0, 0]); // fields_count
    bytes.extend_from_slice(&[0, 0]); // methods_count

    bytes.extend_from_slice(&[0, 1]); // attributes_count
    bytes.extend_from_slice(&[0, 1]); // attribute_name_index (doesn't need to resolve to anything real)
    let garbage = vec![0xAAu8; 200];
    bytes.extend_from_slice(&(garbage.len() as u32).to_be_bytes());
    bytes.extend_from_slice(&garbage);

    let class = parse(&bytes).unwrap();

    assert_eq!(class.this_class, "Main");
    assert_eq!(class.super_class, Some("java/lang/Object".to_string()));
}
