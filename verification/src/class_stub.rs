//! Renders a synthetic, decompiled-*skeleton* `.java` source file from a
//! parsed [`ClassFile`]: package + type declaration + visible field/method
//! *signatures*, bodies always `{}`, generics/annotations erased. This lets
//! the ordinary parse-and-extract pipeline produce symbols with a real
//! `file://` URI and real ranges for classfile-derived types, which is what
//! makes go-to-definition work in a real editor: a location needs a real,
//! openable file, not a synthetic scheme a client wouldn't know how to open.

use crate::classfile::{
    ACC_BRIDGE, ACC_ENUM, ACC_INTERFACE, ACC_PROTECTED, ACC_PUBLIC, ACC_STATIC, ACC_SYNTHETIC,
    ClassFile, ClassFileView, Member, MemberView, members,
};
use crate::text::{
    alphabetic, alphanumeric, decimal, find_from, find_last, first_index, from_range,
    is_ascii_digit, join, joined, last_index, lemma_decimal_value, lemma_first_index,
    lemma_is_first_index, lemma_is_last_index, lemma_last_index, lemma_texts_push, opt_text,
    replace_range, replaced, same_text, texts, to_chars, to_decimal,
};
use vstd::prelude::*;
use vstd::string::*;

verus! {

/// A binary name written with dots: `java/util/List` is `java.util.List`.
pub open spec fn dotted(binary_name: Seq<char>) -> Seq<char> {
    replaced(binary_name, '/', '.')
}

/// The dotted package of a binary name: what stands before the last `/`.
pub open spec fn package_of(binary_name: Seq<char>) -> Option<Seq<char>> {
    let slash = last_index(binary_name, '/');
    if slash < 0 {
        None
    } else {
        Some(dotted(binary_name.take(slash)))
    }
}

/// The simple name of a binary name: what stands behind the last `/`, and there
/// behind the last `$`.
pub open spec fn simple_name_of(binary_name: Seq<char>) -> Seq<char> {
    let segment = binary_name.skip(last_index(binary_name, '/') + 1);
    segment.skip(last_index(segment, '$') + 1)
}

/// Splits a binary class name (e.g. `java/util/List` or
/// `java/util/Map$Entry`) into its package (dotted, if any) and simple name.
/// A nested class's simple name is the substring after the last `$`: it gets
/// rendered as its own flat top-level stub.
pub fn package_and_simple_name(binary_name: &str) -> (r: (Option<String>, String))
    ensures
        opt_text(r.0) == package_of(binary_name@),
        r.1@ == simple_name_of(binary_name@),
{
    let chars = to_chars(binary_name);
    let len: usize = chars.len();
    let slash = find_last(&chars, '/');
    let start: usize = match slash {
        Some(index) => index + 1,
        None => 0,
    };
    let package = match slash {
        Some(index) => {
            assert(chars@.subrange(0, index as int) =~= chars@.take(index as int));
            Some(replace_range(&chars, 0, index, '/', '.'))
        },
        None => None,
    };
    let segment = vstd::slice::slice_subrange(chars.as_slice(), start, len);
    assert(segment@ =~= chars@.skip(start as int));
    let from: usize = match find_last(segment, '$') {
        Some(index) => index + 1,
        None => 0,
    };
    let simple_name = from_range(segment, from, segment.len());
    assert(segment@.subrange(from as int, segment@.len() as int) =~= segment@.skip(from as int));
    (package, simple_name)
}

/// Whether a text is a Java identifier: a letter, `_` or `$`, then letters,
/// digits, `_` and `$`.
pub open spec fn is_identifier(name: Seq<char>) -> bool {
    &&& name.len() > 0
    &&& alphabetic(name[0]) || name[0] == '_' || name[0] == '$'
    &&& forall|i: int|
        1 <= i < name.len() ==> alphanumeric(#[trigger] name[i]) || name[i] == '_' || name[i]
            == '$'
}

/// Whether `name` could stand alone as a Java type identifier: false for
/// synthetic/anonymous/local nested class names like `1` (from `Outer$1`),
/// which a caller should skip rather than render into an invalid stub.
pub fn is_valid_simple_name(name: &str) -> (r: bool)
    ensures
        r == is_identifier(name@),
{
    let chars = to_chars(name);
    if chars.len() == 0 {
        return false;
    }
    let first = chars[0];
    if !(first.is_alphabetic() || first == '_' || first == '$') {
        return false;
    }
    let mut i: usize = 1;
    while i < chars.len()
        invariant
            1 <= i <= chars.len(),
            chars@ == name@,
            forall|k: int|
                1 <= k < i ==> alphanumeric(#[trigger] name@[k]) || name@[k] == '_' || name@[k]
                    == '$',
        decreases chars.len() - i,
    {
        let c = chars[i];
        if !(c.is_alphanumeric() || c == '_' || c == '$') {
            return false;
        }
        i += 1;
    }
    true
}

fn binary_name_to_dotted(binary_name: &str) -> (r: String)
    ensures
        r@ == dotted(binary_name@),
{
    let chars = to_chars(binary_name);
    assert(chars@.subrange(0, chars@.len() as int) =~= binary_name@);
    replace_range(&chars, 0, chars.len(), '/', '.')
}

// ---------------------------------------------------------------------------
// Descriptors
// ---------------------------------------------------------------------------

/// The Java name of a primitive type by its descriptor character.
pub open spec fn primitive_name(c: char) -> Option<Seq<char>> {
    match c {
        'B' => Some("byte"@),
        'C' => Some("char"@),
        'D' => Some("double"@),
        'F' => Some("float"@),
        'I' => Some("int"@),
        'J' => Some("long"@),
        'S' => Some("short"@),
        'Z' => Some("boolean"@),
        _ => None,
    }
}

/// The number of `[` that a descriptor starts with.
pub open spec fn array_depth(d: Seq<char>) -> nat
    decreases d.len(),
{
    if d.len() > 0 && d[0] == '[' {
        1 + array_depth(d.skip(1))
    } else {
        0
    }
}

/// `[]` as often as `depth` says.
pub open spec fn brackets(depth: nat) -> Seq<char>
    decreases depth,
{
    if depth == 0 {
        Seq::empty()
    } else {
        brackets((depth - 1) as nat) + "[]"@
    }
}

/// The type that is not an array at the start of a descriptor, as Java source,
/// and the number of characters that it takes. A class name ends at `;` or,
/// where there is none, at the end.
pub open spec fn element_type(d: Seq<char>) -> Option<(Seq<char>, int)> {
    if d.len() == 0 {
        None
    } else if d[0] == 'L' {
        let end = first_index(d, ';');
        Some((dotted(d.subrange(1, end)), if end < d.len() { end + 1 } else { end }))
    } else {
        match primitive_name(d[0]) {
            Some(name) => Some((name, 1)),
            None => None,
        }
    }
}

/// The type at the start of a descriptor, as Java source, and the number of
/// characters that it takes.
pub open spec fn first_type(d: Seq<char>) -> Option<(Seq<char>, int)> {
    let depth = array_depth(d);
    match element_type(d.skip(depth as int)) {
        Some((name, used)) => Some((name + brackets(depth), depth + used)),
        None => None,
    }
}

proof fn lemma_array_depth(d: Seq<char>)
    ensures
        array_depth(d) <= d.len(),
    decreases d.len(),
{
    if d.len() > 0 && d[0] == '[' {
        lemma_array_depth(d.skip(1));
    }
}

pub proof fn lemma_first_type_used(d: Seq<char>)
    ensures
        first_type(d) is Some ==> 0 < (first_type(d)->0).1 <= d.len(),
{
    lemma_array_depth(d);
    lemma_first_index(d.skip(array_depth(d) as int), ';');
}

/// A field-type descriptor as Java source; `java.lang.Object` where it is not
/// in the form of one.
pub open spec fn field_type(d: Seq<char>) -> Seq<char> {
    match first_type(d) {
        Some((name, _)) => name,
        None => "java.lang.Object"@,
    }
}

/// The types that stand one after another, up to the first thing that is none.
pub open spec fn field_types(d: Seq<char>) -> Seq<Seq<char>>
    decreases d.len(),
{
    proof {
        lemma_first_type_used(d);
    }
    if d.len() == 0 {
        Seq::empty()
    } else {
        match first_type(d) {
            Some((name, used)) => seq![name] + field_types(d.skip(used)),
            None => Seq::empty(),
        }
    }
}

/// What a method descriptor says as Java source: the parameter types between
/// `(` and the first `)`, and the type behind the last `)`.
pub open spec fn method_signature(d: Seq<char>) -> (Seq<Seq<char>>, Seq<char>) {
    if d.len() > 0 && d[0] == '(' && first_index(d, ')') < d.len() {
        let ret = d.skip(last_index(d, ')') + 1);
        (
            field_types(d.subrange(1, first_index(d, ')'))),
            if ret == "V"@ {
                "void"@
            } else {
                field_type(ret)
            },
        )
    } else {
        (Seq::empty(), "java.lang.Object"@)
    }
}

fn primitive(c: char) -> (r: Option<String>)
    ensures
        opt_text(r) == primitive_name(c),
{
    match c {
        'B' => Some("byte".to_owned()),
        'C' => Some("char".to_owned()),
        'D' => Some("double".to_owned()),
        'F' => Some("float".to_owned()),
        'I' => Some("int".to_owned()),
        'J' => Some("long".to_owned()),
        'S' => Some("short".to_owned()),
        'Z' => Some("boolean".to_owned()),
        _ => None,
    }
}

/// Decodes the type that stands at `pos`: its Java source and the position
/// behind it.
fn decode_one_field_type(chars: &[char], pos: usize) -> (r: Option<(String, usize)>)
    requires
        pos <= chars@.len(),
    ensures
        match r {
            Some((name, end)) => pos < end <= chars@.len() && first_type(chars@.skip(pos as int))
                == Some((name@, end - pos)),
            None => first_type(chars@.skip(pos as int)) is None,
        },
{
    let ghost d = chars@.skip(pos as int);
    let mut at: usize = pos;
    assert(chars@.skip(at as int) =~= d);
    while at < chars.len() && chars[at] == '['
        invariant
            pos <= at <= chars@.len(),
            array_depth(d) == (at - pos) + array_depth(chars@.skip(at as int)),
        decreases chars@.len() - at,
    {
        assert(chars@.skip(at as int).skip(1) =~= chars@.skip(at + 1));
        assert(chars@.skip(at as int)[0] == chars@[at as int]);
        at += 1;
    }
    let depth: usize = at - pos;
    let ghost element = chars@.skip(at as int);
    proof {
        if at < chars@.len() {
            assert(element[0] == chars@[at as int]);
        }
        assert(array_depth(element) == 0);
        assert(array_depth(d) == depth);
        assert(d.skip(depth as int) =~= element);
    }
    if at >= chars.len() {
        return None;
    }
    let c = chars[at];
    let mut name: String;
    let end: usize;
    if c == 'L' {
        let stop: usize = find_from(chars, at, ';');
        name = replace_range(chars, at + 1, stop, '/', '.');
        end = if stop < chars.len() { stop + 1 } else { stop };
        assert(element.subrange(1, stop - at) =~= chars@.subrange(at + 1, stop as int));
    } else {
        match primitive(c) {
            Some(text) => {
                name = text;
                end = at + 1;
            },
            None => {
                return None;
            },
        }
    }
    let ghost base = name@;
    let mut i: usize = 0;
    assert(base + brackets(0) =~= base);
    while i < depth
        invariant
            i <= depth,
            name@ == base + brackets(i as nat),
        decreases depth - i,
    {
        name.append("[]");
        i += 1;
        assert(name@ =~= base + brackets(i as nat));
    }
    Some((name, end))
}

/// Decodes a single JVM field-type descriptor (JVMS §4.3.2), e.g.
/// `Ljava/lang/String;` -> `java.lang.String`, `[I` -> `int[]`.
pub fn decode_field_type(descriptor: &str) -> (r: String)
    ensures
        r@ == field_type(descriptor@),
{
    let chars = to_chars(descriptor);
    assert(chars@.skip(0) =~= chars@);
    match decode_one_field_type(&chars, 0) {
        Some((name, _)) => name,
        None => "java.lang.Object".to_owned(),
    }
}

fn decode_field_types(chars: &[char]) -> (r: Vec<String>)
    ensures
        texts(r@) == field_types(chars@),
{
    let mut result: Vec<String> = Vec::new();
    let mut pos: usize = 0;
    assert(chars@.skip(0) =~= chars@);
    assert(texts(result@) + field_types(chars@) =~= field_types(chars@));
    while pos < chars.len()
        invariant
            pos <= chars@.len(),
            field_types(chars@) == texts(result@) + field_types(chars@.skip(pos as int)),
        decreases chars@.len() - pos,
    {
        let ghost here = chars@.skip(pos as int);
        let ghost before = texts(result@);
        match decode_one_field_type(chars, pos) {
            Some((name, end)) => {
                proof {
                    lemma_texts_push(result@, name);
                    assert(here.skip(end - pos) =~= chars@.skip(end as int));
                    assert(before + (seq![name@] + field_types(chars@.skip(end as int)))
                        =~= before.push(name@) + field_types(chars@.skip(end as int)));
                }
                result.push(name);
                pos = end;
            },
            None => {
                assert(before + Seq::empty() =~= before);
                return result;
            },
        }
    }
    assert(texts(result@) + Seq::empty() =~= texts(result@));
    result
}

pub struct MethodSignature {
    pub parameter_types: Vec<String>,
    pub return_type: String,
}

/// Decodes a JVM method descriptor (JVMS §4.3.3), e.g. `(Ljava/lang/String;I)Z`.
pub fn decode_method_descriptor(descriptor: &str) -> (r: MethodSignature)
    ensures
        (texts(r.parameter_types@), r.return_type@) == method_signature(descriptor@),
{
    let chars = to_chars(descriptor);
    assert(chars@.skip(0) =~= chars@);
    if chars.len() > 0 && chars[0] == '(' {
        let close: usize = find_from(&chars, 0, ')');
        if close < chars.len() {
            let params = vstd::slice::slice_subrange(chars.as_slice(), 1, close);
            let last: usize = match find_last(&chars, ')') {
                Some(index) => index,
                None => {
                    proof {
                        lemma_last_index(chars@, ')');
                    }
                    close
                },
            };
            let ret = from_range(&chars, last + 1, chars.len());
            assert(ret@ =~= chars@.skip(last + 1));
            let return_type = if same_text(ret.as_str(), "V") {
                "void".to_owned()
            } else {
                decode_field_type(ret.as_str())
            };
            return MethodSignature { parameter_types: decode_field_types(params), return_type };
        }
    }
    let parameter_types: Vec<String> = Vec::new();
    assert(texts(parameter_types@) =~= Seq::empty());
    MethodSignature { parameter_types, return_type: "java.lang.Object".to_owned() }
}

// ---------------------------------------------------------------------------
// Rendering
// ---------------------------------------------------------------------------

/// Whether a field shows in a stub: public or protected, and written by a
/// person rather than made by the compiler.
pub open spec fn field_visible(access_flags: u16) -> bool {
    access_flags & (ACC_PUBLIC | ACC_PROTECTED) != 0 && access_flags & ACC_SYNTHETIC == 0
}

/// Whether a method shows in a stub. What marks a bridge method, which the
/// compiler makes too, says on a field that it is volatile.
pub open spec fn method_visible(access_flags: u16) -> bool {
    field_visible(access_flags) && access_flags & ACC_BRIDGE == 0
}

pub open spec fn visibility(access_flags: u16) -> Seq<char> {
    if access_flags & ACC_PUBLIC != 0 {
        "public"@
    } else {
        "protected"@
    }
}

/// The line that declares a field.
pub open spec fn field_line(field: MemberView) -> Seq<char> {
    "    "@ + visibility(field.access_flags) + " "@ + field_type(field.descriptor) + " "@
        + field.name + ";\n"@
}

/// A parameter: its type and `p` with its number.
pub open spec fn parameter(types: Seq<Seq<char>>, index: int) -> Seq<char> {
    types[index] + " p"@ + decimal(index as nat)
}

/// The parameter list, separated by `, `.
pub open spec fn parameters(types: Seq<Seq<char>>) -> Seq<char> {
    joined(Seq::new(types.len(), |i: int| parameter(types, i)), ", "@)
}

/// The line that declares a method, or a constructor, which has the class's
/// name and no return type.
pub open spec fn method_line(method: MemberView, simple_name: Seq<char>) -> Seq<char> {
    let (types, return_type) = method_signature(method.descriptor);
    if method.name == "<init>"@ {
        "    "@ + visibility(method.access_flags) + " "@ + simple_name + "("@ + parameters(types)
            + ") {}\n"@
    } else {
        "    "@ + visibility(method.access_flags) + " "@ + (if method.access_flags & ACC_STATIC
            != 0 {
            "static "@
        } else {
            ""@
        }) + return_type + " "@ + method.name + "("@ + parameters(types) + ") {}\n"@
    }
}

/// The names of a list, dotted and separated by `, `.
pub open spec fn dotted_list(names: Seq<Seq<char>>) -> Seq<char> {
    joined(names.map_values(|n: Seq<char>| dotted(n)), ", "@)
}

/// A clause that is left out where there are no names for it.
pub open spec fn clause(keyword: Seq<char>, names: Seq<Seq<char>>) -> Seq<char> {
    if names.len() == 0 {
        Seq::empty()
    } else {
        keyword + dotted_list(names)
    }
}

/// What follows the name in a type declaration.
pub open spec fn supertypes(class: ClassFileView) -> Seq<char> {
    if class.access_flags & ACC_INTERFACE != 0 {
        clause(" extends "@, class.interfaces)
    } else if class.access_flags & ACC_ENUM != 0 {
        clause(" implements "@, class.interfaces)
    } else {
        (match class.super_class {
            Some(name) => if dotted(name) == "java.lang.Object"@ {
                Seq::empty()
            } else {
                " extends "@ + dotted(name)
            },
            None => Seq::empty(),
        }) + clause(" implements "@, class.interfaces)
    }
}

/// The lines of the visible fields, in their order.
pub open spec fn field_lines(fields: Seq<MemberView>) -> Seq<char>
    decreases fields.len(),
{
    if fields.len() == 0 {
        Seq::empty()
    } else {
        field_lines(fields.drop_last()) + if field_visible(fields.last().access_flags) {
            field_line(fields.last())
        } else {
            Seq::empty()
        }
    }
}

/// The lines of the visible methods, in their order.
pub open spec fn method_lines(methods: Seq<MemberView>, simple_name: Seq<char>) -> Seq<char>
    decreases methods.len(),
{
    if methods.len() == 0 {
        Seq::empty()
    } else {
        method_lines(methods.drop_last(), simple_name) + if method_visible(methods.last().access_flags) {
            method_line(methods.last(), simple_name)
        } else {
            Seq::empty()
        }
    }
}

/// The stub of a class: its package, its declaration, its visible fields
/// (for an enum, an empty list of constants in their place), and its visible
/// methods.
pub open spec fn stub(class: ClassFileView) -> Seq<char> {
    let simple_name = simple_name_of(class.this_class);
    let is_enum = class.access_flags & ACC_ENUM != 0;
    (match package_of(class.this_class) {
        Some(package) => "package "@ + package + ";\n\n"@,
        None => Seq::empty(),
    }) + "public "@ + (if is_enum {
        "enum"@
    } else if class.access_flags & ACC_INTERFACE != 0 {
        "interface"@
    } else {
        "class"@
    }) + " "@ + simple_name + supertypes(class) + " {\n"@ + (if is_enum {
        "    ;\n"@
    } else {
        field_lines(class.fields)
    }) + method_lines(class.methods, simple_name) + "}\n"@
}

fn is_field_visible(access_flags: u16) -> (r: bool)
    ensures
        r == field_visible(access_flags),
{
    access_flags & (ACC_PUBLIC | ACC_PROTECTED) != 0 && access_flags & ACC_SYNTHETIC == 0
}

fn is_method_visible(access_flags: u16) -> (r: bool)
    ensures
        r == method_visible(access_flags),
{
    is_field_visible(access_flags) && access_flags & ACC_BRIDGE == 0
}

fn visibility_keyword(access_flags: u16) -> (r: &'static str)
    ensures
        r@ == visibility(access_flags),
{
    if access_flags & ACC_PUBLIC != 0 {
        "public"
    } else {
        "protected"
    }
}

fn render_field(out: &mut String, field: &Member)
    ensures
        final(out)@ == old(out)@ + field_line(field@),
{
    let java_type = decode_field_type(field.descriptor.as_str());
    out.append("    ");
    out.append(visibility_keyword(field.access_flags));
    out.append(" ");
    out.append(java_type.as_str());
    out.append(" ");
    out.append(field.name.as_str());
    out.append(";\n");
    assert(out@ =~= old(out)@ + field_line(field@));
}

fn render_parameters(parameter_types: &Vec<String>) -> (r: String)
    ensures
        r@ == parameters(texts(parameter_types@)),
{
    let ghost types = texts(parameter_types@);
    let ghost wanted = Seq::new(types.len(), |i: int| parameter(types, i));
    let mut rendered: Vec<String> = Vec::new();
    let mut i: usize = 0;
    while i < parameter_types.len()
        invariant
            i <= parameter_types.len(),
            types == texts(parameter_types@),
            wanted == Seq::new(types.len(), |i: int| parameter(types, i)),
            texts(rendered@) =~= wanted.take(i as int),
        decreases parameter_types.len() - i,
    {
        let mut text = parameter_types[i].clone();
        text.append(" p");
        text.append(to_decimal(i as u64).as_str());
        proof {
            lemma_texts_push(rendered@, text);
            assert(text@ =~= parameter(types, i as int));
        }
        rendered.push(text);
        i += 1;
    }
    assert(wanted.take(i as int) =~= wanted);
    join(&rendered, ", ")
}

fn render_method(out: &mut String, method: &Member, simple_name: &str)
    ensures
        final(out)@ == old(out)@ + method_line(method@, simple_name@),
{
    let visibility = visibility_keyword(method.access_flags);
    let signature = decode_method_descriptor(method.descriptor.as_str());
    let params = render_parameters(&signature.parameter_types);
    out.append("    ");
    out.append(visibility);
    out.append(" ");
    if same_text(method.name.as_str(), "<init>") {
        out.append(simple_name);
    } else {
        if method.access_flags & ACC_STATIC != 0 {
            out.append("static ");
        } else {
            out.append("");
        }
        out.append(signature.return_type.as_str());
        out.append(" ");
        out.append(method.name.as_str());
    }
    out.append("(");
    out.append(params.as_str());
    out.append(") {}\n");
    assert(out@ =~= old(out)@ + method_line(method@, simple_name@));
}

/// `keyword` and the names, dotted; nothing where there are no names.
fn render_clause(keyword: &str, names: &Vec<String>) -> (r: String)
    ensures
        r@ == clause(keyword@, texts(names@)),
{
    if names.len() == 0 {
        return String::new();
    }
    let ghost wanted = texts(names@).map_values(|n: Seq<char>| dotted(n));
    let mut list: Vec<String> = Vec::new();
    let mut i: usize = 0;
    while i < names.len()
        invariant
            i <= names.len(),
            wanted == texts(names@).map_values(|n: Seq<char>| dotted(n)),
            texts(list@) =~= wanted.take(i as int),
        decreases names.len() - i,
    {
        let name = binary_name_to_dotted(names[i].as_str());
        proof {
            lemma_texts_push(list@, name);
        }
        list.push(name);
        i += 1;
    }
    assert(wanted.take(i as int) =~= wanted);
    let mut out = keyword.to_owned();
    out.append(join(&list, ", ").as_str());
    out
}

fn supertypes_clause(class: &ClassFile) -> (r: String)
    ensures
        r@ == supertypes(class@),
{
    if class.is_interface() {
        render_clause(" extends ", &class.interfaces)
    } else if class.is_enum() {
        render_clause(" implements ", &class.interfaces)
    } else {
        let mut out = String::new();
        if let Some(super_class) = &class.super_class {
            let super_name = binary_name_to_dotted(super_class.as_str());
            if !same_text(super_name.as_str(), "java.lang.Object") {
                out.append(" extends ");
                out.append(super_name.as_str());
                assert(out@ =~= " extends "@ + dotted(super_class@));
            }
        }
        out.append(render_clause(" implements ", &class.interfaces).as_str());
        out
    }
}

/// Renders `class` as synthetic `.java` source text: a real package/type
/// declaration with visible member signatures, never intended to be compiled.
pub fn render_stub(class: &ClassFile) -> (r: String)
    ensures
        r@ == stub(class@),
{
    let (package, simple_name) = package_and_simple_name(class.this_class.as_str());
    let mut out = String::new();
    if let Some(package) = &package {
        out.append("package ");
        out.append(package.as_str());
        out.append(";\n\n");
    }
    let ghost head = match package_of(class@.this_class) {
        Some(package) => "package "@ + package + ";\n\n"@,
        None => Seq::empty(),
    };
    assert(out@ =~= head);
    let is_enum = class.is_enum();
    let keyword = if is_enum {
        "enum"
    } else if class.is_interface() {
        "interface"
    } else {
        "class"
    };
    out.append("public ");
    out.append(keyword);
    out.append(" ");
    out.append(simple_name.as_str());
    out.append(supertypes_clause(class).as_str());
    out.append(" {\n");
    let ghost opening = out@;
    if is_enum {
        // Constants have a syntax of their own and are left out; the grammar
        // wants a `;` between their (empty) list and the members that follow.
        out.append("    ;\n");
    } else {
        let mut i: usize = 0;
        assert(opening + field_lines(members(class.fields@).take(0)) =~= opening);
        while i < class.fields.len()
            invariant
                i <= class.fields.len(),
                out@ == opening + field_lines(members(class.fields@).take(i as int)),
            decreases class.fields.len() - i,
        {
            let ghost now = members(class.fields@).take(i + 1);
            assert(now.drop_last() =~= members(class.fields@).take(i as int));
            assert(now.last() == class.fields@[i as int]@);
            if is_field_visible(class.fields[i].access_flags) {
                render_field(&mut out, &class.fields[i]);
            }
            i += 1;
            assert(out@ =~= opening + field_lines(now));
        }
        assert(members(class.fields@).take(i as int) =~= class@.fields);
    }
    let ghost body = out@;
    let mut i: usize = 0;
    assert(body + method_lines(members(class.methods@).take(0), simple_name@) =~= body);
    while i < class.methods.len()
        invariant
            i <= class.methods.len(),
            out@ == body + method_lines(members(class.methods@).take(i as int), simple_name@),
        decreases class.methods.len() - i,
    {
        let ghost now = members(class.methods@).take(i + 1);
        assert(now.drop_last() =~= members(class.methods@).take(i as int));
        assert(now.last() == class.methods@[i as int]@);
        if is_method_visible(class.methods[i].access_flags) {
            render_method(&mut out, &class.methods[i], simple_name.as_str());
        }
        i += 1;
        assert(out@ =~= body + method_lines(now, simple_name@));
    }
    assert(members(class.methods@).take(i as int) =~= class@.methods);
    out.append("}\n");
    out
}

// ---------------------------------------------------------------------------
// Laws
// ---------------------------------------------------------------------------

/// A Java type as the JVM describes it.
pub enum JavaType {
    Primitive(char),
    Class(Seq<char>),
    Array(Box<JavaType>),
}

impl JavaType {
    /// Whether the type can stand in a descriptor: a primitive type that there
    /// is, or a class whose binary name does not hold the mark that ends it.
    pub open spec fn valid(self) -> bool
        decreases self,
    {
        match self {
            JavaType::Primitive(c) => primitive_name(c) is Some,
            JavaType::Class(name) => !name.contains(';'),
            JavaType::Array(element) => element.valid(),
        }
    }

    /// Whether the type can stand in a method's descriptor: no class name in it
    /// holds the mark that ends the parameters.
    pub open spec fn valid_in_method(self) -> bool {
        self.valid() && !self.descriptor().contains(')')
    }

    /// The descriptor of the type (JVMS §4.3.2).
    pub open spec fn descriptor(self) -> Seq<char>
        decreases self,
    {
        match self {
            JavaType::Primitive(c) => seq![c],
            JavaType::Class(name) => seq!['L'] + name + seq![';'],
            JavaType::Array(element) => seq!['['] + element.descriptor(),
        }
    }

    /// The type as Java source.
    pub open spec fn source(self) -> Seq<char>
        decreases self,
    {
        match self {
            JavaType::Primitive(c) => primitive_name(c)->0,
            JavaType::Class(name) => dotted(name),
            JavaType::Array(element) => element.source() + "[]"@,
        }
    }
}

/// The descriptors of several types one after another.
pub open spec fn descriptors(types: Seq<JavaType>) -> Seq<char>
    decreases types.len(),
{
    if types.len() == 0 {
        Seq::empty()
    } else {
        types[0].descriptor() + descriptors(types.skip(1))
    }
}

proof fn lemma_first_type_of_descriptor(t: JavaType, rest: Seq<char>)
    requires
        t.valid(),
    ensures
        first_type(t.descriptor() + rest) == Some((t.source(), t.descriptor().len() as int)),
        t.descriptor().len() > 0,
    decreases t,
{
    let d = t.descriptor() + rest;
    match t {
        JavaType::Primitive(c) => {
            assert(d[0] == c);
            assert(array_depth(d) == 0);
            assert(d.skip(0) =~= d);
            assert(primitive_name(c)->0 + brackets(0) =~= primitive_name(c)->0);
        },
        JavaType::Class(name) => {
            assert(d[0] == 'L');
            assert(array_depth(d) == 0);
            assert(d.skip(0) =~= d);
            let end = name.len() + 1;
            assert(d[end as int] == ';');
            assert forall|i: int| 0 <= i < end implies d[i] != ';' by {
                if i > 0 {
                    assert(d[i] == name[i - 1]);
                }
            }
            lemma_is_first_index(d, ';', end as int);
            assert(d.subrange(1, end as int) =~= name);
            assert(dotted(name) + brackets(0) =~= dotted(name));
        },
        JavaType::Array(element) => {
            lemma_first_type_of_descriptor(*element, rest);
            let inner = element.descriptor() + rest;
            assert(d[0] == '[');
            assert(d.skip(1) =~= inner);
            let depth = array_depth(inner);
            lemma_array_depth(inner);
            assert(array_depth(d) == depth + 1);
            assert(d.skip((depth + 1) as int) =~= inner.skip(depth as int));
            let (name, used) = element_type(inner.skip(depth as int))->0;
            assert(name + brackets(depth + 1) =~= (name + brackets(depth)) + "[]"@);
        },
    }
}

/// Decoding a type's descriptor gives the type as Java source.
pub proof fn law_descriptor_decodes_to_its_type(t: JavaType)
    requires
        t.valid(),
    ensures
        field_type(t.descriptor()) == t.source(),
{
    lemma_first_type_of_descriptor(t, Seq::empty());
    assert(t.descriptor() + Seq::empty() =~= t.descriptor());
}

proof fn lemma_field_types_of_descriptors(types: Seq<JavaType>)
    requires
        forall|i: int| 0 <= i < types.len() ==> (#[trigger] types[i]).valid(),
    ensures
        field_types(descriptors(types)) == types.map_values(|t: JavaType| t.source()),
    decreases types.len(),
{
    let wanted = types.map_values(|t: JavaType| t.source());
    if types.len() == 0 {
        assert(wanted =~= Seq::empty());
    } else {
        let d = descriptors(types);
        let rest = types.skip(1);
        assert(types[0].valid());
        assert forall|i: int| 0 <= i < rest.len() implies (#[trigger] rest[i]).valid() by {
            assert(rest[i] == types[i + 1]);
        }
        lemma_first_type_of_descriptor(types[0], descriptors(rest));
        lemma_field_types_of_descriptors(rest);
        assert(d.skip(types[0].descriptor().len() as int) =~= descriptors(rest));
        assert(wanted =~= seq![types[0].source()] + rest.map_values(|t: JavaType| t.source()));
    }
}

proof fn lemma_descriptor_is_not_void(t: JavaType)
    requires
        t.valid(),
    ensures
        t.descriptor() != "V"@,
{
    reveal_strlit("V");
    match t {
        JavaType::Primitive(c) => {
            assert(t.descriptor()[0] == c);
        },
        JavaType::Class(name) => {
            assert(t.descriptor()[0] == 'L');
        },
        JavaType::Array(element) => {
            assert(t.descriptor()[0] == '[');
        },
    }
    assert("V"@[0] == 'V');
}

proof fn lemma_descriptors_have_no_paren(types: Seq<JavaType>)
    requires
        forall|i: int| 0 <= i < types.len() ==> (#[trigger] types[i]).valid_in_method(),
    ensures
        !descriptors(types).contains(')'),
    decreases types.len(),
{
    if types.len() > 0 {
        let rest = types.skip(1);
        assert(types[0].valid_in_method());
        assert forall|i: int| 0 <= i < rest.len() implies (#[trigger] rest[i]).valid_in_method() by {
            assert(rest[i] == types[i + 1]);
        }
        lemma_descriptors_have_no_paren(rest);
        let a = types[0].descriptor();
        let b = descriptors(rest);
        assert forall|i: int| 0 <= i < (a + b).len() implies (a + b)[i] != ')' by {
            if i < a.len() {
                assert((a + b)[i] == a[i]);
            } else {
                assert((a + b)[i] == b[i - a.len()]);
            }
        }
    }
}

/// Decoding a method descriptor (JVMS §4.3.3) gives its parameter types and its
/// return type as Java source; a method without a result, `None` here, is
/// `void`.
pub proof fn law_method_descriptor_decodes_to_its_signature(
    types: Seq<JavaType>,
    result: Option<JavaType>,
)
    requires
        forall|i: int| 0 <= i < types.len() ==> (#[trigger] types[i]).valid_in_method(),
        result is Some ==> result->0.valid_in_method(),
    ensures
        ({
            let ret = match result {
                Some(t) => t.descriptor(),
                None => "V"@,
            };
            method_signature(seq!['('] + descriptors(types) + seq![')'] + ret) == (
                types.map_values(|t: JavaType| t.source()),
                match result {
                    Some(t) => t.source(),
                    None => "void"@,
                },
            )
        }),
{
    reveal_strlit("V");
    let ret = match result {
        Some(t) => t.descriptor(),
        None => "V"@,
    };
    let params = descriptors(types);
    let d = seq!['('] + params + seq![')'] + ret;
    lemma_descriptors_have_no_paren(types);
    lemma_field_types_of_descriptors(types);
    if let Some(t) = result {
        lemma_descriptor_is_not_void(t);
        law_descriptor_decodes_to_its_type(t);
    }
    assert(!ret.contains(')')) by {
        if result is None {
            assert(ret.len() == 1 && ret[0] == 'V');
        }
    }
    let close = params.len() + 1;
    assert(d[0] == '(');
    assert(d[close as int] == ')');
    assert forall|i: int| 0 <= i < close implies d[i] != ')' by {
        if i > 0 {
            assert(d[i] == params[i - 1]);
        }
    }
    assert forall|i: int| close < i < d.len() implies d[i] != ')' by {
        assert(d[i] == ret[i - close - 1]);
    }
    lemma_is_first_index(d, ')', close as int);
    lemma_is_last_index(d, ')', close as int);
    assert(d.subrange(1, close as int) =~= params);
    assert(d.skip((close + 1) as int) =~= ret);
}

/// A member that is not visible leaves no trace in the stub: leaving it out of
/// the class changes nothing.
pub proof fn law_hidden_members_leave_no_trace(class: ClassFileView)
    ensures
        stub(
            (ClassFileView {
                fields: class.fields.filter(|m: MemberView| field_visible(m.access_flags)),
                methods: class.methods.filter(|m: MemberView| method_visible(m.access_flags)),
                ..class
            }),
        ) == stub(class),
{
    lemma_field_lines_of_visible(class.fields);
    lemma_method_lines_of_visible(class.methods, simple_name_of(class.this_class));
}

proof fn lemma_field_lines_of_visible(fields: Seq<MemberView>)
    ensures
        field_lines(fields.filter(|m: MemberView| field_visible(m.access_flags))) == field_lines(
            fields,
        ),
    decreases fields.len(),
{
    reveal(Seq::filter);
    let pred = |m: MemberView| field_visible(m.access_flags);
    if fields.len() > 0 {
        lemma_field_lines_of_visible(fields.drop_last());
        let kept = fields.drop_last().filter(pred);
        if field_visible(fields.last().access_flags) {
            assert(kept.push(fields.last()).drop_last() =~= kept);
        } else {
            assert(field_lines(kept) + Seq::empty() =~= field_lines(kept));
        }
    }
}

proof fn lemma_method_lines_of_visible(methods: Seq<MemberView>, simple_name: Seq<char>)
    ensures
        method_lines(methods.filter(|m: MemberView| method_visible(m.access_flags)), simple_name)
            == method_lines(methods, simple_name),
    decreases methods.len(),
{
    reveal(Seq::filter);
    let pred = |m: MemberView| method_visible(m.access_flags);
    if methods.len() > 0 {
        lemma_method_lines_of_visible(methods.drop_last(), simple_name);
        let kept = methods.drop_last().filter(pred);
        if method_visible(methods.last().access_flags) {
            assert(kept.push(methods.last()).drop_last() =~= kept);
        } else {
            assert(method_lines(kept, simple_name) + Seq::empty() =~= method_lines(
                kept,
                simple_name,
            ));
        }
    }
}

/// Names one after another, with a comma and a space between two.
pub open spec fn comma_separated(names: Seq<Seq<char>>) -> Seq<char>
    decreases names.len(),
{
    if names.len() == 0 {
        Seq::empty()
    } else if names.len() == 1 {
        names[0]
    } else {
        comma_separated(names.drop_last()) + seq![',', ' '] + names.last()
    }
}

/// Parameters as Java source: each type, and `p` with the parameter's number.
pub open spec fn shown_parameters(types: Seq<JavaType>) -> Seq<char> {
    comma_separated(
        Seq::new(types.len(), |i: int| types[i].source() + seq![' ', 'p'] + decimal(i as nat)),
    )
}

/// A text with dots in place of slashes.
pub open spec fn with_dots(name: Seq<char>) -> Seq<char> {
    Seq::new(
        name.len(),
        |i: int|
            if name[i] == '/' {
                '.'
            } else {
                name[i]
            },
    )
}

proof fn lemma_comma_separated(names: Seq<Seq<char>>)
    ensures
        joined(names, ", "@) == comma_separated(names),
    decreases names.len(),
{
    reveal_strlit(", ");
    assert(", "@ =~= seq![',', ' ']);
    if names.len() > 1 {
        lemma_comma_separated(names.drop_last());
    }
}

proof fn lemma_with_dots(name: Seq<char>)
    ensures
        dotted(name) == with_dots(name),
{
    assert(dotted(name) =~= with_dots(name));
}

/// The line of a method or a constructor shows its parameters, with the types
/// that its descriptor (JVMS §4.3.3) gives them, between the brackets. Before
/// those stand its visibility and, but for a constructor, whether it is static,
/// its result and its name; a constructor has the name of the class.
pub proof fn law_a_method_shows_its_parameters(
    method: MemberView,
    simple_name: Seq<char>,
    types: Seq<JavaType>,
    result: Option<JavaType>,
)
    requires
        forall|i: int| 0 <= i < types.len() ==> (#[trigger] types[i]).valid_in_method(),
        result is Some ==> result->0.valid_in_method(),
        method.descriptor == seq!['('] + descriptors(types) + seq![')'] + match result {
            Some(t) => t.descriptor(),
            None => "V"@,
        },
    ensures
        method_line(method, simple_name) == "    "@ + (if method.access_flags & 0x0001 != 0 {
            "public"@
        } else {
            "protected"@
        }) + " "@ + (if method.name == "<init>"@ {
            simple_name
        } else {
            (if method.access_flags & 0x0008 != 0 {
                "static "@
            } else {
                Seq::empty()
            }) + (match result {
                Some(t) => t.source(),
                None => "void"@,
            }) + " "@ + method.name
        }) + "("@ + shown_parameters(types) + ") {}\n"@,
{
    reveal_strlit("");
    reveal_strlit(" p");
    law_method_descriptor_decodes_to_its_signature(types, result);
    let sources = types.map_values(|t: JavaType| t.source());
    let listed = Seq::new(sources.len(), |i: int| parameter(sources, i));
    assert(" p"@ =~= seq![' ', 'p']);
    assert(listed =~= Seq::new(
        types.len(),
        |i: int| types[i].source() + seq![' ', 'p'] + decimal(i as nat),
    ));
    lemma_comma_separated(listed);
    assert(parameters(sources) == shown_parameters(types));
    let vis = if method.access_flags & 0x0001 != 0 {
        "public"@
    } else {
        "protected"@
    };
    assert(visibility(method.access_flags) == vis);
    if method.name != "<init>"@ {
        let fixed = if method.access_flags & 0x0008 != 0 {
            "static "@
        } else {
            Seq::empty()
        };
        let ret = match result {
            Some(t) => t.source(),
            None => "void"@,
        };
        let wanted = "    "@ + vis + " "@ + (fixed + ret + " "@ + method.name) + "("@
            + shown_parameters(types) + ") {}\n"@;
        assert(method_line(method, simple_name) =~= wanted);
    } else {
        let wanted = "    "@ + vis + " "@ + simple_name + "("@ + shown_parameters(types)
            + ") {}\n"@;
        assert(method_line(method, simple_name) =~= wanted);
    }
}

proof fn lemma_commas(names: Seq<Seq<char>>)
    requires
        forall|i: int| 0 <= i < names.len() ==> !(#[trigger] names[i]).contains(','),
    ensures
        names.len() <= 1 ==> !comma_separated(names).contains(','),
        names.len() > 1 ==> ({
            let head = comma_separated(names.drop_last());
            last_index(comma_separated(names), ',') == head.len()
        }),
{
    let all = comma_separated(names);
    if names.len() == 1 {
        assert(!names[0].contains(','));
    } else if names.len() > 1 {
        let head = comma_separated(names.drop_last());
        let last = names.last();
        assert(last == names[names.len() - 1]);
        assert(all[head.len() as int] == ',');
        assert forall|k: int| head.len() < k < all.len() implies all[k] != ',' by {
            if k > head.len() + 1 {
                assert(all[k] == last[k - head.len() - 2]);
            } else {
                assert(all[k] == ' ');
            }
        }
        lemma_is_last_index(all, ',', head.len() as int);
    }
}

/// Lists of names without commas are told apart by how they are written.
proof fn lemma_comma_separated_tells_apart(a: Seq<Seq<char>>, b: Seq<Seq<char>>)
    requires
        forall|i: int| 0 <= i < a.len() ==> !(#[trigger] a[i]).contains(',') && a[i].len() > 0,
        forall|i: int| 0 <= i < b.len() ==> !(#[trigger] b[i]).contains(',') && b[i].len() > 0,
        comma_separated(a) == comma_separated(b),
    ensures
        a == b,
    decreases a.len(),
{
    let text = comma_separated(a);
    lemma_commas(a);
    lemma_commas(b);
    if a.len() > 1 {
        assert(text[last_index(text, ',')] == ',') by {
            let head = comma_separated(a.drop_last());
            assert(text[head.len() as int] == ',');
        }
    }
    if b.len() > 1 {
        assert(text[last_index(text, ',')] == ',') by {
            let head = comma_separated(b.drop_last());
            assert(text[head.len() as int] == ',');
        }
    }
    if a.len() > 1 && b.len() > 1 {
        let x = comma_separated(a.drop_last());
        let y = comma_separated(b.drop_last());
        assert(x.len() == y.len());
        assert(x =~= text.take(x.len() as int));
        assert(y =~= text.take(x.len() as int));
        lemma_comma_separated_tells_apart(a.drop_last(), b.drop_last());
        assert(a.last() =~= text.skip((x.len() + 2) as int));
        assert(b.last() =~= text.skip((x.len() + 2) as int));
        assert(a =~= a.drop_last().push(a.last()));
        assert(b =~= b.drop_last().push(b.last()));
    } else if a.len() > 1 {
        assert(text.contains(','));
    } else if b.len() > 1 {
        assert(text.contains(','));
    } else {
        if a.len() == 1 {
            assert(a[0].len() > 0);
        }
        if b.len() == 1 {
            assert(b[0].len() > 0);
        }
        assert(a =~= b);
    }
}

/// Constructors of a class that take other types have other lines: two lines
/// that are the same show the same types, as Java source, in the same order.
pub proof fn law_lines_tell_constructors_apart(
    one: MemberView,
    other: MemberView,
    simple_name: Seq<char>,
    types: Seq<JavaType>,
    others: Seq<JavaType>,
)
    requires
        forall|i: int|
            0 <= i < types.len() ==> (#[trigger] types[i]).valid_in_method()
                && !types[i].source().contains(','),
        forall|i: int|
            0 <= i < others.len() ==> (#[trigger] others[i]).valid_in_method()
                && !others[i].source().contains(','),
        one.name == "<init>"@,
        other.name == "<init>"@,
        one.access_flags == other.access_flags,
        one.descriptor == seq!['('] + descriptors(types) + seq![')'] + "V"@,
        other.descriptor == seq!['('] + descriptors(others) + seq![')'] + "V"@,
        method_line(one, simple_name) == method_line(other, simple_name),
    ensures
        types.map_values(|t: JavaType| t.source()) == others.map_values(|t: JavaType| t.source()),
{
    law_a_method_shows_its_parameters(one, simple_name, types, None);
    law_a_method_shows_its_parameters(other, simple_name, others, None);
    let vis = if one.access_flags & 0x0001 != 0 {
        "public"@
    } else {
        "protected"@
    };
    let head = "    "@ + vis + " "@ + simple_name + "("@;
    let (x, y) = (shown_parameters(types), shown_parameters(others));
    let line = method_line(one, simple_name);
    let tail = ") {}\n"@;
    assert(line == head + x + tail);
    assert(line == head + y + tail);
    assert(x =~= line.subrange(head.len() as int, line.len() - tail.len()));
    assert(y =~= line.subrange(head.len() as int, line.len() - tail.len()));
    let a = Seq::new(types.len(), |i: int| types[i].source() + seq![' ', 'p'] + decimal(i as nat));
    let b = Seq::new(
        others.len(),
        |i: int| others[i].source() + seq![' ', 'p'] + decimal(i as nat),
    );
    assert forall|i: int| 0 <= i < a.len() implies !(#[trigger] a[i]).contains(',') && a[i].len()
        > 0 by {
        lemma_no_comma(types[i].source(), i as nat);
    }
    assert forall|i: int| 0 <= i < b.len() implies !(#[trigger] b[i]).contains(',') && b[i].len()
        > 0 by {
        lemma_no_comma(others[i].source(), i as nat);
    }
    lemma_comma_separated_tells_apart(a, b);
    assert forall|i: int| 0 <= i < types.len() implies types[i].source() == others[i].source() by {
        let (p, q) = (types[i].source(), others[i].source());
        let suffix = seq![' ', 'p'] + decimal(i as nat);
        assert(a[i] == b[i]);
        assert(a[i] =~= p + suffix && b[i] =~= q + suffix);
        assert(p =~= a[i].take(a[i].len() - suffix.len()));
        assert(q =~= b[i].take(b[i].len() - suffix.len()));
    }
    assert(types.map_values(|t: JavaType| t.source()) =~= others.map_values(
        |t: JavaType| t.source(),
    ));
}

proof fn lemma_no_comma(source: Seq<char>, n: nat)
    requires
        !source.contains(','),
    ensures
        !(source + seq![' ', 'p'] + decimal(n)).contains(','),
{
    let all = source + seq![' ', 'p'] + decimal(n);
    lemma_decimal_value(n);
    assert forall|k: int| 0 <= k < all.len() implies all[k] != ',' by {
        if k < source.len() {
            assert(all[k] == source[k]);
        } else if k >= source.len() + 2 {
            assert(all[k] == decimal(n)[k - source.len() - 2]);
            assert(is_ascii_digit(decimal(n)[k - source.len() - 2]));
        }
    }
}

/// The line of a field shows its visibility, the type that its descriptor
/// (JVMS §4.3.2) gives it, and its name.
pub proof fn law_a_field_shows_its_type(field: MemberView, t: JavaType)
    requires
        t.valid(),
        field.descriptor == t.descriptor(),
    ensures
        field_line(field) == "    "@ + (if field.access_flags & 0x0001 != 0 {
            "public"@
        } else {
            "protected"@
        }) + " "@ + t.source() + " "@ + field.name + ";\n"@,
{
    law_descriptor_decodes_to_its_type(t);
}

/// A type as Java source, by what it is: a class by its name with dots, an
/// array by its elements and brackets.
pub proof fn law_types_are_written_as_in_java(name: Seq<char>, element: JavaType)
    ensures
        JavaType::Class(name).source() == with_dots(name),
        JavaType::Array(Box::new(element)).source() == element.source() + seq!['[', ']'],
        JavaType::Primitive('Z').source() == "boolean"@,
        JavaType::Primitive('B').source() == "byte"@,
        JavaType::Primitive('C').source() == "char"@,
        JavaType::Primitive('S').source() == "short"@,
        JavaType::Primitive('I').source() == "int"@,
        JavaType::Primitive('J').source() == "long"@,
        JavaType::Primitive('F').source() == "float"@,
        JavaType::Primitive('D').source() == "double"@,
{
    reveal_strlit("[]");
    lemma_with_dots(name);
    assert("[]"@ =~= seq!['[', ']']);
}

/// Every method and constructor that is public or protected, and that no
/// compiler made, has its line in the stub, and so has every such field of what
/// is no enum.
pub proof fn law_every_visible_member_has_its_line(class: ClassFileView, i: int)
    ensures
        ({
            let flags = class.methods[i].access_flags;
            0 <= i < class.methods.len() && (flags & 0x0001 != 0 || flags & 0x0004 != 0) && flags
                & 0x1000 == 0 && flags & 0x0040 == 0
        }) ==> is_in(
            method_line(class.methods[i], simple_name_of(class.this_class)),
            stub(class),
        ),
        ({
            let flags = class.fields[i].access_flags;
            0 <= i < class.fields.len() && (flags & 0x0001 != 0 || flags & 0x0004 != 0) && flags
                & 0x1000 == 0 && class.access_flags & 0x4000 == 0
        }) ==> is_in(field_line(class.fields[i]), stub(class)),
{
    let simple_name = simple_name_of(class.this_class);
    let methods = method_lines(class.methods, simple_name);
    let fields = field_lines(class.fields);
    let whole = stub(class);
    let is_enum = class.access_flags & ACC_ENUM != 0;
    let opening = whole.take(whole.len() - 2 - methods.len() - (if is_enum {
        "    ;\n"@.len()
    } else {
        fields.len()
    }));
    let middle = if is_enum {
        "    ;\n"@
    } else {
        fields
    };
    reveal_strlit("}\n");
    assert("}\n"@.len() == 2);
    assert(whole =~= opening + middle + methods + "}\n"@);
    if 0 <= i < class.methods.len() {
        let flags = class.methods[i].access_flags;
        lemma_flags(flags);
        if method_visible(flags) {
            lemma_method_line_in(class.methods, simple_name, i);
            lemma_is_in(
                method_line(class.methods[i], simple_name),
                opening + middle,
                methods,
                "}\n"@,
            );
        }
    }
    if 0 <= i < class.fields.len() && !is_enum {
        let flags = class.fields[i].access_flags;
        lemma_flags(flags);
        if field_visible(flags) {
            lemma_field_line_in(class.fields, i);
            lemma_is_in(field_line(class.fields[i]), opening, fields, methods + "}\n"@);
            assert(opening + fields + (methods + "}\n"@) =~= whole);
        }
    }
}

/// Whether a text holds a piece.
pub open spec fn is_in(piece: Seq<char>, text: Seq<char>) -> bool {
    exists|before: Seq<char>, behind: Seq<char>| text == #[trigger] (before + piece + behind)
}

proof fn lemma_flags(flags: u16)
    ensures
        field_visible(flags) <==> (flags & 0x0001 != 0 || flags & 0x0004 != 0) && flags & 0x1000
            == 0,
        method_visible(flags) <==> field_visible(flags) && flags & 0x0040 == 0,
{
    assert(flags & (0x0001u16 | 0x0004u16) != 0 <==> flags & 0x0001u16 != 0 || flags & 0x0004u16
        != 0) by (bit_vector);
}

proof fn lemma_is_in(piece: Seq<char>, before: Seq<char>, text: Seq<char>, behind: Seq<char>)
    requires
        is_in(piece, text),
    ensures
        is_in(piece, before + text + behind),
{
    let (a, b) = choose|a: Seq<char>, b: Seq<char>| text == #[trigger] (a + piece + b);
    assert(before + text + behind =~= (before + a) + piece + (b + behind));
}

proof fn lemma_method_line_in(methods: Seq<MemberView>, simple_name: Seq<char>, i: int)
    requires
        0 <= i < methods.len(),
        method_visible(methods[i].access_flags),
    ensures
        is_in(method_line(methods[i], simple_name), method_lines(methods, simple_name)),
    decreases methods.len(),
{
    let before = method_lines(methods.drop_last(), simple_name);
    let all = method_lines(methods, simple_name);
    if i == methods.len() - 1 {
        let line = method_line(methods[i], simple_name);
        assert(all =~= before + line + Seq::empty());
    } else {
        lemma_method_line_in(methods.drop_last(), simple_name, i);
        let tail = all.skip(before.len() as int);
        lemma_is_in(method_line(methods[i], simple_name), Seq::empty(), before, tail);
        assert(Seq::<char>::empty() + before + tail =~= all);
    }
}

proof fn lemma_field_line_in(fields: Seq<MemberView>, i: int)
    requires
        0 <= i < fields.len(),
        field_visible(fields[i].access_flags),
    ensures
        is_in(field_line(fields[i]), field_lines(fields)),
    decreases fields.len(),
{
    let before = field_lines(fields.drop_last());
    let all = field_lines(fields);
    if i == fields.len() - 1 {
        let line = field_line(fields[i]);
        assert(all =~= before + line + Seq::empty());
    } else {
        lemma_field_line_in(fields.drop_last(), i);
        let tail = all.skip(before.len() as int);
        lemma_is_in(field_line(fields[i]), Seq::empty(), before, tail);
        assert(Seq::<char>::empty() + before + tail =~= all);
    }
}

/// A stub starts with the package of its class, where it has one, and declares
/// a public enum, interface or class of its simple name, which extends and
/// implements what the class file says.
pub proof fn law_a_stub_declares_its_type(class: ClassFileView)
    ensures
        ({
            let flags = class.access_flags;
            let interfaces = comma_separated(
                class.interfaces.map_values(|n: Seq<char>| with_dots(n)),
            );
            let opening = (match package_of(class.this_class) {
                Some(package) => "package "@ + package + ";\n\n"@,
                None => Seq::empty(),
            }) + "public "@ + (if flags & 0x4000 != 0 {
                "enum "@
            } else if flags & 0x0200 != 0 {
                "interface "@
            } else {
                "class "@
            }) + simple_name_of(class.this_class) + (if flags & 0x0200 == 0 && flags & 0x4000 == 0
                && class.super_class is Some && with_dots(class.super_class->0)
                != "java.lang.Object"@ {
                " extends "@ + with_dots(class.super_class->0)
            } else {
                Seq::empty()
            }) + (if class.interfaces.len() == 0 {
                Seq::empty()
            } else if flags & 0x0200 != 0 {
                " extends "@ + interfaces
            } else {
                " implements "@ + interfaces
            }) + " {\n"@;
            opening.is_prefix_of(stub(class))
        }),
{
    reveal_strlit("enum");
    reveal_strlit("interface");
    reveal_strlit("class");
    reveal_strlit(" ");
    reveal_strlit("enum ");
    reveal_strlit("interface ");
    reveal_strlit("class ");
    let flags = class.access_flags;
    let names = class.interfaces.map_values(|n: Seq<char>| dotted(n));
    assert forall|n: Seq<char>| #[trigger] dotted(n) == with_dots(n) by {
        lemma_with_dots(n);
    }
    assert(names =~= class.interfaces.map_values(|n: Seq<char>| with_dots(n)));
    lemma_comma_separated(names);
    assert("enum"@ + " "@ =~= "enum "@);
    assert("interface"@ + " "@ =~= "interface "@);
    assert("class"@ + " "@ =~= "class "@);
    let package = match package_of(class.this_class) {
        Some(package) => "package "@ + package + ";\n\n"@,
        None => Seq::empty(),
    };
    let keyword = if flags & ACC_ENUM != 0 {
        "enum"@
    } else if flags & ACC_INTERFACE != 0 {
        "interface"@
    } else {
        "class"@
    };
    let simple_name = simple_name_of(class.this_class);
    let interfaces = comma_separated(names);
    let extended = if flags & 0x0200 == 0 && flags & 0x4000 == 0 && class.super_class is Some
        && with_dots(class.super_class->0) != "java.lang.Object"@ {
        " extends "@ + with_dots(class.super_class->0)
    } else {
        Seq::empty()
    };
    let listed = if class.interfaces.len() == 0 {
        Seq::empty()
    } else if flags & 0x0200 != 0 {
        " extends "@ + interfaces
    } else {
        " implements "@ + interfaces
    };
    assert(supertypes(class) =~= extended + listed);
    let opening = package + "public "@ + (keyword + " "@) + simple_name + extended + listed
        + " {\n"@;
    let whole = stub(class);
    let middle = if flags & ACC_ENUM != 0 {
        "    ;\n"@
    } else {
        field_lines(class.fields)
    };
    assert(whole =~= opening + middle + method_lines(class.methods, simple_name) + "}\n"@);
    assert(opening =~= whole.take(opening.len() as int));
}

/// A binary name is made of its package, a slash and a name, and the simple name
/// is what stands behind the last `$` of that.
pub proof fn law_a_binary_name_has_its_package_and_simple_name(
    package: Seq<char>,
    outer: Seq<char>,
    name: Seq<char>,
)
    requires
        !name.contains('/') && !name.contains('$'),
        !outer.contains('/'),
    ensures
        package_of(package + seq!['/'] + name) == Some(with_dots(package)),
        package_of(name) is None,
        simple_name_of(package + seq!['/'] + name) == name,
        simple_name_of(name) == name,
        simple_name_of(package + seq!['/'] + outer + seq!['$'] + name) == name,
{
    lemma_with_dots(package);
    let a = package + seq!['/'] + name;
    let slash = package.len() as int;
    assert(a[slash] == '/');
    assert forall|k: int| slash < k < a.len() implies a[k] != '/' by {
        assert(a[k] == name[k - slash - 1]);
    }
    lemma_is_last_index(a, '/', slash);
    assert(a.take(slash) =~= package);
    assert(a.skip(slash + 1) =~= name);
    assert forall|k: int| 0 <= k < name.len() implies name[k] != '/' && name[k] != '$' by {
        assert(name.contains(name[k]));
    }
    assert(-1 < name.len());
    lemma_is_last_index(name, '/', -1);
    lemma_is_last_index(name, '$', -1);
    assert(name.skip(0) =~= name);
    let b = package + seq!['/'] + outer + seq!['$'] + name;
    let segment = outer + seq!['$'] + name;
    assert(b[slash] == '/');
    assert forall|k: int| slash < k < b.len() implies b[k] != '/' by {
        let m = k - slash - 1;
        if m < outer.len() {
            assert(b[k] == outer[m]);
            assert(outer.contains(outer[m]));
        } else if m > outer.len() {
            assert(b[k] == name[m - outer.len() - 1]);
        }
    }
    lemma_is_last_index(b, '/', slash);
    assert(b.skip(slash + 1) =~= segment);
    let dollar = outer.len() as int;
    assert(segment[dollar] == '$');
    assert forall|k: int| dollar < k < segment.len() implies segment[k] != '$' by {
        assert(segment[k] == name[k - dollar - 1]);
    }
    lemma_is_last_index(segment, '$', dollar);
    assert(segment.skip(dollar + 1) =~= name);
}

/// Texts one after another.
pub open spec fn run_together(texts: Seq<Seq<char>>) -> Seq<char>
    decreases texts.len(),
{
    if texts.len() == 0 {
        Seq::empty()
    } else {
        run_together(texts.drop_last()) + texts.last()
    }
}

/// Whether a member is public or protected and was not made by a compiler.
pub open spec fn is_shown(flags: u16) -> bool {
    (flags & 0x0001 != 0 || flags & 0x0004 != 0) && flags & 0x1000 == 0
}

/// Behind its opening a stub holds the lines of its fields, in their order, or
/// for an enum an empty list of constants, then those of its methods, in theirs,
/// and nothing else: the lines of what is public or protected and was not made
/// by a compiler.
pub proof fn law_a_stub_holds_the_lines_of_what_is_visible(class: ClassFileView)
    ensures
        ({
            let simple_name = simple_name_of(class.this_class);
            let fields = class.fields.filter(|m: MemberView| is_shown(m.access_flags));
            let methods = class.methods.filter(
                |m: MemberView| is_shown(m.access_flags) && m.access_flags & 0x0040 == 0,
            );
            let body = " {\n"@ + (if class.access_flags & 0x4000 != 0 {
                "    ;\n"@
            } else {
                run_together(fields.map_values(|m: MemberView| field_line(m)))
            }) + run_together(methods.map_values(|m: MemberView| method_line(m, simple_name)))
                + "}\n"@;
            body.is_suffix_of(stub(class))
        }),
{
    let simple_name = simple_name_of(class.this_class);
    let fields = class.fields.filter(|m: MemberView| is_shown(m.access_flags));
    let methods = class.methods.filter(
        |m: MemberView| is_shown(m.access_flags) && m.access_flags & 0x0040 == 0,
    );
    lemma_field_lines_run(class.fields);
    lemma_method_lines_run(class.methods, simple_name);
    let middle = if class.access_flags & 0x4000 != 0 {
        "    ;\n"@
    } else {
        run_together(fields.map_values(|m: MemberView| field_line(m)))
    };
    let tail = run_together(methods.map_values(|m: MemberView| method_line(m, simple_name)));
    let body = " {\n"@ + middle + tail + "}\n"@;
    let whole = stub(class);
    let opening = whole.take(whole.len() - body.len());
    assert(whole =~= opening + body);
    assert(whole.skip(whole.len() - body.len()) =~= body);
}

proof fn lemma_field_lines_run(list: Seq<MemberView>)
    ensures
        field_lines(list) == run_together(
            list.filter(|m: MemberView| is_shown(m.access_flags)).map_values(
                |m: MemberView| field_line(m),
            ),
        ),
    decreases list.len(),
{
    reveal(Seq::filter);
    let pred = |m: MemberView| is_shown(m.access_flags);
    let line = |m: MemberView| field_line(m);
    if list.len() > 0 {
        let fewer = list.drop_last();
        lemma_field_lines_run(fewer);
        lemma_flags(list.last().access_flags);
        let kept = fewer.filter(pred);
        if pred(list.last()) {
            let now = kept.push(list.last()).map_values(line);
            assert(now.drop_last() =~= kept.map_values(line));
            assert(now.last() == field_line(list.last()));
        } else {
            assert(field_lines(fewer) + Seq::empty() =~= field_lines(fewer));
        }
    } else {
        assert(list.filter(pred).map_values(line) =~= Seq::empty());
    }
}

proof fn lemma_method_lines_run(list: Seq<MemberView>, simple_name: Seq<char>)
    ensures
        method_lines(list, simple_name) == run_together(
            list.filter(
                |m: MemberView| is_shown(m.access_flags) && m.access_flags & 0x0040 == 0,
            ).map_values(|m: MemberView| method_line(m, simple_name)),
        ),
    decreases list.len(),
{
    reveal(Seq::filter);
    let pred = |m: MemberView| is_shown(m.access_flags) && m.access_flags & 0x0040 == 0;
    let line = |m: MemberView| method_line(m, simple_name);
    if list.len() > 0 {
        let fewer = list.drop_last();
        lemma_method_lines_run(fewer, simple_name);
        lemma_flags(list.last().access_flags);
        let kept = fewer.filter(pred);
        if pred(list.last()) {
            let now = kept.push(list.last()).map_values(line);
            assert(now.drop_last() =~= kept.map_values(line));
            assert(now.last() == method_line(list.last(), simple_name));
        } else {
            assert(method_lines(fewer, simple_name) + Seq::empty() =~= method_lines(
                fewer,
                simple_name,
            ));
        }
    } else {
        assert(list.filter(pred).map_values(line) =~= Seq::empty());
    }
}

/// A name can stand alone as a type where it starts with a letter, `_` or `$`
/// and goes on with letters, digits, `_` and `$`; in ASCII these are all.
pub proof fn law_a_name_starts_with_a_letter(name: Seq<char>, c: char)
    requires
        (c as u32) < 128,
    ensures
        !is_identifier(Seq::empty()),
        is_identifier(seq![c]) <==> ('a' <= c <= 'z' || 'A' <= c <= 'Z' || c == '_' || c == '$'),
        is_identifier(name) ==> (is_identifier(name.push(c)) <==> ('a' <= c <= 'z' || 'A' <= c
            <= 'Z' || '0' <= c <= '9' || c == '_' || c == '$')),
        name.len() > 0 && !is_identifier(name) ==> !is_identifier(name.push(c)),
{
    let more = name.push(c);
    if name.len() > 0 {
        assert(more[0] == name[0]);
        assert(more[name.len() as int] == c);
        assert forall|i: int| 0 <= i < name.len() implies more[i] == name[i] by {}
        if is_identifier(more) {
            assert forall|i: int| 1 <= i < name.len() implies alphanumeric(#[trigger] name[i])
                || name[i] == '_' || name[i] == '$' by {
                assert(more[i] == name[i]);
            }
        }
    }
}

} // verus!
