//! Detects whether a Java source file uses Lombok, so only files that actually
//! need it get sent through the background `javac`+Lombok compile (see
//! [`crate::javac_compile`]); everything else stays on the fast syntax-tree
//! path. Also computes, from a compiled class and its hand-written
//! source, which of the stub's indexed symbols should be excluded (already
//! correctly indexed from the real source) or redirected (a generated accessor,
//! pointed at its backing field instead of the synthetic stub): see
//! [`stub_symbol_overrides`].

use crate::class_stub::{package_and_simple_name, simple_name_of};
use crate::classfile::{ClassFile, ClassFileView, MemberView, members};
use crate::symbol::{SymbolInfo, SymbolKind, SymbolView, is_path, is_path_kind, symbol_views};
use crate::syntax::{nodes_of, tree_nodes};
use crate::syntax_node::{
    NodeView, Nodes, child_by_field, children_of, fills, holds_directly,
    law_a_child_fills_its_field, law_children_stand_directly_in_their_parent, text_of,
};
use crate::text::{from_range, opt_text, same_text, starts_with, to_chars};
use std::collections::hash_map::DefaultHasher;
use std::hash::Hasher;
use tree_sitter::Tree;
use vstd::hash_map::StringHashMap;
use vstd::prelude::*;
use vstd::std_specs::hash::DefaultHasherAdditionalSpecFns;
use vstd::string::*;

verus! {

// ---------------------------------------------------------------------------
// Detection
// ---------------------------------------------------------------------------

/// Whether a dotted path is `lombok` or lies in it.
pub open spec fn in_lombok(path: Seq<char>) -> bool {
    path == "lombok"@ || "lombok."@.is_prefix_of(path)
}

/// Whether the import at `i` names something in `lombok`.
pub open spec fn imports_lombok(nodes: Seq<NodeView>, i: int, source: Seq<char>) -> bool {
    exists|k: int|
        0 <= k < children_of(nodes, i).len() && is_path_kind(
            nodes[#[trigger] children_of(nodes, i)[k]].kind,
        ) && in_lombok(text_of(nodes, children_of(nodes, i)[k], source))
}

/// Whether the annotation at `i` is a qualified name in `lombok`.
pub open spec fn annotates_with_lombok(nodes: Seq<NodeView>, i: int, source: Seq<char>) -> bool {
    match child_by_field(nodes, i, "name"@) {
        Some(n) => nodes[n].kind == "scoped_identifier"@ && in_lombok(text_of(nodes, n, source)),
        None => false,
    }
}

/// Whether the node at `i` itself shows the use of Lombok.
pub open spec fn node_uses_lombok(nodes: Seq<NodeView>, i: int, source: Seq<char>) -> bool {
    if nodes[i].kind == "import_declaration"@ {
        imports_lombok(nodes, i, source)
    } else {
        (nodes[i].kind == "annotation"@ || nodes[i].kind == "marker_annotation"@)
            && annotates_with_lombok(nodes, i, source)
    }
}

/// Whether a document uses Lombok: anywhere in it a node shows it.
pub open spec fn document_uses_lombok(nodes: Seq<NodeView>, source: Seq<char>) -> bool {
    exists|i: int| 0 <= i < nodes.len() && #[trigger] node_uses_lombok(nodes, i, source)
}

fn is_lombok_path(path: &str) -> (r: bool)
    ensures
        r == in_lombok(path@),
{
    same_text(path, "lombok") || starts_with(path, "lombok.")
}

fn import_path_is_lombok(nodes: &Nodes, i: usize, source: &str) -> (r: bool)
    requires
        nodes.wf(),
        i < nodes@.len(),
    ensures
        r == imports_lombok(nodes@, i as int, source@),
{
    let children = nodes.children(i);
    let ghost all = children@.map_values(|c: usize| c as int);
    let mut k: usize = 0;
    while k < children.len()
        invariant
            k <= children.len(),
            all == children@.map_values(|c: usize| c as int),
            all == children_of(nodes@, i as int),
            forall|m: int| 0 <= m < children@.len() ==> i < #[trigger] children@[m] < nodes@.len(),
            forall|m: int|
                0 <= m < k ==> !(is_path_kind(
                    nodes@[#[trigger] children_of(nodes@, i as int)[m]].kind,
                ) && in_lombok(text_of(nodes@, children_of(nodes@, i as int)[m], source@))),
        decreases children.len() - k,
    {
        let c: usize = children[k];
        assert(all[k as int] == c);
        if is_path(nodes, c) && is_lombok_path(nodes.text(c, source).as_str()) {
            assert(is_path_kind(nodes@[children_of(nodes@, i as int)[k as int]].kind));
            return true;
        }
        k += 1;
    }
    false
}

fn annotation_name_is_lombok(nodes: &Nodes, i: usize, source: &str) -> (r: bool)
    requires
        nodes.wf(),
        i < nodes@.len(),
    ensures
        r == annotates_with_lombok(nodes@, i as int, source@),
{
    match nodes.child_by_field_name(i, "name") {
        Some(n) => nodes.is_kind(n, "scoped_identifier") && is_lombok_path(
            nodes.text(n, source).as_str(),
        ),
        None => false,
    }
}

/// [`uses_lombok`] for a document with these nodes.
pub fn walk(nodes: &Nodes, source: &str) -> (r: bool)
    requires
        nodes.wf(),
    ensures
        r == document_uses_lombok(nodes@, source@),
{
    let mut i: usize = 0;
    while i < nodes.len()
        invariant
            i <= nodes@.len(),
            nodes.wf(),
            forall|k: int| 0 <= k < i ==> !#[trigger] node_uses_lombok(nodes@, k, source@),
        decreases nodes@.len() - i,
    {
        let found = if nodes.is_kind(i, "import_declaration") {
            import_path_is_lombok(nodes, i, source)
        } else {
            (nodes.is_kind(i, "annotation") || nodes.is_kind(i, "marker_annotation"))
                && annotation_name_is_lombok(nodes, i, source)
        };
        assert(found == node_uses_lombok(nodes@, i as int, source@));
        if found {
            return true;
        }
        i += 1;
    }
    false
}

/// True if `tree` contains an import of the `lombok` package (single-type or
/// wildcard) or a fully-qualified `lombok.*` annotation use.
pub fn uses_lombok(tree: &Tree, source: &str) -> (r: bool)
    ensures
        r == document_uses_lombok(tree_nodes(*tree), source@),
{
    walk(&nodes_of(tree), source)
}

/// The hash of a text: of its bytes, then one that no text holds.
pub open spec fn hash_of(source: Seq<char>) -> u64 {
    DefaultHasher::spec_finish(seq![vstd::utf8::encode_utf8(source), seq![0xFFu8]])
}

/// A non-cryptographic content hash, used only to skip re-triggering a Lombok
/// recompile for byte-identical content (e.g. a save with no actual edit): a
/// hash collision here would at worst skip a redundant, harmless recompile, not
/// cause incorrect results.
pub fn content_hash(source: &str) -> (r: u64)
    ensures
        r == hash_of(source@),
{
    let mut hasher = DefaultHasher::new();
    hasher.write(source.as_bytes());
    hasher.write(&[0xFFu8]);
    proof {
        assert(hasher@[1] =~= seq![0xFFu8]);
        assert(hasher@ =~= seq![vstd::utf8::encode_utf8(source@), seq![0xFFu8]]);
    }
    hasher.finish()
}

/// What a package declaration is made of: itself in a document, and in it a
/// name.
pub enum PackagePart {
    Declaration,
    Name,
}

/// Whether a node of a kind is a part of a package declaration.
pub open spec fn is_package_part(kind: Seq<char>, part: PackagePart) -> bool {
    match part {
        PackagePart::Declaration => kind == "package_declaration"@,
        PackagePart::Name => is_path_kind(kind),
    }
}

/// The first of the children that is a part of a package declaration, or -1.
pub open spec fn first_part(nodes: Seq<NodeView>, children: Seq<int>, part: PackagePart) -> int
    decreases children.len(),
{
    if children.len() == 0 {
        -1
    } else if is_package_part(nodes[children[0]].kind, part) {
        children[0]
    } else {
        first_part(nodes, children.skip(1), part)
    }
}

/// The package that a document declares.
pub open spec fn declared_package(nodes: Seq<NodeView>, source: Seq<char>) -> Option<Seq<char>> {
    let declaration = first_part(nodes, children_of(nodes, 0), PackagePart::Declaration);
    if nodes.len() == 0 || declaration < 0 {
        None
    } else {
        let name = first_part(nodes, children_of(nodes, declaration), PackagePart::Name);
        if name < 0 {
            None
        } else {
            Some(text_of(nodes, name, source))
        }
    }
}

fn find_part(nodes: &Nodes, i: usize, part: PackagePart) -> (r: Option<usize>)
    requires
        nodes.wf(),
        i < nodes@.len(),
    ensures
        match r {
            Some(c) => c < nodes@.len() && first_part(nodes@, children_of(nodes@, i as int), part)
                == c,
            None => first_part(nodes@, children_of(nodes@, i as int), part) == -1,
        },
{
    let children = nodes.children(i);
    let ghost all = children@.map_values(|c: usize| c as int);
    let mut k: usize = 0;
    assert(all.skip(0) =~= all);
    while k < children.len()
        invariant
            k <= children.len(),
            all == children@.map_values(|c: usize| c as int),
            all == children_of(nodes@, i as int),
            forall|m: int| 0 <= m < children@.len() ==> i < #[trigger] children@[m] < nodes@.len(),
            first_part(nodes@, all, part) == first_part(nodes@, all.skip(k as int), part),
        decreases children.len() - k,
    {
        let c: usize = children[k];
        assert(all.skip(k as int)[0] == c);
        assert(all.skip(k as int).skip(1) =~= all.skip(k + 1));
        let found = match part {
            PackagePart::Declaration => nodes.is_kind(c, "package_declaration"),
            PackagePart::Name => is_path(nodes, c),
        };
        if found {
            return Some(c);
        }
        k += 1;
    }
    None
}

/// [`source_package`] for a document with these nodes.
pub fn package_in(nodes: &Nodes, source: &str) -> (r: Option<String>)
    requires
        nodes.wf(),
    ensures
        opt_text(r) == declared_package(nodes@, source@),
{
    if nodes.len() == 0 {
        return None;
    }
    match find_part(nodes, 0, PackagePart::Declaration) {
        Some(declaration) => match find_part(nodes, declaration, PackagePart::Name) {
            Some(name) => Some(nodes.text(name, source)),
            None => None,
        },
        None => None,
    }
}

/// Extracts a file's declared package (e.g. `"dev.javalsp.testbed"`), or `None`
/// for a default-package file: needed to locate a compiled class's expected
/// path on disk from its source file's own name.
pub fn source_package(tree: &Tree, source: &str) -> (r: Option<String>)
    ensures
        opt_text(r) == declared_package(tree_nodes(*tree), source@),
{
    package_in(&nodes_of(tree), source)
}

// ---------------------------------------------------------------------------
// Overrides
// ---------------------------------------------------------------------------

pub open spec fn is_ascii_upper(c: char) -> bool {
    'A' <= c && c <= 'Z'
}

/// An upper-case ASCII letter in lower case.
pub open spec fn ascii_lower(c: char) -> char {
    (c as u32 + 32) as u32 as char
}

/// What follows the accessor prefix `get`, `set` or `is`.
pub open spec fn accessor_rest(name: Seq<char>) -> Option<Seq<char>> {
    if "get"@.is_prefix_of(name) || "set"@.is_prefix_of(name) {
        Some(name.skip(3))
    } else if "is"@.is_prefix_of(name) {
        Some(name.skip(2))
    } else {
        None
    }
}

/// The field that an accessor exposes: what follows its prefix, where that
/// starts with an upper-case ASCII letter, with that letter in lower case.
pub open spec fn accessed_field(name: Seq<char>) -> Option<Seq<char>> {
    match accessor_rest(name) {
        Some(rest) => if rest.len() > 0 && is_ascii_upper(rest[0]) {
            Some(seq![ascii_lower(rest[0])] + rest.skip(1))
        } else {
            None
        },
        None => None,
    }
}

fn lower(c: char) -> (r: char)
    requires
        is_ascii_upper(c),
    ensures
        r == ascii_lower(c),
{
    let u: u32 = c as u32 + 32;
    match char::from_u32(u) {
        Some(l) => {
            proof {
                vstd::utf8::char_u32_cast(l, u);
            }
            l
        },
        None => c,
    }
}

/// The field name a JavaBean-shaped accessor exposes, e.g. `"getName"` /
/// `"setName"` -> `Some("name")`, `"isActive"` -> `Some("active")`. Requires
/// the character right after the prefix to be uppercase (standard JavaBean
/// capitalization); rejects anything else, including a bare `"get"`/`"is"`/
/// `"set"` with nothing to decapitalize.
pub fn field_name_for_accessor(method_name: &str) -> (r: Option<String>)
    ensures
        opt_text(r) == accessed_field(method_name@),
{
    proof {
        reveal_strlit("get");
        reveal_strlit("set");
        reveal_strlit("is");
    }
    let from: usize = if starts_with(method_name, "get") || starts_with(method_name, "set") {
        3
    } else if starts_with(method_name, "is") {
        2
    } else {
        return None;
    };
    let chars = to_chars(method_name);
    assert(from <= chars@.len());
    let ghost rest = method_name@.skip(from as int);
    if from >= chars.len() || !('A' <= chars[from] && chars[from] <= 'Z') {
        proof {
            if from < chars@.len() {
                assert(rest[0] == chars@[from as int]);
            }
        }
        return None;
    }
    let mut out = String::new();
    out.push(lower(chars[from]));
    out.append(from_range(&chars, from + 1, chars.len()).as_str());
    proof {
        assert(rest[0] == chars@[from as int]);
        assert(out@ =~= seq![ascii_lower(rest[0])] + rest.skip(1));
    }
    Some(out)
}

/// Whether one of the symbols is of a kind and name.
pub open spec fn declares(symbols: Seq<SymbolView>, kind: SymbolKind, name: Seq<char>) -> bool {
    exists|i: int|
        0 <= i < symbols.len() && (#[trigger] symbols[i]).kind == kind && symbols[i].name == name
}

/// Whether one of the symbols is a constructor.
pub open spec fn declares_constructor(symbols: Seq<SymbolView>) -> bool {
    exists|i: int| 0 <= i < symbols.len() && (#[trigger] symbols[i]).kind == SymbolKind::Constructor
}

/// The last field of a name.
pub open spec fn last_field(symbols: Seq<SymbolView>, name: Seq<char>) -> Option<SymbolView>
    decreases symbols.len(),
{
    if symbols.len() == 0 {
        None
    } else if symbols.last().kind == SymbolKind::Field && symbols.last().name == name {
        Some(symbols.last())
    } else {
        last_field(symbols.drop_last(), name)
    }
}

pub open spec fn has_method(methods: Seq<MemberView>, name: Seq<char>) -> bool {
    exists|i: int| 0 <= i < methods.len() && (#[trigger] methods[i]).name == name
}

/// What becomes of the stub's symbol of a method: `Some(None)` where it is
/// excluded, `Some(Some(..))` where it is redirected, `None` where it is left.
pub open spec fn method_override(symbols: Seq<SymbolView>, name: Seq<char>) -> Option<
    Option<SymbolView>,
> {
    if name == "<init>"@ {
        None
    } else if declares(symbols, SymbolKind::Method, name) {
        Some(None)
    } else {
        match accessed_field(name) {
            Some(f) => match last_field(symbols, f) {
                Some(field) => Some(
                    Some(
                        SymbolView {
                            name,
                            kind: SymbolKind::Method,
                            uri: field.uri,
                            range: field.range,
                            selection_range: field.selection_range,
                            owner: field.owner,
                        },
                    ),
                ),
                None => None,
            },
            None => None,
        }
    }
}

/// Whether the class's constructor is hand-written.
pub open spec fn constructor_excluded(class: ClassFileView, symbols: Seq<SymbolView>) -> bool {
    declares_constructor(symbols) && has_method(class.methods, "<init>"@)
}

/// What becomes of the stub's symbol of a name.
pub open spec fn override_of(
    class: ClassFileView,
    symbols: Seq<SymbolView>,
    name: Seq<char>,
) -> Option<Option<SymbolView>> {
    if has_method(class.methods, name) && method_override(symbols, name) is Some {
        method_override(symbols, name)
    } else if constructor_excluded(class, symbols) && name == simple_name_of(class.this_class) {
        Some(None)
    } else {
        None
    }
}

/// What becomes of a stub's symbols, by name: `None` where a symbol is
/// excluded, `Some` where it is redirected.
pub type Overrides = StringHashMap<Option<SymbolInfo>>;

/// What an override says, as mathematical values.
pub open spec fn override_view(value: Option<SymbolInfo>) -> Option<SymbolView> {
    match value {
        Some(s) => Some(s@),
        None => None,
    }
}

/// The overrides of a map, as mathematical values.
pub open spec fn override_views(map: Map<Seq<char>, Option<SymbolInfo>>) -> Map<
    Seq<char>,
    Option<SymbolView>,
> {
    map.map_values(|v: Option<SymbolInfo>| override_view(v))
}

/// What becomes of the stub's symbols, by name.
pub open spec fn overrides(class: ClassFileView, symbols: Seq<SymbolView>) -> Map<
    Seq<char>,
    Option<SymbolView>,
> {
    Map::new(
        |n: Seq<char>| override_of(class, symbols, n) is Some,
        |n: Seq<char>| override_of(class, symbols, n)->0,
    )
}

fn has_constructor(symbols: &[SymbolInfo]) -> (r: bool)
    ensures
        r == declares_constructor(symbol_views(symbols@)),
{
    let ghost views = symbol_views(symbols@);
    let mut i: usize = 0;
    while i < symbols.len()
        invariant
            i <= symbols.len(),
            views == symbol_views(symbols@),
            forall|k: int| 0 <= k < i ==> (#[trigger] views[k]).kind != SymbolKind::Constructor,
        decreases symbols.len() - i,
    {
        if symbols[i].kind == SymbolKind::Constructor {
            assert(views[i as int].kind == SymbolKind::Constructor);
            return true;
        }
        i += 1;
    }
    false
}

fn declares_method(symbols: &[SymbolInfo], name: &str) -> (r: bool)
    ensures
        r == declares(symbol_views(symbols@), SymbolKind::Method, name@),
{
    let ghost views = symbol_views(symbols@);
    let mut i: usize = 0;
    while i < symbols.len()
        invariant
            i <= symbols.len(),
            views == symbol_views(symbols@),
            forall|k: int|
                0 <= k < i ==> !((#[trigger] views[k]).kind == SymbolKind::Method && views[k].name
                    == name@),
        decreases symbols.len() - i,
    {
        if symbols[i].kind == SymbolKind::Method && same_text(symbols[i].name.as_str(), name) {
            assert(views[i as int].kind == SymbolKind::Method);
            return true;
        }
        i += 1;
    }
    false
}

fn find_field<'a>(symbols: &'a [SymbolInfo], name: &str) -> (r: Option<&'a SymbolInfo>)
    ensures
        match r {
            Some(field) => last_field(symbol_views(symbols@), name@) == Some(field@),
            None => last_field(symbol_views(symbols@), name@) is None,
        },
{
    let ghost views = symbol_views(symbols@);
    let mut i: usize = symbols.len();
    assert(views.take(i as int) =~= views);
    while i > 0
        invariant
            i <= symbols.len(),
            views == symbol_views(symbols@),
            last_field(views, name@) == last_field(views.take(i as int), name@),
        decreases i,
    {
        assert(views.take(i as int).drop_last() =~= views.take(i - 1));
        assert(views.take(i as int).last() == views[i - 1]);
        i -= 1;
        if symbols[i].kind == SymbolKind::Field && same_text(symbols[i].name.as_str(), name) {
            return Some(&symbols[i]);
        }
    }
    None
}

fn override_for_method(symbols: &[SymbolInfo], name: &str) -> (r: Option<Option<SymbolInfo>>)
    ensures
        match r {
            Some(v) => method_override(symbol_views(symbols@), name@) == Some(override_view(v)),
            None => method_override(symbol_views(symbols@), name@) is None,
        },
{
    if same_text(name, "<init>") {
        return None;
    }
    if declares_method(symbols, name) {
        return Some(None);
    }
    match field_name_for_accessor(name) {
        Some(field_name) => match find_field(symbols, field_name.as_str()) {
            Some(field) => {
                let owner = match &field.owner {
                    Some(owner) => Some(owner.clone()),
                    None => None,
                };
                Some(
                    Some(
                        SymbolInfo {
                            name: name.to_owned(),
                            kind: SymbolKind::Method,
                            uri: field.uri.clone(),
                            range: field.range,
                            selection_range: field.selection_range,
                            owner,
                        },
                    ),
                )
            },
            None => None,
        },
        None => None,
    }
}

/// The overrides once the first `n` methods are seen.
spec fn overrides_upto(class: ClassFileView, symbols: Seq<SymbolView>, n: int) -> Map<
    Seq<char>,
    Option<SymbolView>,
> {
    overrides_with(class, symbols, class.methods.take(n))
}

spec fn overrides_with(
    class: ClassFileView,
    symbols: Seq<SymbolView>,
    methods: Seq<MemberView>,
) -> Map<Seq<char>, Option<SymbolView>> {
    Map::new(
        |n: Seq<char>|
            (has_method(methods, n) && method_override(symbols, n) is Some) || (
            constructor_excluded(class, symbols) && n == simple_name_of(class.this_class)),
        |n: Seq<char>|
            if has_method(methods, n) && method_override(symbols, n) is Some {
                method_override(symbols, n)->0
            } else {
                None
            },
    )
}

proof fn lemma_has_method_push(methods: Seq<MemberView>, m: MemberView, n: Seq<char>)
    ensures
        has_method(methods.push(m), n) <==> has_method(methods, n) || m.name == n,
{
    let now = methods.push(m);
    if has_method(methods, n) {
        let i = choose|i: int| 0 <= i < methods.len() && (#[trigger] methods[i]).name == n;
        assert(now[i].name == n);
    }
    if m.name == n {
        assert(now[methods.len() as int].name == n);
    }
    if has_method(now, n) {
        let i = choose|i: int| 0 <= i < now.len() && (#[trigger] now[i]).name == n;
        if i < methods.len() {
            assert(methods[i].name == n);
        }
    }
}

proof fn lemma_overrides_push(
    class: ClassFileView,
    symbols: Seq<SymbolView>,
    methods: Seq<MemberView>,
    m: MemberView,
)
    ensures
        overrides_with(class, symbols, methods.push(m)) == match method_override(
            symbols,
            m.name,
        ) {
            Some(v) => overrides_with(class, symbols, methods).insert(m.name, v),
            None => overrides_with(class, symbols, methods),
        },
{
    let left = overrides_with(class, symbols, methods.push(m));
    let right = match method_override(symbols, m.name) {
        Some(v) => overrides_with(class, symbols, methods).insert(m.name, v),
        None => overrides_with(class, symbols, methods),
    };
    assert forall|n: Seq<char>|
        #![trigger left.dom().contains(n)]
        #![trigger right.dom().contains(n)]
        #![trigger left[n]]
        left.dom().contains(n) == right.dom().contains(n) && (left.dom().contains(n) ==> left[n]
            == right[n]) by {
        lemma_has_method_push(methods, m, n);
    }
    assert(left =~= right);
}

fn has_init(class: &ClassFile) -> (r: bool)
    ensures
        r == has_method(class@.methods, "<init>"@),
{
    let ghost views = class@.methods;
    let mut i: usize = 0;
    while i < class.methods.len()
        invariant
            i <= class.methods.len(),
            views == members(class.methods@),
            forall|k: int| 0 <= k < i ==> (#[trigger] views[k]).name != "<init>"@,
        decreases class.methods.len() - i,
    {
        if same_text(class.methods[i].name.as_str(), "<init>") {
            assert(views[i as int].name == "<init>"@);
            return true;
        }
        i += 1;
    }
    false
}

/// Decides, for each of a compiled class's methods, whether the corresponding
/// entry the generic classfile-to-stub pipeline would index should instead be
/// **excluded** (`None`: the method is hand-written, and `original_symbols`,
/// from parsing the real source, already indexes it correctly) or
/// **redirected** (`Some(field)`: the method is a Lombok-generated
/// `getX`/`setX`/`isX` accessor for a field that really exists in the
/// source). A generated method that's neither (e.g. `equals`/`toString`, or a
/// generated no-args constructor with no hand-written counterpart) has no entry
/// in the returned map at all: it's left indexed via the stub, since there's no
/// better real location.
///
/// Keyed by whatever name the stub's own symbols would have: the method's own
/// name for ordinary methods, but the class's *simple name* for a constructor
/// (a classfile names it `"<init>"`, but the stub names it after the class).
pub fn stub_symbol_overrides(class: &ClassFile, original_symbols: &[SymbolInfo]) -> (r:
    Overrides)
    ensures
        override_views(r@) == overrides(class@, symbol_views(original_symbols@)),
{
    let ghost symbols = symbol_views(original_symbols@);
    let mut map: Overrides = StringHashMap::new();
    let constructor = has_constructor(original_symbols) && has_init(class);
    if constructor {
        let (_, simple_name) = package_and_simple_name(class.this_class.as_str());
        map.insert(simple_name, None);
    }
    proof {
        let left = override_views(map@);
        let right = overrides_upto(class@, symbols, 0);
        assert(class@.methods.take(0) =~= Seq::empty());
        assert(forall|n: Seq<char>| !has_method(class@.methods.take(0), n));
        assert(left =~= right);
    }
    let mut i: usize = 0;
    while i < class.methods.len()
        invariant
            i <= class.methods.len(),
            symbols == symbol_views(original_symbols@),
            override_views(map@) == overrides_upto(class@, symbols, i as int),
        decreases class.methods.len() - i,
    {
        let ghost before = map@;
        proof {
            let m = class@.methods[i as int];
            assert(class@.methods.take(i + 1) =~= class@.methods.take(i as int).push(m));
            lemma_overrides_push(class@, symbols, class@.methods.take(i as int), m);
            assert(m.name == class.methods@[i as int].name@);
        }
        if let Some(value) = override_for_method(
            original_symbols,
            class.methods[i].name.as_str(),
        ) {
            let ghost view = override_view(value);
            map.insert(class.methods[i].name.clone(), value);
            assert(override_views(map@) =~= override_views(before).insert(
                class.methods@[i as int].name@,
                view,
            ));
        }
        i += 1;
    }
    proof {
        assert(class@.methods.take(i as int) =~= class@.methods);
        assert(overrides_upto(class@, symbols, i as int) =~= overrides(class@, symbols));
    }
    map
}

// ---------------------------------------------------------------------------
// Laws
// ---------------------------------------------------------------------------

/// A field's accessors lead back to it: `get`, `set` and `is` with the name's
/// first letter in upper case, for a name that starts with a lower-case ASCII
/// letter.
pub proof fn law_accessors_lead_back_to_their_field(prefix: Seq<char>, field: Seq<char>)
    requires
        prefix == "get"@ || prefix == "set"@ || prefix == "is"@,
        field.len() > 0,
        'a' <= field[0] && field[0] <= 'z',
    ensures
        accessed_field(
            prefix + seq![(field[0] as u32 - 32) as u32 as char] + field.skip(1),
        ) == Some(field),
{
    reveal_strlit("get");
    reveal_strlit("set");
    reveal_strlit("is");
    let c = (field[0] as u32 - 32) as u32;
    let upper = c as char;
    let name = prefix + seq![upper] + field.skip(1);
    assert(prefix.is_prefix_of(name));
    assert(name[0] == prefix[0]);
    let n = prefix.len() as int;
    assert(name.skip(n) =~= seq![upper] + field.skip(1));
    assert(name.skip(n)[0] == upper);
    assert(name.skip(n).skip(1) =~= field.skip(1));
    assert(upper as u32 == c);
    vstd::utf8::char_u32_cast(field[0], field[0] as u32);
    assert(ascii_lower(upper) == field[0]);
    assert(seq![field[0]] + field.skip(1) =~= field);
    if prefix == "is"@ {
        assert("get"@[0] != name[0]);
        assert("set"@[0] != name[0]);
    }
}

/// A hand-written method is excluded from the stub, never redirected.
pub proof fn law_hand_written_methods_are_excluded(
    class: ClassFileView,
    symbols: Seq<SymbolView>,
    name: Seq<char>,
)
    requires
        has_method(class.methods, name),
        declares(symbols, SymbolKind::Method, name),
        name != "<init>"@,
    ensures
        overrides(class, symbols).contains_key(name),
        overrides(class, symbols)[name] is None,
{
}

/// A redirected symbol stands at a field that the source declares,
/// under the accessor's own name, and keeps the field's owner.
pub proof fn law_redirects_lead_to_a_declared_field(
    class: ClassFileView,
    symbols: Seq<SymbolView>,
    name: Seq<char>,
)
    requires
        overrides(class, symbols).contains_key(name),
        overrides(class, symbols)[name] is Some,
    ensures
        ({
            let redirect = overrides(class, symbols)[name]->0;
            redirect.name == name && redirect.kind == SymbolKind::Method && exists|i: int|
                0 <= i < symbols.len() && (#[trigger] symbols[i]).kind == SymbolKind::Field && Some(
                    symbols[i].name,
                ) == accessed_field(name) && redirect.uri == symbols[i].uri && redirect.range
                    == symbols[i].range && redirect.owner == symbols[i].owner
        }),
{
    lemma_last_field(symbols, accessed_field(name)->0);
}

proof fn lemma_last_field(symbols: Seq<SymbolView>, name: Seq<char>)
    ensures
        last_field(symbols, name) is Some ==> exists|i: int|
            0 <= i < symbols.len() && (#[trigger] symbols[i]).kind == SymbolKind::Field
                && symbols[i].name == name && last_field(symbols, name) == Some(symbols[i]),
    decreases symbols.len(),
{
    if symbols.len() > 0 {
        if symbols.last().kind == SymbolKind::Field && symbols.last().name == name {
            assert(symbols[symbols.len() - 1] == symbols.last());
        } else {
            lemma_last_field(symbols.drop_last(), name);
            if last_field(symbols, name) is Some {
                let before = symbols.drop_last();
                let i = choose|i: int|
                    0 <= i < before.len() && (#[trigger] before[i]).kind == SymbolKind::Field
                        && before[i].name == name && last_field(before, name) == Some(before[i]);
                assert(symbols[i] == before[i]);
            }
        }
    }
}

/// A document uses Lombok where a direct part of an import is a path in
/// `lombok`, or where an annotation is named by a qualified path in it, and
/// nowhere else.
pub proof fn law_lombok_shows_in_imports_and_qualified_annotations(
    nodes: Seq<NodeView>,
    source: Seq<char>,
)
    ensures
        document_uses_lombok(nodes, source) <==> exists|i: int, n: int|
            #[trigger] shows_lombok(nodes, source, i, n),
{
    if document_uses_lombok(nodes, source) {
        let i = choose|i: int| 0 <= i < nodes.len() && #[trigger] node_uses_lombok(nodes, i, source);
        law_children_stand_directly_in_their_parent(nodes, i);
        if nodes[i].kind == "import_declaration"@ {
            let children = children_of(nodes, i);
            let k = choose|k: int|
                0 <= k < children.len() && is_path_kind(nodes[#[trigger] children[k]].kind)
                    && in_lombok(text_of(nodes, children[k], source));
            assert(children.contains(children[k]));
            assert(shows_lombok(nodes, source, i, children[k]));
        } else {
            let n = child_by_field(nodes, i, "name"@)->0;
            law_a_child_fills_its_field(nodes, i, n, "name"@);
            assert(shows_lombok(nodes, source, i, n));
        }
    }
    if exists|i: int, n: int| #[trigger] shows_lombok(nodes, source, i, n) {
        let (i, n) = choose|i: int, n: int| #[trigger] shows_lombok(nodes, source, i, n);
        law_children_stand_directly_in_their_parent(nodes, i);
        law_a_child_fills_its_field(nodes, i, n, "name"@);
        reveal_strlit("import_declaration");
        reveal_strlit("annotation");
        reveal_strlit("marker_annotation");
        assert("import_declaration"@.len() == 18 && "annotation"@.len() == 10
            && "marker_annotation"@.len() == 17);
        if nodes[i].kind == "import_declaration"@ {
            let children = children_of(nodes, i);
            assert(children.contains(n));
            let k = choose|k: int| 0 <= k < children.len() && children[k] == n;
            assert(is_path_kind(nodes[children[k]].kind));
        }
        assert(node_uses_lombok(nodes, i, source));
    }
}

/// Whether the node at `n` in the node at `i` shows the use of Lombok.
pub open spec fn shows_lombok(nodes: Seq<NodeView>, source: Seq<char>, i: int, n: int) -> bool {
    let path = text_of(nodes, n, source);
    &&& 0 <= i < nodes.len()
    &&& path == "lombok"@ || "lombok."@.is_prefix_of(path)
    &&& {
        ||| nodes[i].kind == "import_declaration"@ && holds_directly(nodes, i, n) && (
        nodes[n].kind == "scoped_identifier"@ || nodes[n].kind == "identifier"@)
        ||| (nodes[i].kind == "annotation"@ || nodes[i].kind == "marker_annotation"@) && fills(
            nodes,
            i,
            n,
            "name"@,
        ) && nodes[n].kind == "scoped_identifier"@
    }
}

/// What becomes of a class's methods: one that the source declares is excluded,
/// an accessor of a field that it declares is redirected to the last such field,
/// and any other is left as it is.
pub proof fn law_generated_accessors_are_redirected_to_their_field(
    class: ClassFileView,
    symbols: Seq<SymbolView>,
    name: Seq<char>,
    i: int,
)
    requires
        has_method(class.methods, name),
        name != "<init>"@,
        name != simple_name_of(class.this_class),
        !declares(symbols, SymbolKind::Method, name),
        accessed_field(name) is Some,
        0 <= i < symbols.len(),
        symbols[i].kind == SymbolKind::Field,
        symbols[i].name == accessed_field(name)->0,
        forall|j: int|
            i < j < symbols.len() ==> (#[trigger] symbols[j]).kind != SymbolKind::Field
                || symbols[j].name != accessed_field(name)->0,
    ensures
        overrides(class, symbols).contains_key(name),
        overrides(class, symbols)[name] == Some(
            SymbolView {
                name,
                kind: SymbolKind::Method,
                uri: symbols[i].uri,
                range: symbols[i].range,
                selection_range: symbols[i].selection_range,
                owner: symbols[i].owner,
            },
        ),
{
    lemma_is_last_field(symbols, accessed_field(name)->0, i);
}

proof fn lemma_is_last_field(symbols: Seq<SymbolView>, name: Seq<char>, i: int)
    requires
        0 <= i < symbols.len(),
        symbols[i].kind == SymbolKind::Field,
        symbols[i].name == name,
        forall|j: int|
            i < j < symbols.len() ==> (#[trigger] symbols[j]).kind != SymbolKind::Field
                || symbols[j].name != name,
    ensures
        last_field(symbols, name) == Some(symbols[i]),
    decreases symbols.len(),
{
    let last = symbols.len() - 1;
    assert(symbols[last] == symbols.last());
    if i < last {
        lemma_is_last_field(symbols.drop_last(), name, i);
    }
}

/// What the source neither declares nor backs with a field is left as it is, and
/// so is the constructor of a class whose source declares none; where it
/// declares one, the constructor is excluded.
pub proof fn law_what_the_source_does_not_explain_is_left(
    class: ClassFileView,
    symbols: Seq<SymbolView>,
    name: Seq<char>,
)
    ensures
        !has_method(class.methods, name) && name != simple_name_of(class.this_class)
            ==> !overrides(class, symbols).contains_key(name),
        name != simple_name_of(class.this_class) && !declares(symbols, SymbolKind::Method, name) && (
        accessed_field(name) is None || !declares(
            symbols,
            SymbolKind::Field,
            accessed_field(name)->0,
        )) ==> !overrides(class, symbols).contains_key(name),
        has_method(class.methods, "<init>"@) && (exists|k: int|
            0 <= k < symbols.len() && (#[trigger] symbols[k]).kind == SymbolKind::Constructor)
            && !has_method(class.methods, simple_name_of(class.this_class)) ==> overrides(
            class,
            symbols,
        ).contains_key(simple_name_of(class.this_class)) && overrides(class, symbols)[simple_name_of(
            class.this_class,
        )] is None,
        (forall|k: int|
            0 <= k < symbols.len() ==> (#[trigger] symbols[k]).kind != SymbolKind::Constructor)
            && !has_method(class.methods, simple_name_of(class.this_class)) ==> !overrides(
            class,
            symbols,
        ).contains_key(simple_name_of(class.this_class)),
{
    if accessed_field(name) is Some {
        lemma_last_field(symbols, accessed_field(name)->0);
    }
}

/// A name is no accessor's where it has another prefix than `get`, `set` or
/// `is`, or where no upper-case letter follows that.
pub proof fn law_only_accessors_expose_a_field(name: Seq<char>)
    requires
        accessed_field(name) is Some,
    ensures
        exists|k: int|
            {
                &&& 2 <= k <= 3 && k < name.len()
                &&& name.take(k) == (if k == 2 {
                    "is"@
                } else if name[0] == 'g' {
                    "get"@
                } else {
                    "set"@
                })
                &&& 'A' <= (#[trigger] name[k]) && name[k] <= 'Z'
                &&& accessed_field(name)->0.len() == name.len() - k
                &&& accessed_field(name)->0.skip(1) == name.skip(k + 1)
            },
{
    reveal_strlit("get");
    reveal_strlit("set");
    reveal_strlit("is");
    let k = if "get"@.is_prefix_of(name) || "set"@.is_prefix_of(name) {
        3int
    } else {
        2
    };
    if "get"@.is_prefix_of(name) {
        assert(name[0] == "get"@[0]);
    } else if "set"@.is_prefix_of(name) {
        assert(name[0] == "set"@[0]);
    }
    assert(name.skip(k)[0] == name[k]);
    assert(name.skip(k).skip(1) =~= name.skip(k + 1));
    assert(accessed_field(name)->0.skip(1) =~= name.skip(k + 1));
}

/// The package of a document is the path in the first package declaration that
/// stands directly in the document.
pub proof fn law_the_package_is_the_path_in_its_declaration(
    nodes: Seq<NodeView>,
    source: Seq<char>,
    declaration: int,
    path: int,
)
    requires
        nodes.len() > 0,
        holds_directly(nodes, 0, declaration),
        nodes[declaration].kind == "package_declaration"@,
        forall|k: int|
            k < declaration && #[trigger] holds_directly(nodes, 0, k) ==> nodes[k].kind
                != "package_declaration"@,
        holds_directly(nodes, declaration, path),
        nodes[path].kind == "scoped_identifier"@ || nodes[path].kind == "identifier"@,
        forall|k: int|
            k < path && #[trigger] holds_directly(nodes, declaration, k) ==> nodes[k].kind
                != "scoped_identifier"@ && nodes[k].kind != "identifier"@,
    ensures
        declared_package(nodes, source) == Some(text_of(nodes, path, source)),
{
    lemma_first_part(nodes, 0, PackagePart::Declaration, declaration);
    lemma_first_part(nodes, declaration, PackagePart::Name, path);
}

proof fn lemma_first_part(nodes: Seq<NodeView>, i: int, part: PackagePart, at: int)
    requires
        0 <= i < nodes.len(),
        holds_directly(nodes, i, at),
        is_package_part(nodes[at].kind, part),
        forall|k: int|
            k < at && #[trigger] holds_directly(nodes, i, k) ==> !is_package_part(
                nodes[k].kind,
                part,
            ),
    ensures
        first_part(nodes, children_of(nodes, i), part) == at,
{
    let all = children_of(nodes, i);
    law_children_stand_directly_in_their_parent(nodes, i);
    assert(all.contains(at));
    let m = choose|m: int| 0 <= m < all.len() && all[m] == at;
    assert forall|k: int| 0 <= k < m implies !is_package_part(
        nodes[#[trigger] all[k]].kind,
        part,
    ) by {
        assert(all[k] < all[m]);
        assert(all.contains(all[k]));
    }
    lemma_first_part_at(nodes, all, part, m);
}

proof fn lemma_first_part_at(
    nodes: Seq<NodeView>,
    children: Seq<int>,
    part: PackagePart,
    m: int,
)
    requires
        0 <= m < children.len(),
        is_package_part(nodes[children[m]].kind, part),
        forall|k: int|
            0 <= k < m ==> !is_package_part(nodes[#[trigger] children[k]].kind, part),
    ensures
        first_part(nodes, children, part) == children[m],
    decreases m,
{
    if m > 0 {
        let rest = children.skip(1);
        assert(forall|k: int| 0 <= k < rest.len() ==> rest[k] == children[k + 1]);
        lemma_first_part_at(nodes, rest, part, m - 1);
    }
}

} // verus!
