//! Resolves the receiver's declared type for a member-access expression
//! (`person.getName()`, `person.name`) using only lexical, syntax-tree-local
//! information (no cross-file type checking): enough to narrow goto
//! definition/hover/completion candidates to the one symbol actually declared
//! on the receiver's type, instead of every same-named symbol in the workspace.
//! Deliberately conservative: anything it can't resolve with a simple scope
//! walk (a chained call, a cast, an unknown receiver) returns `None`, and the
//! caller falls back to name-only behavior.

use crate::protocol::Position;
use crate::symbol::{
    belongs_to, is_type_declaration, is_type_declaration_kind,
    law_the_enclosing_type_is_the_nearest, law_the_owner_is_the_nearest_type, lemma_names_a_type,
    names_a_type, nearest_type, owner_name, owner_of,
};
use crate::syntax::{SyntaxTreeView, node_at, node_at_position, nodes_of, tree_view};
use crate::syntax_node::{
    NodeView, Nodes, child_by_field, children_of, fills, holds, holds_directly, lacks,
    law_a_child_fills_its_field, law_a_parent_holds_directly,
    law_children_stand_directly_in_their_parent, lemma_parent_from, parent_of, text_of,
};
use crate::text::{
    find_last, from_range, is_whitespace, last_index, lemma_is_last_index, opt_text, same_text,
    to_chars, trim_range, trimmed,
};
use tree_sitter::Tree;
use vstd::prelude::*;

verus! {

/// A member and the type of what it is a member of.
#[derive(Debug, Clone, PartialEq, Eq)]
pub struct MemberReference {
    pub name: String,
    pub receiver_type: String,
}

// ---------------------------------------------------------------------------
// Type names
// ---------------------------------------------------------------------------

/// A type without the brackets that it ends with, however often; white space
/// may stand in and before them.
pub open spec fn without_brackets(t: Seq<char>) -> Seq<char>
    decreases t.len(),
{
    let inner = trimmed(t.drop_last());
    if t.len() > 0 && t.last() == ']' && inner.len() > 0 && inner.last() == '[' {
        proof {
            lemma_trimmed_shorter(t.drop_last());
            lemma_trimmed_shorter(inner.drop_last());
        }
        without_brackets(trimmed(inner.drop_last()))
    } else {
        t
    }
}

/// A type without its generic type arguments: what stands between angle
/// brackets, of which `depth` are open at the start.
pub open spec fn without_arguments(t: Seq<char>, depth: nat) -> Seq<char>
    decreases t.len(),
{
    if t.len() == 0 {
        Seq::empty()
    } else if t[0] == '<' {
        without_arguments(t.skip(1), depth + 1)
    } else if depth == 0 {
        seq![t[0]] + without_arguments(t.skip(1), 0)
    } else if t[0] == '>' {
        without_arguments(t.skip(1), (depth - 1) as nat)
    } else {
        without_arguments(t.skip(1), depth)
    }
}

proof fn lemma_trim_start_shorter(s: Seq<char>)
    ensures
        crate::text::trim_start(s).len() <= s.len(),
    decreases s.len(),
{
    if s.len() > 0 && crate::text::is_whitespace(s[0]) {
        lemma_trim_start_shorter(s.skip(1));
    }
}

proof fn lemma_trim_end_shorter(s: Seq<char>)
    ensures
        crate::text::trim_end(s).len() <= s.len(),
    decreases s.len(),
{
    if s.len() > 0 && crate::text::is_whitespace(s.last()) {
        lemma_trim_end_shorter(s.drop_last());
    }
}

pub proof fn lemma_trimmed_shorter(s: Seq<char>)
    ensures
        trimmed(s).len() <= s.len(),
{
    lemma_trim_start_shorter(s);
    lemma_trim_end_shorter(crate::text::trim_start(s));
}

/// A type's simple name: without array brackets, generic type arguments and
/// package, and without white space around it.
pub open spec fn simple_type(type_text: Seq<char>) -> Seq<char> {
    let raw = without_arguments(without_brackets(trimmed(type_text)), 0);
    trimmed(raw.skip(last_index(raw, '.') + 1))
}

/// Where a type without the brackets that it ends with lies between two
/// indices: its start and its end.
fn strip_brackets(chars: &[char], start: usize, end: usize) -> (r: (usize, usize))
    requires
        start <= end <= chars@.len(),
    ensures
        start <= r.0 <= r.1 <= end,
        chars@.subrange(r.0 as int, r.1 as int) == without_brackets(
            chars@.subrange(start as int, end as int),
        ),
{
    let ghost whole = chars@.subrange(start as int, end as int);
    let mut lo: usize = start;
    let mut hi: usize = end;
    while lo < hi && chars[hi - 1] == ']'
        invariant
            start <= lo <= hi <= end <= chars@.len(),
            whole == chars@.subrange(start as int, end as int),
            without_brackets(whole) == without_brackets(chars@.subrange(lo as int, hi as int)),
        decreases hi - lo,
    {
        let ghost here = chars@.subrange(lo as int, hi as int);
        assert(here.drop_last() =~= chars@.subrange(lo as int, hi - 1));
        let (inner_lo, inner_hi) = trim_range(chars, lo, hi - 1);
        let ghost inner = chars@.subrange(inner_lo as int, inner_hi as int);
        assert(inner == trimmed(here.drop_last()));
        assert(inner.len() > 0 ==> inner.last() == chars@[inner_hi - 1]);
        if inner_lo == inner_hi || chars[inner_hi - 1] != '[' {
            return (lo, hi);
        }
        assert(inner.drop_last() =~= chars@.subrange(inner_lo as int, inner_hi - 1));
        let (next_lo, next_hi) = trim_range(chars, inner_lo, inner_hi - 1);
        lo = next_lo;
        hi = next_hi;
    }
    (lo, hi)
}

fn strip_arguments(chars: &[char]) -> (r: Vec<char>)
    ensures
        r@ == without_arguments(chars@, 0),
{
    let mut out: Vec<char> = Vec::new();
    let mut depth: usize = 0;
    let mut i: usize = 0;
    assert(chars@.skip(0) =~= chars@);
    while i < chars.len()
        invariant
            depth <= i <= chars@.len(),
            out@ + without_arguments(chars@.skip(i as int), depth as nat) == without_arguments(
                chars@,
                0,
            ),
        decreases chars@.len() - i,
    {
        let ghost rest = chars@.skip(i as int);
        assert(rest[0] == chars@[i as int]);
        assert(rest.skip(1) =~= chars@.skip(i + 1));
        if chars[i] == '<' {
            depth += 1;
        } else if depth == 0 {
            let ghost before = out@;
            out.push(chars[i]);
            assert(before + (seq![rest[0]] + without_arguments(rest.skip(1), 0)) =~= out@
                + without_arguments(rest.skip(1), 0));
        } else if chars[i] == '>' {
            depth -= 1;
        }
        i += 1;
    }
    assert(out@ + Seq::<char>::empty() =~= out@);
    out
}

/// Strips array brackets, generic type arguments, and any package qualifier,
/// e.g. `java.util.List<String>[]` -> `List`: the bare simple-name form in
/// which a symbol's owner is stored.
pub fn simple_type_name(type_text: &str) -> (r: String)
    ensures
        r@ == simple_type(type_text@),
{
    let chars = to_chars(type_text);
    let len: usize = chars.len();
    assert(chars@.subrange(0, len as int) =~= type_text@);
    let (start, stop) = trim_range(&chars, 0, len);
    let (lo, hi) = strip_brackets(&chars, start, stop);
    let element = vstd::slice::slice_subrange(chars.as_slice(), lo, hi);
    let raw = strip_arguments(element);
    let total: usize = raw.len();
    let from: usize = match find_last(&raw, '.') {
        Some(dot) => dot + 1,
        None => 0,
    };
    assert(raw@.subrange(from as int, total as int) =~= raw@.skip(from as int));
    let (first, end) = trim_range(&raw, from, total);
    from_range(&raw, first, end)
}

// ---------------------------------------------------------------------------
// Scopes
// ---------------------------------------------------------------------------

pub open spec fn is_method_like_kind(kind: Seq<char>) -> bool {
    kind == "method_declaration"@ || kind == "constructor_declaration"@ || kind
        == "compact_constructor_declaration"@
}

/// The text of the type that the node at `i` declares something of.
pub open spec fn type_text(nodes: Seq<NodeView>, i: int, source: Seq<char>) -> Option<Seq<char>> {
    match child_by_field(nodes, i, "type"@) {
        Some(t) => Some(text_of(nodes, t, source)),
        None => None,
    }
}

/// Whether the node at `c` has a name and it is `name`.
pub open spec fn is_named(nodes: Seq<NodeView>, c: int, source: Seq<char>, name: Seq<char>) -> bool {
    match child_by_field(nodes, c, "name"@) {
        Some(n) => text_of(nodes, n, source) == name,
        None => false,
    }
}

/// Whether one of the children is a declarator of `name`.
pub open spec fn has_declarator(
    nodes: Seq<NodeView>,
    children: Seq<int>,
    source: Seq<char>,
    name: Seq<char>,
) -> bool {
    exists|k: int|
        0 <= k < children.len() && nodes[#[trigger] children[k]].field == Some("declarator"@)
            && is_named(nodes, children[k], source, name)
}

/// The type that the variable or field declaration at `i` gives `name`.
pub open spec fn variable_type(
    nodes: Seq<NodeView>,
    i: int,
    source: Seq<char>,
    name: Seq<char>,
) -> Option<Seq<char>> {
    if has_declarator(nodes, children_of(nodes, i), source, name) {
        type_text(nodes, i, source)
    } else {
        None
    }
}

/// The type that the parameter at `i` gives `name`.
pub open spec fn parameter_type(
    nodes: Seq<NodeView>,
    i: int,
    source: Seq<char>,
    name: Seq<char>,
) -> Option<Seq<char>> {
    if nodes[i].kind == "formal_parameter"@ && is_named(nodes, i, source, name) {
        type_text(nodes, i, source)
    } else {
        None
    }
}

/// The type that the first of the children that declares `name` gives it;
/// only variable declarations of one kind count.
pub open spec fn first_variable_type(
    nodes: Seq<NodeView>,
    children: Seq<int>,
    kind: Seq<char>,
    source: Seq<char>,
    name: Seq<char>,
) -> Option<Seq<char>>
    decreases children.len(),
{
    if children.len() == 0 {
        None
    } else if nodes[children[0]].kind == kind && variable_type(
        nodes,
        children[0],
        source,
        name,
    ) is Some {
        variable_type(nodes, children[0], source, name)
    } else {
        first_variable_type(nodes, children.skip(1), kind, source, name)
    }
}

/// The type that the first of the parameters that is `name` has.
pub open spec fn first_parameter_type(
    nodes: Seq<NodeView>,
    children: Seq<int>,
    source: Seq<char>,
    name: Seq<char>,
) -> Option<Seq<char>>
    decreases children.len(),
{
    if children.len() == 0 {
        None
    } else if parameter_type(nodes, children[0], source, name) is Some {
        parameter_type(nodes, children[0], source, name)
    } else {
        first_parameter_type(nodes, children.skip(1), source, name)
    }
}

/// The type of the method's or constructor's own parameter `name`.
pub open spec fn type_of_parameter(
    nodes: Seq<NodeView>,
    i: int,
    source: Seq<char>,
    name: Seq<char>,
) -> Option<Seq<char>> {
    if is_method_like_kind(nodes[i].kind) {
        match child_by_field(nodes, i, "parameters"@) {
            Some(p) => first_parameter_type(nodes, children_of(nodes, p), source, name),
            None => None,
        }
    } else {
        None
    }
}

/// The type of the type declaration's own field `name`.
pub open spec fn type_of_field(
    nodes: Seq<NodeView>,
    i: int,
    source: Seq<char>,
    name: Seq<char>,
) -> Option<Seq<char>> {
    match child_by_field(nodes, i, "body"@) {
        Some(body) => first_variable_type(
            nodes,
            children_of(nodes, body),
            "field_declaration"@,
            source,
            name,
        ),
        None => None,
    }
}

/// The type that the node at `i` itself scopes for `name`: that of its own
/// parameter, else of its own field for a type declaration, else of a local
/// variable declared directly in it.
pub open spec fn type_in_scope(
    nodes: Seq<NodeView>,
    i: int,
    source: Seq<char>,
    name: Seq<char>,
) -> Option<Seq<char>> {
    if type_of_parameter(nodes, i, source, name) is Some {
        type_of_parameter(nodes, i, source, name)
    } else if is_type_declaration_kind(nodes[i].kind) {
        type_of_field(nodes, i, source, name)
    } else {
        first_variable_type(
            nodes,
            children_of(nodes, i),
            "local_variable_declaration"@,
            source,
            name,
        )
    }
}

/// The simple name of the type that the nearest scope around the node at `i`
/// that declares `name` gives it.
pub open spec fn type_from(
    nodes: Seq<NodeView>,
    i: int,
    source: Seq<char>,
    name: Seq<char>,
) -> Option<Seq<char>>
    decreases i,
{
    let p = parent_of(nodes, i);
    if !(0 <= p < i) {
        None
    } else {
        match type_in_scope(nodes, p, source, name) {
            Some(t) => Some(simple_type(t)),
            None => type_from(nodes, p, source, name),
        }
    }
}

/// The type of what stands before the dot, for a reference at `i` to a member
/// of `object`: the enclosing type for `this`, the declared type of a plain
/// name, and nothing for any other expression.
pub open spec fn object_type(
    nodes: Seq<NodeView>,
    i: int,
    object: int,
    source: Seq<char>,
) -> Option<Seq<char>> {
    if nodes[object].kind == "this"@ {
        owner_of(nodes, i, source)
    } else if nodes[object].kind == "identifier"@ {
        type_from(nodes, object, source, text_of(nodes, object, source))
    } else {
        None
    }
}

/// The type that the node at `i`, as the name of a called method or of an
/// accessed field, is a member of.
pub open spec fn receiver_of(nodes: Seq<NodeView>, i: int, source: Seq<char>) -> Option<Seq<char>> {
    let p = parent_of(nodes, i);
    if p < 0 {
        None
    } else if nodes[p].kind == "method_invocation"@ && child_by_field(nodes, p, "name"@) == Some(
        i,
    ) {
        match child_by_field(nodes, p, "object"@) {
            Some(object) => object_type(nodes, i, object, source),
            None => owner_of(nodes, i, source),
        }
    } else if nodes[p].kind == "field_access"@ && child_by_field(nodes, p, "field"@) == Some(i) {
        match child_by_field(nodes, p, "object"@) {
            Some(object) => object_type(nodes, i, object, source),
            None => None,
        }
    } else {
        None
    }
}

/// The member that the node at `i` names and the type that it is a member of.
pub open spec fn reference_of(nodes: Seq<NodeView>, i: int, source: Seq<char>) -> Option<
    (Seq<char>, Seq<char>),
> {
    if nodes[i].kind == "identifier"@ {
        match receiver_of(nodes, i, source) {
            Some(t) => Some((text_of(nodes, i, source), t)),
            None => None,
        }
    } else {
        None
    }
}

/// The member name at a position and the type that it is a member of.
pub open spec fn reference_at(document: SyntaxTreeView, position: Position) -> Option<
    (Seq<char>, Seq<char>),
> {
    match node_at(document, position) {
        Some(i) => reference_of(document.nodes, i, document.source),
        None => None,
    }
}

/// The declared type of a name at the node at `i`; `this` is the enclosing type.
pub open spec fn declared_type_of(
    nodes: Seq<NodeView>,
    i: int,
    source: Seq<char>,
    name: Seq<char>,
) -> Option<Seq<char>> {
    if name == "this"@ {
        owner_of(nodes, i, source)
    } else {
        type_from(nodes, i, source, name)
    }
}

/// The declared type of a name at a position.
pub open spec fn declared_type_at(
    document: SyntaxTreeView,
    position: Position,
    name: Seq<char>,
) -> Option<Seq<char>> {
    match node_at(document, position) {
        Some(i) => declared_type_of(document.nodes, i, document.source, name),
        None => None,
    }
}

// ---------------------------------------------------------------------------
// Resolution
// ---------------------------------------------------------------------------

fn declared_type_text(nodes: &Nodes, i: usize, source: &str) -> (r: Option<String>)
    requires
        nodes.wf(),
        i < nodes@.len(),
    ensures
        opt_text(r) == type_text(nodes@, i as int, source@),
{
    match nodes.child_by_field_name(i, "type") {
        Some(t) => Some(nodes.text(t, source)),
        None => None,
    }
}

fn has_name(nodes: &Nodes, i: usize, source: &str, name: &str) -> (r: bool)
    requires
        nodes.wf(),
        i < nodes@.len(),
    ensures
        r == is_named(nodes@, i as int, source@, name@),
{
    match nodes.child_by_field_name(i, "name") {
        Some(n) => same_text(nodes.text(n, source).as_str(), name),
        None => false,
    }
}

fn declared_variable_type(nodes: &Nodes, i: usize, source: &str, name: &str) -> (r: Option<String>)
    requires
        nodes.wf(),
        i < nodes@.len(),
    ensures
        opt_text(r) == variable_type(nodes@, i as int, source@, name@),
{
    let children = nodes.children(i);
    let ghost all = children@.map_values(|c: usize| c as int);
    let mut k: usize = 0;
    while k < children.len()
        invariant
            k <= children.len(),
            nodes.wf(),
            i < nodes@.len(),
            all == children@.map_values(|c: usize| c as int),
            all == children_of(nodes@, i as int),
            forall|m: int| 0 <= m < children@.len() ==> i < #[trigger] children@[m] < nodes@.len(),
            forall|m: int|
                0 <= m < k ==> !(nodes@[#[trigger] all[m]].field == Some("declarator"@) && is_named(
                    nodes@,
                    all[m],
                    source@,
                    name@,
                )),
        decreases children.len() - k,
    {
        let c: usize = children[k];
        assert(all[k as int] == c);
        if nodes.has_field(c, "declarator") && has_name(nodes, c, source, name) {
            return declared_type_text(nodes, i, source);
        }
        k += 1;
    }
    None
}

fn declared_parameter_type(
    nodes: &Nodes,
    i: usize,
    source: &str,
    name: &str,
) -> (r: Option<String>)
    requires
        nodes.wf(),
        i < nodes@.len(),
    ensures
        opt_text(r) == parameter_type(nodes@, i as int, source@, name@),
{
    if nodes.is_kind(i, "formal_parameter") && has_name(nodes, i, source, name) {
        declared_type_text(nodes, i, source)
    } else {
        None
    }
}

/// The type of `name` by the first child of `i` of a kind that declares it.
fn find_variable_type(
    nodes: &Nodes,
    i: usize,
    kind: &str,
    source: &str,
    name: &str,
) -> (r: Option<String>)
    requires
        nodes.wf(),
        i < nodes@.len(),
    ensures
        opt_text(r) == first_variable_type(
            nodes@,
            children_of(nodes@, i as int),
            kind@,
            source@,
            name@,
        ),
{
    let children = nodes.children(i);
    let ghost all = children@.map_values(|c: usize| c as int);
    let mut k: usize = 0;
    assert(all.skip(0) =~= all);
    while k < children.len()
        invariant
            k <= children.len(),
            nodes.wf(),
            i < nodes@.len(),
            all == children@.map_values(|c: usize| c as int),
            all == children_of(nodes@, i as int),
            forall|m: int| 0 <= m < children@.len() ==> i < #[trigger] children@[m] < nodes@.len(),
            first_variable_type(nodes@, all, kind@, source@, name@) == first_variable_type(
                nodes@,
                all.skip(k as int),
                kind@,
                source@,
                name@,
            ),
        decreases children.len() - k,
    {
        let c: usize = children[k];
        assert(all.skip(k as int)[0] == c);
        assert(all.skip(k as int).skip(1) =~= all.skip(k + 1));
        if nodes.is_kind(c, kind) {
            if let Some(found) = declared_variable_type(nodes, c, source, name) {
                return Some(found);
            }
        }
        k += 1;
    }
    None
}

fn find_parameter_type(nodes: &Nodes, i: usize, source: &str, name: &str) -> (r: Option<String>)
    requires
        nodes.wf(),
        i < nodes@.len(),
    ensures
        opt_text(r) == first_parameter_type(
            nodes@,
            children_of(nodes@, i as int),
            source@,
            name@,
        ),
{
    let children = nodes.children(i);
    let ghost all = children@.map_values(|c: usize| c as int);
    let mut k: usize = 0;
    assert(all.skip(0) =~= all);
    while k < children.len()
        invariant
            k <= children.len(),
            nodes.wf(),
            i < nodes@.len(),
            all == children@.map_values(|c: usize| c as int),
            all == children_of(nodes@, i as int),
            forall|m: int| 0 <= m < children@.len() ==> i < #[trigger] children@[m] < nodes@.len(),
            first_parameter_type(nodes@, all, source@, name@) == first_parameter_type(
                nodes@,
                all.skip(k as int),
                source@,
                name@,
            ),
        decreases children.len() - k,
    {
        let c: usize = children[k];
        assert(all.skip(k as int)[0] == c);
        assert(all.skip(k as int).skip(1) =~= all.skip(k + 1));
        if let Some(found) = declared_parameter_type(nodes, c, source, name) {
            return Some(found);
        }
        k += 1;
    }
    None
}

/// Checks whether a node, one ancestor of the reference site, itself scopes a
/// declaration of `name`: a method/constructor's own parameters, a type
/// declaration's own fields, or a block's own direct local variable
/// declarations. Only ever looks at the node's immediate children, never
/// recurses into a nested block/type/lambda, so ascending through enclosing
/// scopes only ever sees declarations actually in lexical scope at the
/// reference site.
fn declared_type_in_scope(
    nodes: &Nodes,
    i: usize,
    source: &str,
    name: &str,
) -> (r: Option<String>)
    requires
        nodes.wf(),
        i < nodes@.len(),
    ensures
        opt_text(r) == type_in_scope(nodes@, i as int, source@, name@),
{
    if nodes.is_kind(i, "method_declaration") || nodes.is_kind(i, "constructor_declaration")
        || nodes.is_kind(i, "compact_constructor_declaration") {
        if let Some(parameters) = nodes.child_by_field_name(i, "parameters") {
            if let Some(found) = find_parameter_type(nodes, parameters, source, name) {
                return Some(found);
            }
        }
    }
    if is_type_declaration(nodes, i) {
        return match nodes.child_by_field_name(i, "body") {
            Some(body) => find_variable_type(nodes, body, "field_declaration", source, name),
            None => None,
        };
    }
    find_variable_type(nodes, i, "local_variable_declaration", source, name)
}

/// Resolves the declared type of `name` by ascending from `reference` through
/// its enclosing scopes (the block(s) containing it, the enclosing
/// method/constructor's parameters, then the enclosing class's own fields),
/// checking only each level's own direct declarations. This is what keeps a
/// same-named variable declared in a different block (or inside a nested scope
/// that merely happens to sit inside the same method) from shadowing the
/// reference's real, innermost declaration. Doesn't model declare-before-use
/// ordering within a single block.
fn resolve_identifier_type(
    nodes: &Nodes,
    reference: usize,
    source: &str,
    name: &str,
) -> (r: Option<String>)
    requires
        nodes.wf(),
        reference < nodes@.len(),
    ensures
        opt_text(r) == type_from(nodes@, reference as int, source@, name@),
{
    let mut at: usize = reference;
    loop
        invariant
            nodes.wf(),
            at < nodes@.len(),
            type_from(nodes@, reference as int, source@, name@) == type_from(
                nodes@,
                at as int,
                source@,
                name@,
            ),
        decreases at,
    {
        match nodes.parent(at) {
            None => {
                return None;
            },
            Some(p) => {
                if let Some(found) = declared_type_in_scope(nodes, p, source, name) {
                    return Some(simple_type_name(found.as_str()));
                }
                at = p;
            },
        }
    }
}

fn resolve_object_type(nodes: &Nodes, i: usize, object: usize, source: &str) -> (r: Option<String>)
    requires
        nodes.wf(),
        i < nodes@.len(),
        object < nodes@.len(),
    ensures
        opt_text(r) == object_type(nodes@, i as int, object as int, source@),
{
    if nodes.is_kind(object, "this") {
        owner_name(nodes, i, source)
    } else if nodes.is_kind(object, "identifier") {
        let name = nodes.text(object, source);
        resolve_identifier_type(nodes, object, source, name.as_str())
    } else {
        None
    }
}

fn resolve_receiver_type(nodes: &Nodes, i: usize, source: &str) -> (r: Option<String>)
    requires
        nodes.wf(),
        i < nodes@.len(),
    ensures
        opt_text(r) == receiver_of(nodes@, i as int, source@),
{
    let parent: usize = match nodes.parent(i) {
        Some(p) => p,
        None => {
            return None;
        },
    };
    if nodes.is_kind(parent, "method_invocation") && nodes.child_by_field_name(parent, "name")
        == Some(i) {
        match nodes.child_by_field_name(parent, "object") {
            Some(object) => resolve_object_type(nodes, i, object, source),
            None => owner_name(nodes, i, source),
        }
    } else if nodes.is_kind(parent, "field_access") && nodes.child_by_field_name(parent, "field")
        == Some(i) {
        match nodes.child_by_field_name(parent, "object") {
            Some(object) => resolve_object_type(nodes, i, object, source),
            None => None,
        }
    } else {
        None
    }
}

/// The member that the node at `i` names, with its receiver's declared type.
pub fn member_reference_in(nodes: &Nodes, i: usize, source: &str) -> (r: Option<MemberReference>)
    requires
        nodes.wf(),
        i < nodes@.len(),
    ensures
        match r {
            Some(m) => reference_of(nodes@, i as int, source@) == Some(
                (m.name@, m.receiver_type@),
            ),
            None => reference_of(nodes@, i as int, source@) is None,
        },
{
    if !nodes.is_kind(i, "identifier") {
        return None;
    }
    match resolve_receiver_type(nodes, i, source) {
        Some(receiver_type) => Some(MemberReference { name: nodes.text(i, source), receiver_type }),
        None => None,
    }
}

/// If `position` is on the member-name identifier of a `method_invocation` or
/// `field_access`, resolves its receiver's declared type. Returns `None` when
/// the cursor isn't on such a member name, or the receiver's type can't be
/// determined from local scope alone.
pub fn member_reference_at(tree: &Tree, source: &str, position: Position) -> (r: Option<
    MemberReference,
>)
    ensures
        match r {
            Some(m) => reference_at(tree_view(*tree, source@), position) == Some(
                (m.name@, m.receiver_type@),
            ),
            None => reference_at(tree_view(*tree, source@), position) is None,
        },
{
    match node_at_position(tree, source, position) {
        Some(i) => member_reference_in(&nodes_of(tree), i, source),
        None => None,
    }
}

/// The declared type of `identifier_name` at the node at `i`.
pub fn resolve_declared_type_in(
    nodes: &Nodes,
    i: usize,
    source: &str,
    identifier_name: &str,
) -> (r: Option<String>)
    requires
        nodes.wf(),
        i < nodes@.len(),
    ensures
        opt_text(r) == declared_type_of(nodes@, i as int, source@, identifier_name@),
{
    if same_text(identifier_name, "this") {
        owner_name(nodes, i, source)
    } else {
        resolve_identifier_type(nodes, i, source, identifier_name)
    }
}

/// Resolves `identifier_name`'s declared type at `position`: used for a
/// completion receiver (`person.` plus a partial member name), where, unlike
/// goto-definition/hover, there isn't already a specific reference in hand.
pub fn resolve_declared_type_at(
    tree: &Tree,
    source: &str,
    position: Position,
    identifier_name: &str,
) -> (r: Option<String>)
    ensures
        opt_text(r) == declared_type_at(tree_view(*tree, source@), position, identifier_name@),
{
    match node_at_position(tree, source, position) {
        Some(i) => resolve_declared_type_in(&nodes_of(tree), i, source, identifier_name),
        None => None,
    }
}

// ---------------------------------------------------------------------------
// Laws
// ---------------------------------------------------------------------------

/// Whether the node at `i` is the name of the method that the call at `p` calls
/// or of the field that the access at `p` accesses.
pub open spec fn is_member_name(nodes: Seq<NodeView>, p: int, i: int) -> bool {
    ||| nodes[p].kind == "method_invocation"@ && fills(nodes, p, i, "name"@)
    ||| nodes[p].kind == "field_access"@ && fills(nodes, p, i, "field"@)
}

proof fn lemma_member_parent(nodes: Seq<NodeView>, p: int, i: int)
    requires
        0 <= p < nodes.len(),
        is_member_name(nodes, p, i),
    ensures
        0 <= i < nodes.len(),
        parent_of(nodes, i) == p,
        nodes[p].kind == "method_invocation"@ ==> child_by_field(nodes, p, "name"@) == Some(i),
        nodes[p].kind == "field_access"@ ==> child_by_field(nodes, p, "field"@) == Some(i),
        "method_invocation"@ != "field_access"@,
{
    reveal_strlit("method_invocation");
    reveal_strlit("field_access");
    assert("method_invocation"@.len() == 17 && "field_access"@.len() == 12);
    law_a_parent_holds_directly(nodes, p, i);
    law_a_child_fills_its_field(nodes, p, i, "name"@);
    law_a_child_fills_its_field(nodes, p, i, "field"@);
}

/// A member of `this`, whether a method that is called or a field that is
/// accessed, belongs to the nearest type around it.
pub proof fn law_a_member_of_this_belongs_to_the_nearest_type(
    nodes: Seq<NodeView>,
    source: Seq<char>,
    p: int,
    i: int,
    object: int,
    owner: Option<Seq<char>>,
)
    requires
        0 <= p < nodes.len(),
        is_member_name(nodes, p, i),
        fills(nodes, p, object, "object"@),
        nodes[object].kind == "this"@,
    ensures
        receiver_of(nodes, i, source) == owner <==> belongs_to(nodes, i, source, owner),
{
    lemma_member_parent(nodes, p, i);
    law_a_child_fills_its_field(nodes, p, object, "object"@);
    law_the_owner_is_the_nearest_type(nodes, i, source, owner);
}

/// A field access and a method call on `this` that stand in the same type have
/// the same receiver.
pub proof fn law_fields_and_methods_of_this_have_one_receiver(
    nodes: Seq<NodeView>,
    source: Seq<char>,
    access: int,
    field: int,
    call: int,
    method: int,
    this: int,
    that: int,
    d: int,
)
    requires
        0 <= access < nodes.len(),
        0 <= call < nodes.len(),
        nodes[access].kind == "field_access"@,
        fills(nodes, access, field, "field"@),
        fills(nodes, access, this, "object"@),
        nodes[this].kind == "this"@,
        nodes[call].kind == "method_invocation"@,
        fills(nodes, call, method, "name"@),
        fills(nodes, call, that, "object"@),
        nodes[that].kind == "this"@,
        nearest_type(nodes, d, field),
        nearest_type(nodes, d, method),
    ensures
        receiver_of(nodes, field, source) == receiver_of(nodes, method, source),
{
    lemma_member_parent(nodes, access, field);
    lemma_member_parent(nodes, call, method);
    law_a_child_fills_its_field(nodes, access, this, "object"@);
    law_a_child_fills_its_field(nodes, call, that, "object"@);
    law_the_enclosing_type_is_the_nearest(nodes, d, field);
    law_the_enclosing_type_is_the_nearest(nodes, d, method);
}

/// A method that is called on nothing belongs to the nearest type around it; a
/// field that is accessed on nothing is no member.
pub proof fn law_an_unqualified_call_belongs_to_the_nearest_type(
    nodes: Seq<NodeView>,
    source: Seq<char>,
    p: int,
    i: int,
    owner: Option<Seq<char>>,
)
    requires
        0 <= p < nodes.len(),
        is_member_name(nodes, p, i),
        lacks(nodes, p, "object"@),
    ensures
        nodes[p].kind == "method_invocation"@ ==> (receiver_of(nodes, i, source) == owner
            <==> belongs_to(nodes, i, source, owner)),
        nodes[p].kind == "field_access"@ ==> receiver_of(nodes, i, source) is None,
{
    lemma_member_parent(nodes, p, i);
    law_a_child_fills_its_field(nodes, p, i, "object"@);
    law_the_owner_is_the_nearest_type(nodes, i, source, owner);
}

/// A member of a plain name belongs to the type that the name is declared with
/// where it stands; a member of any other expression but `this` belongs to no
/// type that is known.
pub proof fn law_a_member_of_a_name_belongs_to_its_declared_type(
    nodes: Seq<NodeView>,
    source: Seq<char>,
    p: int,
    i: int,
    object: int,
)
    requires
        0 <= p < nodes.len(),
        is_member_name(nodes, p, i),
        fills(nodes, p, object, "object"@),
        nodes[object].kind != "this"@,
    ensures
        nodes[object].kind == "identifier"@ ==> receiver_of(nodes, i, source) == declared_type_of(
            nodes,
            object,
            source,
            text_of(nodes, object, source),
        ) || text_of(nodes, object, source) == "this"@,
        nodes[object].kind == "identifier"@ ==> is_declared_type(
            nodes,
            object,
            source,
            text_of(nodes, object, source),
            receiver_of(nodes, i, source),
        ),
        nodes[object].kind != "identifier"@ ==> receiver_of(nodes, i, source) is None,
{
    lemma_member_parent(nodes, p, i);
    law_a_child_fills_its_field(nodes, p, object, "object"@);
    if nodes[object].kind == "identifier"@ {
        law_a_name_has_the_type_of_its_nearest_declaration(
            nodes,
            object,
            source,
            text_of(nodes, object, source),
        );
    }
}

/// What is no name of a called method or of an accessed field is a member of
/// nothing.
pub proof fn law_only_member_names_have_a_receiver(
    nodes: Seq<NodeView>,
    source: Seq<char>,
    i: int,
)
    requires
        0 <= i < nodes.len(),
        forall|p: int| #[trigger] holds_directly(nodes, p, i) ==> !is_member_name(nodes, p, i),
    ensures
        receiver_of(nodes, i, source) is None,
{
    let p = parent_of(nodes, i);
    law_a_parent_holds_directly(nodes, p, i);
    if p >= 0 {
        law_a_child_fills_its_field(nodes, p, i, "name"@);
        law_a_child_fills_its_field(nodes, p, i, "field"@);
    }
}

/// The reference at an identifier is its text with its receiver, where it has
/// one, and what is no identifier refers to nothing.
pub proof fn law_a_reference_names_the_member_at_its_node(
    nodes: Seq<NodeView>,
    source: Seq<char>,
    i: int,
)
    requires
        0 <= i < nodes.len(),
    ensures
        match reference_of(nodes, i, source) {
            Some((name, receiver)) => nodes[i].kind == "identifier"@ && name == text_of(
                nodes,
                i,
                source,
            ) && receiver_of(nodes, i, source) == Some(receiver),
            None => nodes[i].kind != "identifier"@ || receiver_of(nodes, i, source) is None,
        },
{
}

/// Whether the declaration at `v` declares a variable `name` of the type at `t`.
pub open spec fn declares_variable(
    nodes: Seq<NodeView>,
    v: int,
    source: Seq<char>,
    name: Seq<char>,
    t: int,
) -> bool {
    fills(nodes, v, t, "type"@) && exists|c: int, n: int|
        #[trigger] holds_directly(nodes, v, c) && nodes[c].field == Some("declarator"@)
            && #[trigger] fills(nodes, c, n, "name"@) && text_of(nodes, n, source) == name
}

/// Whether the parameter at `v` is `name`, of the type at `t`.
pub open spec fn declares_parameter(
    nodes: Seq<NodeView>,
    v: int,
    source: Seq<char>,
    name: Seq<char>,
    t: int,
) -> bool {
    nodes[v].kind == "formal_parameter"@ && fills(nodes, v, t, "type"@) && exists|n: int|
        #[trigger] fills(nodes, v, n, "name"@) && text_of(nodes, n, source) == name
}

/// Whether the node at `d` is the scope of a declaration of `name` with the type
/// at `t`: a method or a constructor of its parameters, a type of its fields,
/// and anything else of the local variables that stand directly in it.
pub open spec fn scopes(
    nodes: Seq<NodeView>,
    d: int,
    source: Seq<char>,
    name: Seq<char>,
    t: int,
) -> bool {
    ||| seq![
        "method_declaration"@,
        "constructor_declaration"@,
        "compact_constructor_declaration"@,
    ].contains(nodes[d].kind) && exists|ps: int, v: int|
        #[trigger] fills(nodes, d, ps, "parameters"@) && #[trigger] holds_directly(nodes, ps, v)
            && declares_parameter(nodes, v, source, name, t)
    ||| names_a_type(nodes[d].kind) && exists|body: int, v: int|
        #[trigger] fills(nodes, d, body, "body"@) && #[trigger] holds_directly(nodes, body, v)
            && nodes[v].kind == "field_declaration"@ && declares_variable(
            nodes,
            v,
            source,
            name,
            t,
        )
    ||| !names_a_type(nodes[d].kind) && exists|v: int|
        #[trigger] holds_directly(nodes, d, v) && nodes[v].kind == "local_variable_declaration"@
            && declares_variable(nodes, v, source, name, t)
}

/// Whether a name has a type at the node at `i`: the one that the nearest scope
/// around the node declares it with; none where no scope declares it.
pub open spec fn is_declared_type(
    nodes: Seq<NodeView>,
    i: int,
    source: Seq<char>,
    name: Seq<char>,
    found: Option<Seq<char>>,
) -> bool {
    match found {
        Some(ty) => exists|d: int, t: int|
            {
                &&& #[trigger] holds(nodes, d, i)
                &&& #[trigger] scopes(nodes, d, source, name, t)
                &&& ty == simple_type(text_of(nodes, t, source))
                &&& forall|e: int, u: int|
                    d < e && #[trigger] holds(nodes, e, i) ==> !(#[trigger] scopes(
                        nodes,
                        e,
                        source,
                        name,
                        u,
                    ))
            },
        None => forall|e: int, u: int|
            #[trigger] holds(nodes, e, i) ==> !(#[trigger] scopes(nodes, e, source, name, u)),
    }
}

/// A name has the type that the nearest scope around it declares it with.
pub proof fn law_a_name_has_the_type_of_its_nearest_declaration(
    nodes: Seq<NodeView>,
    i: int,
    source: Seq<char>,
    name: Seq<char>,
)
    requires
        0 <= i < nodes.len(),
    ensures
        is_declared_type(nodes, i, source, name, type_from(nodes, i, source, name)),
        name != "this"@ ==> is_declared_type(
            nodes,
            i,
            source,
            name,
            declared_type_of(nodes, i, source, name),
        ),
    decreases i,
{
    let p = parent_of(nodes, i);
    law_a_parent_holds_directly(nodes, p, i);
    assert forall|d: int| #[trigger] holds(nodes, d, i) implies d == p || (d < p && holds(
        nodes,
        d,
        p,
    )) by {
        lemma_parent_from(nodes, i, i - 1);
        assert(nodes[i].depth > nodes[d].depth);
        assert(d <= p);
    }
    if 0 <= p {
        assert(holds(nodes, p, i));
        lemma_scope(nodes, p, source, name);
        match type_in_scope(nodes, p, source, name) {
            Some(text) => {
                let t = choose|t: int|
                    #[trigger] scopes(nodes, p, source, name, t) && text == text_of(
                        nodes,
                        t,
                        source,
                    );
                assert(holds(nodes, p, i) && scopes(nodes, p, source, name, t));
            },
            None => {
                law_a_name_has_the_type_of_its_nearest_declaration(nodes, p, source, name);
                if let Some(ty) = type_from(nodes, p, source, name) {
                    let (d, t) = choose|d: int, t: int|
                        {
                            &&& #[trigger] holds(nodes, d, p)
                            &&& #[trigger] scopes(nodes, d, source, name, t)
                            &&& ty == simple_type(text_of(nodes, t, source))
                            &&& forall|e: int, u: int|
                                d < e && #[trigger] holds(nodes, e, p) ==> !(#[trigger] scopes(
                                    nodes,
                                    e,
                                    source,
                                    name,
                                    u,
                                ))
                        };
                    assert forall|k: int| d < k <= i implies (#[trigger] nodes[k]).depth
                        > nodes[d].depth by {
                        if k > p {
                            assert(nodes[k].depth > nodes[p].depth);
                            assert(nodes[p].depth > nodes[d].depth);
                        }
                    }
                    assert(holds(nodes, d, i) && scopes(nodes, d, source, name, t));
                }
            },
        }
    }
}

/// `this` has the nearest type around it.
pub proof fn law_this_has_the_nearest_type(
    nodes: Seq<NodeView>,
    i: int,
    source: Seq<char>,
    owner: Option<Seq<char>>,
)
    requires
        0 <= i < nodes.len(),
    ensures
        declared_type_of(nodes, i, source, "this"@) == owner <==> belongs_to(
            nodes,
            i,
            source,
            owner,
        ),
{
    law_the_owner_is_the_nearest_type(nodes, i, source, owner);
}

/// What a scope declares of a name is what is found in it.
proof fn lemma_scope(nodes: Seq<NodeView>, d: int, source: Seq<char>, name: Seq<char>)
    requires
        0 <= d < nodes.len(),
    ensures
        match type_in_scope(nodes, d, source, name) {
            Some(text) => exists|t: int|
                #[trigger] scopes(nodes, d, source, name, t) && text == text_of(nodes, t, source),
            None => forall|t: int| !(#[trigger] scopes(nodes, d, source, name, t)),
        },
{
    lemma_names_a_type(nodes[d].kind);
    lemma_method_like(nodes[d].kind);
    lemma_parameter_scope(nodes, d, source, name);
    lemma_field_scope(nodes, d, source, name);
    lemma_variables(
        nodes,
        d,
        "local_variable_declaration"@,
        source,
        name,
    );
    match type_in_scope(nodes, d, source, name) {
        Some(text) => {
            if type_of_parameter(nodes, d, source, name) is Some {
                let (ps, v, t) = choose|ps: int, v: int, t: int|
                    #[trigger] fills(nodes, d, ps, "parameters"@) && #[trigger] holds_directly(
                        nodes,
                        ps,
                        v,
                    ) && #[trigger] declares_parameter(nodes, v, source, name, t) && text
                        == text_of(nodes, t, source);
                assert(scopes(nodes, d, source, name, t));
            } else if is_type_declaration_kind(nodes[d].kind) {
                let (body, v, t) = choose|body: int, v: int, t: int|
                    #[trigger] fills(nodes, d, body, "body"@) && #[trigger] holds_directly(
                        nodes,
                        body,
                        v,
                    ) && nodes[v].kind == "field_declaration"@ && #[trigger] declares_variable(
                        nodes,
                        v,
                        source,
                        name,
                        t,
                    ) && text == text_of(nodes, t, source);
                assert(scopes(nodes, d, source, name, t));
            } else {
                let (v, t) = choose|v: int, t: int|
                    #[trigger] holds_directly(nodes, d, v) && nodes[v].kind
                        == "local_variable_declaration"@ && #[trigger] declares_variable(
                        nodes,
                        v,
                        source,
                        name,
                        t,
                    ) && text == text_of(nodes, t, source);
                assert(scopes(nodes, d, source, name, t));
            }
        },
        None => {},
    }
}

proof fn lemma_method_like(kind: Seq<char>)
    ensures
        seq![
            "method_declaration"@,
            "constructor_declaration"@,
            "compact_constructor_declaration"@,
        ].contains(kind) <==> is_method_like_kind(kind),
{
    let all = seq![
        "method_declaration"@,
        "constructor_declaration"@,
        "compact_constructor_declaration"@,
    ];
    assert(all[0] == "method_declaration"@ && all[1] == "constructor_declaration"@ && all[2]
        == "compact_constructor_declaration"@);
}

proof fn lemma_variable_type(
    nodes: Seq<NodeView>,
    v: int,
    source: Seq<char>,
    name: Seq<char>,
)
    requires
        0 <= v < nodes.len(),
    ensures
        match variable_type(nodes, v, source, name) {
            Some(text) => exists|t: int|
                #[trigger] declares_variable(nodes, v, source, name, t) && text == text_of(
                    nodes,
                    t,
                    source,
                ),
            None => forall|t: int| !(#[trigger] declares_variable(nodes, v, source, name, t)),
        },
{
    let children = children_of(nodes, v);
    law_children_stand_directly_in_their_parent(nodes, v);
    let found = child_by_field(nodes, v, "type"@);
    let t = if found is Some {
        found->0
    } else {
        0
    };
    law_a_child_fills_its_field(nodes, v, t, "type"@);
    if has_declarator(nodes, children, source, name) {
        let k = choose|k: int|
            0 <= k < children.len() && nodes[#[trigger] children[k]].field == Some("declarator"@)
                && is_named(nodes, children[k], source, name);
        let c = children[k];
        assert(children.contains(c));
        let n = child_by_field(nodes, c, "name"@)->0;
        law_a_child_fills_its_field(nodes, c, n, "name"@);
        if found is Some {
            assert(holds_directly(nodes, v, c) && fills(nodes, c, n, "name"@));
            assert(declares_variable(nodes, v, source, name, t));
        }
    }
    assert forall|u: int| #[trigger]
        declares_variable(nodes, v, source, name, u) implies variable_type(
        nodes,
        v,
        source,
        name,
    ) is Some by {
        law_a_child_fills_its_field(nodes, v, u, "type"@);
        let (c, n) = choose|c: int, n: int|
            #[trigger] holds_directly(nodes, v, c) && nodes[c].field == Some("declarator"@)
                && #[trigger] fills(nodes, c, n, "name"@) && text_of(nodes, n, source) == name;
        law_a_child_fills_its_field(nodes, c, n, "name"@);
        assert(children.contains(c));
        let k = choose|k: int| 0 <= k < children.len() && children[k] == c;
        assert(nodes[children[k]].field == Some("declarator"@) && is_named(
            nodes,
            children[k],
            source,
            name,
        ));
    }
}

proof fn lemma_parameter_type(
    nodes: Seq<NodeView>,
    v: int,
    source: Seq<char>,
    name: Seq<char>,
)
    requires
        0 <= v < nodes.len(),
    ensures
        match parameter_type(nodes, v, source, name) {
            Some(text) => exists|t: int|
                #[trigger] declares_parameter(nodes, v, source, name, t) && text == text_of(
                    nodes,
                    t,
                    source,
                ),
            None => forall|t: int| !(#[trigger] declares_parameter(nodes, v, source, name, t)),
        },
{
    let found = child_by_field(nodes, v, "type"@);
    let named = child_by_field(nodes, v, "name"@);
    let t = if found is Some {
        found->0
    } else {
        0
    };
    let m = if named is Some {
        named->0
    } else {
        0
    };
    law_a_child_fills_its_field(nodes, v, t, "type"@);
    law_a_child_fills_its_field(nodes, v, m, "name"@);
    if parameter_type(nodes, v, source, name) is Some {
        assert(fills(nodes, v, m, "name"@));
        assert(declares_parameter(nodes, v, source, name, t));
    }
    assert forall|u: int| #[trigger]
        declares_parameter(nodes, v, source, name, u) implies parameter_type(
        nodes,
        v,
        source,
        name,
    ) is Some by {
        law_a_child_fills_its_field(nodes, v, u, "type"@);
        let n = choose|n: int|
            #[trigger] fills(nodes, v, n, "name"@) && text_of(nodes, n, source) == name;
        law_a_child_fills_its_field(nodes, v, n, "name"@);
    }
}

proof fn lemma_first_variable(
    nodes: Seq<NodeView>,
    children: Seq<int>,
    kind: Seq<char>,
    source: Seq<char>,
    name: Seq<char>,
)
    ensures
        match first_variable_type(nodes, children, kind, source, name) {
            Some(text) => exists|k: int|
                0 <= k < children.len() && nodes[#[trigger] children[k]].kind == kind
                    && variable_type(nodes, children[k], source, name) == Some(text),
            None => forall|k: int|
                0 <= k < children.len() && nodes[#[trigger] children[k]].kind == kind
                    ==> variable_type(nodes, children[k], source, name) is None,
        },
    decreases children.len(),
{
    if children.len() > 0 {
        let rest = children.skip(1);
        lemma_first_variable(nodes, rest, kind, source, name);
        assert(forall|k: int| 0 <= k < rest.len() ==> rest[k] == children[k + 1]);
        if !(nodes[children[0]].kind == kind && variable_type(
            nodes,
            children[0],
            source,
            name,
        ) is Some) {
            match first_variable_type(nodes, rest, kind, source, name) {
                Some(text) => {
                    let k = choose|k: int|
                        0 <= k < rest.len() && nodes[#[trigger] rest[k]].kind == kind
                            && variable_type(nodes, rest[k], source, name) == Some(text);
                    assert(children[k + 1] == rest[k]);
                },
                None => {
                    assert forall|k: int| 0 <= k < children.len() && nodes[
                    #[trigger] children[k]].kind == kind implies variable_type(
                        nodes,
                        children[k],
                        source,
                        name,
                    ) is None by {
                        if k > 0 {
                            assert(rest[k - 1] == children[k]);
                        }
                    }
                },
            }
        }
    }
}

proof fn lemma_first_parameter(
    nodes: Seq<NodeView>,
    children: Seq<int>,
    source: Seq<char>,
    name: Seq<char>,
)
    ensures
        match first_parameter_type(nodes, children, source, name) {
            Some(text) => exists|k: int|
                0 <= k < children.len() && parameter_type(
                    nodes,
                    #[trigger] children[k],
                    source,
                    name,
                ) == Some(text),
            None => forall|k: int|
                0 <= k < children.len() ==> parameter_type(
                    nodes,
                    #[trigger] children[k],
                    source,
                    name,
                ) is None,
        },
    decreases children.len(),
{
    if children.len() > 0 {
        let rest = children.skip(1);
        lemma_first_parameter(nodes, rest, source, name);
        if parameter_type(nodes, children[0], source, name) is None {
            match first_parameter_type(nodes, rest, source, name) {
                Some(text) => {
                    let k = choose|k: int|
                        0 <= k < rest.len() && parameter_type(
                            nodes,
                            #[trigger] rest[k],
                            source,
                            name,
                        ) == Some(text);
                    assert(children[k + 1] == rest[k]);
                },
                None => {
                    assert forall|k: int| 0 <= k < children.len() implies parameter_type(
                        nodes,
                        #[trigger] children[k],
                        source,
                        name,
                    ) is None by {
                        if k > 0 {
                            assert(rest[k - 1] == children[k]);
                        }
                    }
                },
            }
        }
    }
}

/// The variables that the declarations of a kind in a node declare.
proof fn lemma_variables(
    nodes: Seq<NodeView>,
    d: int,
    kind: Seq<char>,
    source: Seq<char>,
    name: Seq<char>,
)
    requires
        0 <= d < nodes.len(),
    ensures
        match first_variable_type(nodes, children_of(nodes, d), kind, source, name) {
            Some(text) => exists|v: int, t: int|
                #[trigger] holds_directly(nodes, d, v) && nodes[v].kind == kind
                    && #[trigger] declares_variable(nodes, v, source, name, t) && text == text_of(
                    nodes,
                    t,
                    source,
                ),
            None => forall|v: int, t: int|
                #[trigger] holds_directly(nodes, d, v) && nodes[v].kind == kind
                    ==> !(#[trigger] declares_variable(nodes, v, source, name, t)),
        },
{
    let children = children_of(nodes, d);
    law_children_stand_directly_in_their_parent(nodes, d);
    lemma_first_variable(nodes, children, kind, source, name);
    match first_variable_type(nodes, children, kind, source, name) {
        Some(text) => {
            let k = choose|k: int|
                0 <= k < children.len() && nodes[#[trigger] children[k]].kind == kind
                    && variable_type(nodes, children[k], source, name) == Some(text);
            let v = children[k];
            assert(children.contains(v));
            lemma_variable_type(nodes, v, source, name);
            let t = choose|t: int|
                #[trigger] declares_variable(nodes, v, source, name, t) && text == text_of(
                    nodes,
                    t,
                    source,
                );
            assert(holds_directly(nodes, d, v) && declares_variable(nodes, v, source, name, t));
        },
        None => {
            assert forall|v: int, t: int| #[trigger]
                holds_directly(nodes, d, v) && nodes[v].kind == kind implies !(
            #[trigger] declares_variable(nodes, v, source, name, t)) by {
                assert(children.contains(v));
                let k = choose|k: int| 0 <= k < children.len() && children[k] == v;
                assert(nodes[children[k]].kind == kind);
                lemma_variable_type(nodes, v, source, name);
            }
        },
    }
}

proof fn lemma_field_scope(nodes: Seq<NodeView>, d: int, source: Seq<char>, name: Seq<char>)
    requires
        0 <= d < nodes.len(),
    ensures
        match type_of_field(nodes, d, source, name) {
            Some(text) => exists|body: int, v: int, t: int|
                #[trigger] fills(nodes, d, body, "body"@) && #[trigger] holds_directly(
                    nodes,
                    body,
                    v,
                ) && nodes[v].kind == "field_declaration"@ && #[trigger] declares_variable(
                    nodes,
                    v,
                    source,
                    name,
                    t,
                ) && text == text_of(nodes, t, source),
            None => forall|body: int, v: int, t: int|
                #[trigger] fills(nodes, d, body, "body"@) && #[trigger] holds_directly(
                    nodes,
                    body,
                    v,
                ) && nodes[v].kind == "field_declaration"@ ==> !(#[trigger] declares_variable(
                    nodes,
                    v,
                    source,
                    name,
                    t,
                )),
        },
{
    let found = child_by_field(nodes, d, "body"@);
    let body = if found is Some {
        found->0
    } else {
        0
    };
    law_a_child_fills_its_field(nodes, d, body, "body"@);
    assert forall|other: int| #[trigger] fills(nodes, d, other, "body"@) implies found == Some(
        other,
    ) by {
        law_a_child_fills_its_field(nodes, d, other, "body"@);
    }
    if found is Some {
        lemma_variables(nodes, body, "field_declaration"@, source, name);
        if let Some(text) = type_of_field(nodes, d, source, name) {
            let (v, t) = choose|v: int, t: int|
                #[trigger] holds_directly(nodes, body, v) && nodes[v].kind == "field_declaration"@
                    && #[trigger] declares_variable(nodes, v, source, name, t) && text == text_of(
                    nodes,
                    t,
                    source,
                );
            assert(fills(nodes, d, body, "body"@) && holds_directly(nodes, body, v)
                && declares_variable(nodes, v, source, name, t));
        }
    }
}

proof fn lemma_parameter_scope(nodes: Seq<NodeView>, d: int, source: Seq<char>, name: Seq<char>)
    requires
        0 <= d < nodes.len(),
    ensures
        match type_of_parameter(nodes, d, source, name) {
            Some(text) => is_method_like_kind(nodes[d].kind) && exists|ps: int, v: int, t: int|
                #[trigger] fills(nodes, d, ps, "parameters"@) && #[trigger] holds_directly(
                    nodes,
                    ps,
                    v,
                ) && #[trigger] declares_parameter(nodes, v, source, name, t) && text == text_of(
                    nodes,
                    t,
                    source,
                ),
            None => is_method_like_kind(nodes[d].kind) ==> forall|ps: int, v: int, t: int|
                #[trigger] fills(nodes, d, ps, "parameters"@) && #[trigger] holds_directly(
                    nodes,
                    ps,
                    v,
                ) ==> !(#[trigger] declares_parameter(nodes, v, source, name, t)),
        },
{
    let found = child_by_field(nodes, d, "parameters"@);
    let ps = if found is Some {
        found->0
    } else {
        0
    };
    law_a_child_fills_its_field(nodes, d, ps, "parameters"@);
    assert forall|other: int| #[trigger]
        fills(nodes, d, other, "parameters"@) implies found == Some(other) by {
        law_a_child_fills_its_field(nodes, d, other, "parameters"@);
    }
    if found is Some {
        let children = children_of(nodes, ps);
        law_children_stand_directly_in_their_parent(nodes, ps);
        lemma_first_parameter(nodes, children, source, name);
        match first_parameter_type(nodes, children, source, name) {
            Some(text) => {
                let k = choose|k: int|
                    0 <= k < children.len() && parameter_type(
                        nodes,
                        #[trigger] children[k],
                        source,
                        name,
                    ) == Some(text);
                let v = children[k];
                assert(children.contains(v));
                lemma_parameter_type(nodes, v, source, name);
                let t = choose|t: int|
                    #[trigger] declares_parameter(nodes, v, source, name, t) && text == text_of(
                        nodes,
                        t,
                        source,
                    );
                assert(fills(nodes, d, ps, "parameters"@) && holds_directly(nodes, ps, v)
                    && declares_parameter(nodes, v, source, name, t));
            },
            None => {
                assert forall|q: int, v: int, t: int|
                    #[trigger] fills(nodes, d, q, "parameters"@) && #[trigger] holds_directly(
                        nodes,
                        q,
                        v,
                    ) implies !(#[trigger] declares_parameter(nodes, v, source, name, t)) by {
                    assert(children.contains(v));
                    let k = choose|k: int| 0 <= k < children.len() && children[k] == v;
                    lemma_parameter_type(nodes, children[k], source, name);
                }
            },
        }
    }
}

/// Whether a text is a name: none of its characters is white space, a dot or a
/// bracket.
pub open spec fn is_bare(name: Seq<char>) -> bool {
    &&& name.len() > 0
    &&& forall|i: int|
        0 <= i < name.len() ==> {
            let c = #[trigger] name[i];
            !is_whitespace(c) && c != '.' && c != '<' && c != '>' && c != '[' && c != ']'
        }
}

/// The simple name of a type is its bare name: whatever package or outer type,
/// type arguments and brackets stand with it.
pub proof fn law_a_simple_type_is_its_bare_name(
    package: Seq<char>,
    name: Seq<char>,
    arguments: Seq<char>,
)
    requires
        is_bare(name),
        package.len() > 0 && !is_whitespace(package[0]) && !package.contains('<'),
        !arguments.contains('<') && !arguments.contains('>'),
    ensures
        simple_type(name) == name,
        simple_type(package + seq!['.'] + name) == name,
        simple_type(name + seq!['<'] + arguments + seq!['>']) == name,
        simple_type(name + seq![' ', '<'] + arguments + seq!['>']) == name,
        simple_type(package + seq!['.'] + name + seq!['<'] + arguments + seq!['>']) == name,
{
    lemma_simple_type(Seq::empty(), name, Seq::empty(), Seq::empty());
    lemma_simple_type(package + seq!['.'], name, Seq::empty(), Seq::empty());
    let generic = seq!['<'] + arguments + seq!['>'];
    lemma_arguments(arguments);
    assert(Seq::<char>::empty() + name + Seq::empty() + Seq::empty() =~= name);
    assert(package + seq!['.'] + name + Seq::empty() + Seq::empty() =~= package + seq!['.'] + name);
    lemma_simple_type(Seq::empty(), name, Seq::empty(), generic);
    lemma_simple_type(Seq::empty(), name, seq![' '], generic);
    lemma_simple_type(package + seq!['.'], name, Seq::empty(), generic);
    assert(Seq::<char>::empty() + name + Seq::empty() + generic =~= name + seq!['<'] + arguments
        + seq!['>']);
    assert(Seq::<char>::empty() + name + seq![' '] + generic =~= name + seq![' ', '<'] + arguments
        + seq!['>']);
    assert((package + seq!['.']) + name + Seq::empty() + generic =~= package + seq!['.'] + name
        + seq!['<'] + arguments + seq!['>']);
}

/// Brackets behind a type leave its simple name as it is.
pub proof fn law_an_array_has_the_name_of_its_elements(t: Seq<char>)
    requires
        t.len() > 0,
        !is_whitespace(t[0]),
        !is_whitespace(t.last()),
    ensures
        simple_type(t + seq!['[', ']']) == simple_type(t),
{
    let whole = t + seq!['[', ']'];
    lemma_trimmed_is(whole);
    lemma_trimmed_is(t);
    let inner = whole.drop_last();
    assert(inner =~= t + seq!['[']);
    lemma_trimmed_is(inner);
    assert(inner.drop_last() =~= t);
}

proof fn lemma_trimmed_is(s: Seq<char>)
    requires
        s.len() > 0,
        !is_whitespace(s[0]),
        !is_whitespace(s.last()),
    ensures
        trimmed(s) == s,
{
}

proof fn lemma_arguments(arguments: Seq<char>)
    requires
        !arguments.contains('<') && !arguments.contains('>'),
    ensures
        without_arguments(seq!['<'] + arguments + seq!['>'], 0) == Seq::<char>::empty(),
{
    let whole = seq!['<'] + arguments + seq!['>'];
    assert(whole.skip(1) =~= arguments + seq!['>']);
    lemma_inside_arguments(arguments, seq!['>']);
    assert(seq!['>'].skip(1) =~= Seq::empty());
    assert(seq!['>'][0] == '>');
    assert(without_arguments(Seq::empty(), 0) == Seq::<char>::empty());
    assert(without_arguments(seq!['>'], 1) == without_arguments(Seq::empty(), 0));
    assert(whole[0] == '<');
}

proof fn lemma_inside_arguments(arguments: Seq<char>, behind: Seq<char>)
    requires
        !arguments.contains('<') && !arguments.contains('>'),
    ensures
        without_arguments(arguments + behind, 1) == without_arguments(behind, 1),
    decreases arguments.len(),
{
    let whole = arguments + behind;
    if arguments.len() == 0 {
        assert(whole =~= behind);
    } else {
        let rest = arguments.skip(1);
        assert(arguments.contains(arguments[0]));
        assert(whole[0] == arguments[0]);
        assert(whole.skip(1) =~= rest + behind);
        assert forall|c: char| rest.contains(c) implies arguments.contains(c) by {
            let k = choose|k: int| 0 <= k < rest.len() && rest[k] == c;
            assert(arguments[k + 1] == c);
        }
        lemma_inside_arguments(rest, behind);
    }
}

proof fn lemma_outside_arguments(head: Seq<char>, behind: Seq<char>)
    requires
        !head.contains('<'),
    ensures
        without_arguments(head + behind, 0) == head + without_arguments(behind, 0),
    decreases head.len(),
{
    let whole = head + behind;
    if head.len() == 0 {
        assert(whole =~= behind);
        assert(head + without_arguments(behind, 0) =~= without_arguments(behind, 0));
    } else {
        let rest = head.skip(1);
        assert(head.contains(head[0]));
        assert(whole[0] == head[0]);
        assert(whole.skip(1) =~= rest + behind);
        assert forall|c: char| rest.contains(c) implies head.contains(c) by {
            let k = choose|k: int| 0 <= k < rest.len() && rest[k] == c;
            assert(head[k + 1] == c);
        }
        lemma_outside_arguments(rest, behind);
        assert(seq![head[0]] + (rest + without_arguments(behind, 0)) =~= head + without_arguments(
            behind,
            0,
        ));
    }
}

proof fn lemma_simple_type(
    qualifier: Seq<char>,
    name: Seq<char>,
    space: Seq<char>,
    generic: Seq<char>,
)
    requires
        is_bare(name),
        !qualifier.contains('<'),
        qualifier.len() > 0 ==> qualifier.last() == '.' && !is_whitespace(qualifier[0]),
        space.len() == 0 || space == seq![' '],
        space.len() > 0 ==> generic.len() > 0,
        generic.len() > 0 ==> generic.last() == '>',
        without_arguments(generic, 0) == Seq::<char>::empty(),
    ensures
        simple_type(qualifier + name + space + generic) == name,
{
    let whole = qualifier + name + space + generic;
    let head = qualifier + name + space;
    assert(name[0] == name[0] && !is_whitespace(name[0]));
    assert(name[name.len() - 1] == name.last());
    assert(whole[0] == if qualifier.len() > 0 { qualifier[0] } else { name[0] });
    assert(whole.last() == if generic.len() > 0 { generic.last() } else { name.last() });
    lemma_trimmed_is(whole);
    assert(without_brackets(whole) == whole);
    assert(!head.contains('<')) by {
        if head.contains('<') {
            let k = choose|k: int| 0 <= k < head.len() && head[k] == '<';
            if k < qualifier.len() {
                assert(qualifier[k] == '<');
            } else if k < qualifier.len() + name.len() {
                assert(name[k - qualifier.len()] == '<');
            } else {
                assert(space[k - qualifier.len() - name.len()] == '<');
            }
        }
    }
    assert(whole =~= head + generic);
    lemma_outside_arguments(head, generic);
    assert(without_arguments(whole, 0) =~= head);
    let dot = qualifier.len() - 1;
    assert forall|k: int| dot < k < head.len() implies head[k] != '.' by {
        if k < qualifier.len() + name.len() {
            assert(head[k] == name[k - qualifier.len()]);
        } else {
            assert(head[k] == space[k - qualifier.len() - name.len()]);
        }
    }
    if dot >= 0 {
        assert(head[dot] == qualifier.last());
    }
    lemma_is_last_index(head, '.', dot);
    let rest = head.skip(dot + 1);
    assert(rest =~= name + space);
    if space.len() > 0 {
        assert(rest.last() == ' ');
        assert(rest.drop_last() =~= name);
        assert(rest[0] == name[0]);
        assert(is_whitespace(' '));
        assert(crate::text::trim_start(rest) == rest);
        assert(crate::text::trim_end(name) == name);
    } else {
        assert(rest =~= name);
        lemma_trimmed_is(name);
    }
}

} // verus!
