//! The symbols that a document declares.

use crate::protocol::{Range, Uri};
use crate::syntax::{node_range, nodes_of, range_of, tree_nodes};
use crate::syntax_node::{
    NodeView, Nodes, child_by_field, children_of, fills, holds, holds_directly, lacks,
    law_a_child_fills_its_field, law_a_parent_holds_directly,
    law_children_stand_directly_in_their_parent, lemma_parent_from, parent_of, text_of,
};
use crate::text::{
    lemma_text_lt_total, lemma_text_lt_trans, opt_str, opt_text, same_text, text_before, text_lt,
};
use tree_sitter::Tree;
use vstd::prelude::*;

verus! {

#[derive(Debug, Clone, Copy, PartialEq, Eq, Structural)]
pub enum SymbolKind {
    Class,
    Interface,
    Enum,
    Method,
    Constructor,
    Field,
    Import,
}

#[derive(Debug, PartialEq)]
pub struct SymbolInfo {
    pub name: String,
    pub kind: SymbolKind,
    pub uri: Uri,
    pub range: Range,
    pub selection_range: Range,
    /// The simple name of the nearest enclosing class/interface/enum/record
    /// declaring this symbol: `None` for a top-level type or an import, `Some`
    /// for a method/constructor/field. Lets a member-access lookup
    /// (`person.getName()`) narrow same-named candidates to the one actually
    /// declared on the receiver's type, instead of every same-named symbol in
    /// the workspace.
    pub owner: Option<String>,
}

/// What a [`SymbolInfo`] says, as mathematical values.
pub struct SymbolView {
    pub name: Seq<char>,
    pub kind: SymbolKind,
    pub uri: Seq<char>,
    pub range: Range,
    pub selection_range: Range,
    pub owner: Option<Seq<char>>,
}

impl View for SymbolInfo {
    type V = SymbolView;

    open spec fn view(&self) -> SymbolView {
        SymbolView {
            name: self.name@,
            kind: self.kind,
            uri: self.uri@,
            range: self.range,
            selection_range: self.selection_range,
            owner: opt_text(self.owner),
        }
    }
}

impl Clone for SymbolInfo {
    fn clone(&self) -> (r: Self)
        ensures
            r == *self,
    {
        SymbolInfo {
            name: self.name.clone(),
            kind: self.kind,
            uri: self.uri.clone(),
            range: self.range,
            selection_range: self.selection_range,
            owner: match &self.owner {
                Some(owner) => Some(owner.clone()),
                None => None,
            },
        }
    }
}

/// The symbols of a list, as mathematical values.
pub open spec fn symbol_views(list: Seq<SymbolInfo>) -> Seq<SymbolView> {
    list.map_values(|s: SymbolInfo| s@)
}

/// The symbols that a list of references refers to, as mathematical values.
pub open spec fn symbol_ref_views(list: Seq<&SymbolInfo>) -> Seq<SymbolView> {
    list.map_values(|s: &SymbolInfo| s@)
}

// ---------------------------------------------------------------------------
// Relevance
// ---------------------------------------------------------------------------

/// Whether one symbol is more relevant than another: a declaration before an
/// import, then by URI, line and character.
pub open spec fn more_relevant(a: SymbolView, b: SymbolView) -> bool {
    let (x, y) = (a.kind == SymbolKind::Import, b.kind == SymbolKind::Import);
    let (p, q) = (a.selection_range.start, b.selection_range.start);
    if x != y {
        !x
    } else if a.uri != b.uri {
        text_lt(a.uri, b.uri)
    } else if p.line != q.line {
        p.line < q.line
    } else {
        p.character < q.character
    }
}

/// Whether the symbol at `i` is the most relevant: none is more relevant than
/// it, and none before it is as relevant.
pub open spec fn is_best(symbols: Seq<SymbolView>, i: int) -> bool {
    &&& 0 <= i < symbols.len()
    &&& forall|j: int| 0 <= j < symbols.len() ==> !more_relevant(#[trigger] symbols[j], symbols[i])
    &&& forall|j: int| 0 <= j < i ==> more_relevant(symbols[i], #[trigger] symbols[j])
}

/// A sort key that deterministically orders same-named symbols so that a real
/// declaration is preferred over an `Import` reference, with the remaining ties
/// broken by URI and position: independent of index insertion order, which
/// itself depends on background scan/reindex completion order and filesystem
/// directory-read order.
pub fn relevance_key(symbol: &SymbolInfo) -> (r: (bool, &str, u32, u32))
    ensures
        r.0 == (symbol.kind == SymbolKind::Import),
        r.1@ == symbol@.uri,
        r.2 == symbol.selection_range.start.line,
        r.3 == symbol.selection_range.start.character,
{
    (
        symbol.kind == SymbolKind::Import,
        symbol.uri.as_str(),
        symbol.selection_range.start.line,
        symbol.selection_range.start.character,
    )
}

/// Whether `a` is more relevant than `b`.
pub fn is_more_relevant(a: &SymbolInfo, b: &SymbolInfo) -> (r: bool)
    ensures
        r == more_relevant(a@, b@),
{
    let (import_a, uri_a, line_a, character_a) = relevance_key(a);
    let (import_b, uri_b, line_b, character_b) = relevance_key(b);
    if import_a != import_b {
        !import_a
    } else if !same_text(uri_a, uri_b) {
        text_before(uri_a, uri_b)
    } else if line_a != line_b {
        line_a < line_b
    } else {
        character_a < character_b
    }
}

pub proof fn lemma_more_relevant_order(a: SymbolView, b: SymbolView, c: SymbolView)
    ensures
        !more_relevant(a, a),
        !(more_relevant(a, b) && more_relevant(b, a)),
        more_relevant(a, b) && more_relevant(b, c) ==> more_relevant(a, c),
        !more_relevant(b, a) && more_relevant(b, c) ==> more_relevant(a, c),
        more_relevant(a, b) && !more_relevant(c, b) ==> more_relevant(a, c),
{
    lemma_text_lt_total(a.uri, b.uri);
    lemma_text_lt_total(b.uri, c.uri);
    lemma_text_lt_total(a.uri, c.uri);
    if text_lt(a.uri, b.uri) && text_lt(b.uri, c.uri) {
        lemma_text_lt_trans(a.uri, b.uri, c.uri);
    }
    if text_lt(b.uri, a.uri) && text_lt(a.uri, c.uri) {
        lemma_text_lt_trans(b.uri, a.uri, c.uri);
    }
    if text_lt(c.uri, a.uri) && text_lt(a.uri, b.uri) {
        lemma_text_lt_trans(c.uri, a.uri, b.uri);
    }
    if text_lt(b.uri, c.uri) && text_lt(c.uri, a.uri) {
        lemma_text_lt_trans(b.uri, c.uri, a.uri);
    }
}

/// The most relevant symbol among same-named candidates, per
/// [`relevance_key`].
pub fn best_match<'a>(symbols: &Vec<&'a SymbolInfo>) -> (r: Option<&'a SymbolInfo>)
    ensures
        match r {
            Some(best) => exists|i: int|
                is_best(symbol_ref_views(symbols@), i) && *best == *#[trigger] symbols@[i],
            None => symbols@.len() == 0,
        },
{
    if symbols.len() == 0 {
        return None;
    }
    let ghost views = symbol_ref_views(symbols@);
    let mut best: usize = 0;
    let mut i: usize = 1;
    proof {
        lemma_more_relevant_order(views[0], views[0], views[0]);
    }
    while i < symbols.len()
        invariant
            1 <= i <= symbols.len(),
            best < i,
            views == symbol_ref_views(symbols@),
            is_best(views.take(i as int), best as int),
        decreases symbols.len() - i,
    {
        let ghost seen = views.take(i as int);
        let ghost now = views.take(i + 1);
        let ghost before = best as int;
        let replaces = is_more_relevant(symbols[i], symbols[best]);
        proof {
            assert(now =~= seen.push(views[i as int]));
            lemma_more_relevant_order(views[i as int], views[i as int], views[i as int]);
            assert forall|j: int| 0 <= j < i && replaces implies more_relevant(
                views[i as int],
                #[trigger] now[j],
            ) && !more_relevant(now[j], views[i as int]) by {
                assert(!more_relevant(seen[j], seen[before]));
                lemma_more_relevant_order(views[i as int], views[before], now[j]);
                lemma_more_relevant_order(now[j], views[i as int], now[j]);
            }
            if !replaces {
                assert forall|j: int| 0 <= j < now.len() implies !more_relevant(
                    #[trigger] now[j],
                    now[before],
                ) by {
                    if j < i {
                        assert(seen[j] == now[j]);
                    }
                }
                assert forall|j: int| 0 <= j < before implies more_relevant(
                    now[before],
                    #[trigger] now[j],
                ) by {
                    assert(seen[j] == now[j]);
                }
            }
        }
        if replaces {
            best = i;
        }
        i += 1;
    }
    assert(views.take(i as int) =~= views);
    Some(symbols[best])
}

/// Which most relevant symbol there is does not hang on the order of the
/// candidates: two orders of the same candidates give symbols of equal
/// relevance.
pub proof fn law_best_match_does_not_depend_on_order(
    a: Seq<SymbolView>,
    b: Seq<SymbolView>,
    i: int,
    j: int,
)
    requires
        a.to_multiset() == b.to_multiset(),
        is_best(a, i),
        is_best(b, j),
    ensures
        !more_relevant(a[i], b[j]),
        !more_relevant(b[j], a[i]),
{
    broadcast use vstd::seq_lib::group_to_multiset_ensures;

    assert(a.contains(a[i]));
    assert(b.contains(b[j]));
    assert(b.to_multiset().count(a[i]) > 0);
    assert(a.to_multiset().count(b[j]) > 0);
    assert(b.contains(a[i]));
    assert(a.contains(b[j]));
}

/// An import is the most relevant symbol only where every candidate is one.
pub proof fn law_declaration_beats_import(symbols: Seq<SymbolView>, i: int)
    requires
        is_best(symbols, i),
        symbols[i].kind == SymbolKind::Import,
    ensures
        forall|j: int| 0 <= j < symbols.len() ==> (#[trigger] symbols[j]).kind
            == SymbolKind::Import,
{
    assert forall|j: int| 0 <= j < symbols.len() implies (#[trigger] symbols[j]).kind
        == SymbolKind::Import by {
        assert(!more_relevant(symbols[j], symbols[i]));
    }
}

// ---------------------------------------------------------------------------
// Narrowing
// ---------------------------------------------------------------------------

/// Whether a symbol is declared on a type.
pub open spec fn owned_by(symbol: SymbolView, receiver_type: Seq<char>) -> bool {
    symbol.owner == Some(receiver_type)
}

/// The candidates declared on the receiver's type, or all where the type is not
/// known or declares none of them.
pub open spec fn narrowed(
    candidates: Seq<SymbolView>,
    receiver_type: Option<Seq<char>>,
) -> Seq<SymbolView> {
    match receiver_type {
        Some(t) => {
            let owned = candidates.filter(|s: SymbolView| owned_by(s, t));
            if owned.len() > 0 {
                owned
            } else {
                candidates
            }
        },
        None => candidates,
    }
}

/// Whether the symbol's owner is the given type.
pub fn is_owned_by(symbol: &SymbolInfo, receiver_type: &str) -> (r: bool)
    ensures
        r == owned_by(symbol@, receiver_type@),
{
    match &symbol.owner {
        Some(owner) => same_text(owner.as_str(), receiver_type),
        None => false,
    }
}

/// Narrows `candidates` to those declared on `receiver_type`, when given and
/// when at least one candidate actually matches it; otherwise every candidate
/// is returned unfiltered (e.g. an inherited member not owned by the receiver's
/// own class, or a receiver type that couldn't be resolved at all). Shared by
/// goto-definition and hover so a qualified reference (`person.getName()`)
/// narrows to the one symbol actually declared on the receiver's type instead
/// of every same-named symbol in the workspace.
pub fn narrow_to_receiver_type<'a>(
    candidates: &'a [SymbolInfo],
    receiver_type: Option<&str>,
) -> (r: Vec<&'a SymbolInfo>)
    ensures
        symbol_ref_views(r@) == narrowed(symbol_views(candidates@), opt_str(receiver_type)),
{
    let ghost views = symbol_views(candidates@);
    if let Some(receiver_type) = receiver_type {
        let ghost pred = |s: SymbolView| owned_by(s, receiver_type@);
        let mut owned: Vec<&'a SymbolInfo> = Vec::new();
        let mut i: usize = 0;
        proof {
            assert(views.take(0) =~= Seq::empty());
            assert(Seq::<SymbolView>::empty().filter(pred) =~= Seq::empty()) by {
                reveal(Seq::filter);
            }
            assert(symbol_ref_views(owned@) =~= Seq::empty());
        }
        while i < candidates.len()
            invariant
                i <= candidates.len(),
                views == symbol_views(candidates@),
                pred == (|s: SymbolView| owned_by(s, receiver_type@)),
                symbol_ref_views(owned@) == views.take(i as int).filter(pred),
            decreases candidates.len() - i,
        {
            let ghost before = owned@;
            proof {
                assert(views.take(i + 1) =~= views.take(i as int).push(views[i as int]));
                views.take(i as int).lemma_filter_push(views[i as int], pred);
            }
            if is_owned_by(&candidates[i], receiver_type) {
                owned.push(&candidates[i]);
                assert(symbol_ref_views(owned@) =~= symbol_ref_views(before).push(
                    views[i as int],
                ));
            }
            i += 1;
        }
        assert(views.take(i as int) =~= views);
        assert(symbol_ref_views(owned@).len() == owned@.len());
        if owned.len() > 0 {
            return owned;
        }
    }
    let mut all: Vec<&'a SymbolInfo> = Vec::new();
    let mut i: usize = 0;
    while i < candidates.len()
        invariant
            i <= candidates.len(),
            views == symbol_views(candidates@),
            symbol_ref_views(all@) =~= views.take(i as int),
        decreases candidates.len() - i,
    {
        let ghost before = all@;
        all.push(&candidates[i]);
        assert(symbol_ref_views(all@) =~= symbol_ref_views(before).push(views[i as int]));
        i += 1;
    }
    assert(views.take(i as int) =~= views);
    all
}

/// Narrowing keeps candidates, and only those of the receiver's type wherever
/// that type declares any; it never turns some candidates into none.
pub proof fn law_narrowing_never_empties(
    candidates: Seq<SymbolView>,
    receiver_type: Option<Seq<char>>,
)
    ensures
        candidates.len() > 0 ==> narrowed(candidates, receiver_type).len() > 0,
        forall|i: int|
            0 <= i < narrowed(candidates, receiver_type).len() ==> candidates.contains(
                #[trigger] narrowed(candidates, receiver_type)[i],
            ),
        receiver_type is Some && (exists|i: int|
            0 <= i < candidates.len() && owned_by(#[trigger] candidates[i], receiver_type->0))
            ==> forall|i: int|
            0 <= i < narrowed(candidates, receiver_type).len() ==> owned_by(
                #[trigger] narrowed(candidates, receiver_type)[i],
                receiver_type->0,
            ),
{
    broadcast use vstd::seq_lib::group_filter_ensures;

    if let Some(t) = receiver_type {
        let pred = |s: SymbolView| owned_by(s, t);
        let owned = candidates.filter(pred);
        assert forall|i: int| 0 <= i < candidates.len() && owned_by(
            #[trigger] candidates[i],
            t,
        ) implies owned.len() > 0 by {
            candidates.lemma_filter_contains(pred, i);
        }
        assert forall|i: int| 0 <= i < owned.len() implies owned_by(#[trigger] owned[i], t)
            && candidates.contains(owned[i]) by {
            candidates.lemma_filter_pred(pred, i);
            candidates.lemma_filter_contains_rev(pred, owned[i]);
        }
    }
}

// ---------------------------------------------------------------------------
// Extraction
// ---------------------------------------------------------------------------

pub open spec fn is_type_declaration_kind(kind: Seq<char>) -> bool {
    kind == "class_declaration"@ || kind == "interface_declaration"@ || kind
        == "enum_declaration"@ || kind == "record_declaration"@
}

pub open spec fn is_constructor_kind(kind: Seq<char>) -> bool {
    kind == "constructor_declaration"@ || kind == "compact_constructor_declaration"@
}

pub open spec fn is_path_kind(kind: Seq<char>) -> bool {
    kind == "scoped_identifier"@ || kind == "identifier"@
}

pub open spec fn declared_kind(kind: Seq<char>) -> SymbolKind {
    if kind == "interface_declaration"@ {
        SymbolKind::Interface
    } else if kind == "enum_declaration"@ {
        SymbolKind::Enum
    } else {
        SymbolKind::Class
    }
}

/// The name that the node at `i` declares.
pub open spec fn name_of(nodes: Seq<NodeView>, i: int, source: Seq<char>) -> Option<Seq<char>> {
    match child_by_field(nodes, i, "name"@) {
        Some(n) => Some(text_of(nodes, n, source)),
        None => None,
    }
}

/// The index of the nearest type declaration around the node at `i`, or -1.
pub open spec fn enclosing_type(nodes: Seq<NodeView>, i: int) -> int
    decreases i,
{
    let p = parent_of(nodes, i);
    if !(0 <= p < i) {
        -1
    } else if is_type_declaration_kind(nodes[p].kind) {
        p
    } else {
        enclosing_type(nodes, p)
    }
}

/// The name of the nearest type declaration around the node at `i`; a
/// declaration without a name (mid-edit) still counts as the nearest.
pub open spec fn owner_of(nodes: Seq<NodeView>, i: int, source: Seq<char>) -> Option<Seq<char>> {
    if enclosing_type(nodes, i) < 0 {
        None
    } else {
        name_of(nodes, enclosing_type(nodes, i), source)
    }
}

/// The symbol whose name stands at `name` and whose declaration at `whole`.
pub open spec fn symbol_at(
    nodes: Seq<NodeView>,
    source: Seq<char>,
    uri: Seq<char>,
    name: int,
    whole: int,
    kind: SymbolKind,
    owner: Option<Seq<char>>,
) -> SymbolView {
    SymbolView {
        name: text_of(nodes, name, source),
        kind,
        uri,
        range: range_of(nodes, whole, source),
        selection_range: range_of(nodes, name, source),
        owner,
    }
}

/// The symbol of a declaration with a name.
pub open spec fn named_symbol(
    nodes: Seq<NodeView>,
    source: Seq<char>,
    uri: Seq<char>,
    i: int,
    kind: SymbolKind,
) -> Seq<SymbolView> {
    match child_by_field(nodes, i, "name"@) {
        Some(n) => seq![symbol_at(nodes, source, uri, n, i, kind, owner_of(nodes, i, source))],
        None => Seq::empty(),
    }
}

/// The symbols of the declarators among the children of the field declaration
/// at `i`.
pub open spec fn field_symbols(
    nodes: Seq<NodeView>,
    source: Seq<char>,
    uri: Seq<char>,
    i: int,
    children: Seq<int>,
) -> Seq<SymbolView>
    decreases children.len(),
{
    if children.len() == 0 {
        Seq::empty()
    } else {
        let before = field_symbols(nodes, source, uri, i, children.drop_last());
        let c = children.last();
        if nodes[c].field == Some("declarator"@) {
            match child_by_field(nodes, c, "name"@) {
                Some(n) => before.push(
                    symbol_at(
                        nodes,
                        source,
                        uri,
                        n,
                        i,
                        SymbolKind::Field,
                        owner_of(nodes, i, source),
                    ),
                ),
                None => before,
            }
        } else {
            before
        }
    }
}

/// The last of the children that is a path, or -1.
pub open spec fn last_path(nodes: Seq<NodeView>, children: Seq<int>) -> int
    decreases children.len(),
{
    if children.len() == 0 {
        -1
    } else if is_path_kind(nodes[children.last()].kind) {
        children.last()
    } else {
        last_path(nodes, children.drop_last())
    }
}

/// Whether a child is the `*` of a wildcard import.
pub open spec fn has_wildcard(nodes: Seq<NodeView>, children: Seq<int>) -> bool {
    exists|k: int| 0 <= k < children.len() && nodes[#[trigger] children[k]].kind == "asterisk"@
}

/// The symbol of an import: the last segment of the path, none for a wildcard.
pub open spec fn import_symbol(
    nodes: Seq<NodeView>,
    source: Seq<char>,
    uri: Seq<char>,
    i: int,
) -> Seq<SymbolView> {
    let children = children_of(nodes, i);
    let path = last_path(nodes, children);
    if has_wildcard(nodes, children) || path < 0 {
        Seq::empty()
    } else {
        let name = match child_by_field(nodes, path, "name"@) {
            Some(n) => n,
            None => path,
        };
        seq![symbol_at(nodes, source, uri, name, i, SymbolKind::Import, None)]
    }
}

/// The symbols that the node at `i` declares itself.
pub open spec fn node_symbols(
    nodes: Seq<NodeView>,
    source: Seq<char>,
    uri: Seq<char>,
    i: int,
) -> Seq<SymbolView> {
    let kind = nodes[i].kind;
    if is_type_declaration_kind(kind) {
        named_symbol(nodes, source, uri, i, declared_kind(kind))
    } else if kind == "method_declaration"@ {
        named_symbol(nodes, source, uri, i, SymbolKind::Method)
    } else if is_constructor_kind(kind) {
        named_symbol(nodes, source, uri, i, SymbolKind::Constructor)
    } else if kind == "field_declaration"@ {
        field_symbols(nodes, source, uri, i, children_of(nodes, i))
    } else if kind == "import_declaration"@ {
        import_symbol(nodes, source, uri, i)
    } else {
        Seq::empty()
    }
}

/// The symbols that the first `n` nodes declare, in document order.
pub open spec fn symbols_of(
    nodes: Seq<NodeView>,
    source: Seq<char>,
    uri: Seq<char>,
    n: int,
) -> Seq<SymbolView>
    decreases n,
{
    if n <= 0 {
        Seq::empty()
    } else {
        symbols_of(nodes, source, uri, n - 1) + node_symbols(nodes, source, uri, n - 1)
    }
}

/// The symbols that a document declares, in document order.
pub open spec fn document_symbols(nodes: Seq<NodeView>, source: Seq<char>, uri: Seq<char>) -> Seq<
    SymbolView,
> {
    symbols_of(nodes, source, uri, nodes.len() as int)
}

/// Whether the node declares a class, an interface, an enum or a record.
pub fn is_type_declaration(nodes: &Nodes, i: usize) -> (r: bool)
    requires
        i < nodes@.len(),
    ensures
        r == is_type_declaration_kind(nodes@[i as int].kind),
{
    nodes.is_kind(i, "class_declaration") || nodes.is_kind(i, "interface_declaration")
        || nodes.is_kind(i, "enum_declaration") || nodes.is_kind(i, "record_declaration")
}

/// Whether the node is a name or a dotted path.
pub fn is_path(nodes: &Nodes, i: usize) -> (r: bool)
    requires
        i < nodes@.len(),
    ensures
        r == is_path_kind(nodes@[i as int].kind),
{
    nodes.is_kind(i, "scoped_identifier") || nodes.is_kind(i, "identifier")
}

fn type_declaration_kind(nodes: &Nodes, i: usize) -> (r: SymbolKind)
    requires
        i < nodes@.len(),
    ensures
        r == declared_kind(nodes@[i as int].kind),
{
    if nodes.is_kind(i, "interface_declaration") {
        SymbolKind::Interface
    } else if nodes.is_kind(i, "enum_declaration") {
        SymbolKind::Enum
    } else {
        SymbolKind::Class
    }
}

/// The name of the nearest type declaration around a node.
pub fn owner_name(nodes: &Nodes, i: usize, source: &str) -> (r: Option<String>)
    requires
        nodes.wf(),
        i < nodes@.len(),
    ensures
        opt_text(r) == owner_of(nodes@, i as int, source@),
{
    let mut at: usize = i;
    loop
        invariant
            nodes.wf(),
            at < nodes@.len(),
            enclosing_type(nodes@, i as int) == enclosing_type(nodes@, at as int),
        decreases at,
    {
        match nodes.parent(at) {
            None => {
                return None;
            },
            Some(p) => {
                if is_type_declaration(nodes, p) {
                    return match nodes.child_by_field_name(p, "name") {
                        Some(n) => Some(nodes.text(n, source)),
                        None => None,
                    };
                }
                at = p;
            },
        }
    }
}

fn symbol(
    nodes: &Nodes,
    source: &str,
    uri: &Uri,
    name: usize,
    whole: usize,
    kind: SymbolKind,
    owner: Option<String>,
) -> (r: SymbolInfo)
    requires
        name < nodes@.len(),
        whole < nodes@.len(),
    ensures
        r@ == symbol_at(
            nodes@,
            source@,
            uri@,
            name as int,
            whole as int,
            kind,
            opt_text(owner),
        ),
{
    SymbolInfo {
        name: nodes.text(name, source),
        kind,
        uri: uri.clone(),
        range: node_range(nodes, whole, source),
        selection_range: node_range(nodes, name, source),
        owner,
    }
}

fn push_symbol(symbols: &mut Vec<SymbolInfo>, symbol: SymbolInfo)
    ensures
        symbol_views(final(symbols)@) == symbol_views(old(symbols)@).push(symbol@),
{
    symbols.push(symbol);
    assert(symbol_views(symbols@) =~= symbol_views(old(symbols)@).push(symbol@));
}

/// Pushes the symbol of a declaration, if it has a name.
fn push_named(
    nodes: &Nodes,
    source: &str,
    uri: &Uri,
    i: usize,
    kind: SymbolKind,
    symbols: &mut Vec<SymbolInfo>,
)
    requires
        nodes.wf(),
        i < nodes@.len(),
    ensures
        symbol_views(final(symbols)@) == symbol_views(old(symbols)@) + named_symbol(
            nodes@,
            source@,
            uri@,
            i as int,
            kind,
        ),
{
    let ghost before = symbol_views(symbols@);
    match nodes.child_by_field_name(i, "name") {
        Some(n) => {
            let owner = owner_name(nodes, i, source);
            let info = symbol(nodes, source, uri, n, i, kind, owner);
            assert(before.push(info@) =~= before + seq![info@]);
            push_symbol(symbols, info);
        },
        None => {
            assert(before + Seq::empty() =~= before);
        },
    }
}

fn push_field_declarators(
    nodes: &Nodes,
    source: &str,
    uri: &Uri,
    i: usize,
    symbols: &mut Vec<SymbolInfo>,
)
    requires
        nodes.wf(),
        i < nodes@.len(),
    ensures
        symbol_views(final(symbols)@) == symbol_views(old(symbols)@) + field_symbols(
            nodes@,
            source@,
            uri@,
            i as int,
            children_of(nodes@, i as int),
        ),
{
    let ghost before = symbol_views(symbols@);
    let children = nodes.children(i);
    let ghost all = children@.map_values(|c: usize| c as int);
    let mut k: usize = 0;
    assert(all.take(0) =~= Seq::empty());
    assert(before + Seq::empty() =~= before);
    while k < children.len()
        invariant
            k <= children.len(),
            nodes.wf(),
            i < nodes@.len(),
            all == children@.map_values(|c: usize| c as int),
            forall|m: int| 0 <= m < children@.len() ==> i < #[trigger] children@[m] < nodes@.len(),
            symbol_views(symbols@) == before + field_symbols(
                nodes@,
                source@,
                uri@,
                i as int,
                all.take(k as int),
            ),
        decreases children.len() - k,
    {
        let c: usize = children[k];
        let ghost so_far = field_symbols(nodes@, source@, uri@, i as int, all.take(k as int));
        proof {
            assert(all.take(k + 1).drop_last() =~= all.take(k as int));
            assert(all.take(k + 1).last() == c);
        }
        if nodes.has_field(c, "declarator") {
            if let Some(n) = nodes.child_by_field_name(c, "name") {
                let owner = owner_name(nodes, i, source);
                let info = symbol(nodes, source, uri, n, i, SymbolKind::Field, owner);
                assert((before + so_far).push(info@) =~= before + so_far.push(info@));
                push_symbol(symbols, info);
            }
        }
        k += 1;
    }
    assert(all.take(k as int) =~= all);
}

fn push_import(
    nodes: &Nodes,
    source: &str,
    uri: &Uri,
    i: usize,
    symbols: &mut Vec<SymbolInfo>,
)
    requires
        nodes.wf(),
        i < nodes@.len(),
    ensures
        symbol_views(final(symbols)@) == symbol_views(old(symbols)@) + import_symbol(
            nodes@,
            source@,
            uri@,
            i as int,
        ),
{
    let ghost before = symbol_views(symbols@);
    let children = nodes.children(i);
    let ghost all = children@.map_values(|c: usize| c as int);
    let mut wildcard = false;
    let mut path: Option<usize> = None;
    let mut k: usize = 0;
    assert(all.take(0) =~= Seq::empty());
    assert(before + Seq::empty() =~= before);
    while k < children.len()
        invariant
            k <= children.len(),
            all == children@.map_values(|c: usize| c as int),
            forall|m: int| 0 <= m < children@.len() ==> i < #[trigger] children@[m] < nodes@.len(),
            wildcard == has_wildcard(nodes@, all.take(k as int)),
            match path {
                Some(p) => last_path(nodes@, all.take(k as int)) == p && p < nodes@.len(),
                None => last_path(nodes@, all.take(k as int)) == -1,
            },
        decreases children.len() - k,
    {
        let c: usize = children[k];
        let ghost seen = all.take(k as int);
        let ghost now = all.take(k + 1);
        proof {
            assert(now.drop_last() =~= seen);
            assert(now.last() == c);
            assert forall|m: int| 0 <= m < seen.len() implies now[m] == seen[m] by {}
            if has_wildcard(nodes@, seen) {
                let m = choose|m: int| 0 <= m < seen.len() && nodes@[#[trigger] seen[m]].kind
                    == "asterisk"@;
                assert(nodes@[now[m]].kind == "asterisk"@);
            }
            if has_wildcard(nodes@, now) {
                let m = choose|m: int| 0 <= m < now.len() && nodes@[#[trigger] now[m]].kind
                    == "asterisk"@;
                if m < seen.len() {
                    assert(nodes@[seen[m]].kind == "asterisk"@);
                }
            }
            assert(nodes@[c as int].kind == "asterisk"@ ==> nodes@[now[k as int]].kind
                == "asterisk"@);
        }
        if nodes.is_kind(c, "asterisk") {
            wildcard = true;
        }
        if is_path(nodes, c) {
            path = Some(c);
        }
        k += 1;
    }
    assert(all.take(k as int) =~= all);
    if wildcard {
        return;
    }
    if let Some(p) = path {
        let name: usize = match nodes.child_by_field_name(p, "name") {
            Some(n) => n,
            None => p,
        };
        let info = symbol(nodes, source, uri, name, i, SymbolKind::Import, None);
        assert(before.push(info@) =~= before + seq![info@]);
        push_symbol(symbols, info);
    }
}

/// Pushes the symbols that one node declares itself. A type declaration's own
/// symbol is owned by its *enclosing* type; its members are owned by it.
fn push_node_symbols(
    nodes: &Nodes,
    source: &str,
    uri: &Uri,
    i: usize,
    symbols: &mut Vec<SymbolInfo>,
)
    requires
        nodes.wf(),
        i < nodes@.len(),
    ensures
        symbol_views(final(symbols)@) == symbol_views(old(symbols)@) + node_symbols(
            nodes@,
            source@,
            uri@,
            i as int,
        ),
{
    if is_type_declaration(nodes, i) {
        push_named(nodes, source, uri, i, type_declaration_kind(nodes, i), symbols);
    } else if nodes.is_kind(i, "method_declaration") {
        push_named(nodes, source, uri, i, SymbolKind::Method, symbols);
    } else if nodes.is_kind(i, "constructor_declaration") || nodes.is_kind(
        i,
        "compact_constructor_declaration",
    ) {
        push_named(nodes, source, uri, i, SymbolKind::Constructor, symbols);
    } else if nodes.is_kind(i, "field_declaration") {
        push_field_declarators(nodes, source, uri, i, symbols);
    } else if nodes.is_kind(i, "import_declaration") {
        push_import(nodes, source, uri, i, symbols);
    } else {
        assert(symbol_views(symbols@) + Seq::empty() =~= symbol_views(symbols@));
    }
}

/// The symbols that a document with these nodes declares.
pub fn walk(nodes: &Nodes, uri: &Uri, source: &str) -> (r: Vec<SymbolInfo>)
    requires
        nodes.wf(),
    ensures
        symbol_views(r@) == document_symbols(nodes@, source@, uri@),
{
    let mut symbols: Vec<SymbolInfo> = Vec::new();
    let mut i: usize = 0;
    assert(symbol_views(symbols@) =~= Seq::empty());
    while i < nodes.len()
        invariant
            i <= nodes@.len(),
            nodes.wf(),
            symbol_views(symbols@) == symbols_of(nodes@, source@, uri@, i as int),
        decreases nodes@.len() - i,
    {
        push_node_symbols(nodes, source, uri, i, &mut symbols);
        i += 1;
    }
    symbols
}

/// The symbols that a document declares, in document order.
pub fn extract_symbols(uri: &Uri, source: &str, tree: &Tree) -> (r: Vec<SymbolInfo>)
    ensures
        symbol_views(r@) == document_symbols(tree_nodes(*tree), source@, uri@),
{
    walk(&nodes_of(tree), uri, source)
}

/// Every symbol of a document carries the document's name, and no import has an
/// owner.
pub proof fn law_symbols_carry_their_document(
    nodes: Seq<NodeView>,
    source: Seq<char>,
    uri: Seq<char>,
)
    ensures
        forall|i: int|
            0 <= i < document_symbols(nodes, source, uri).len() ==> {
                let s = #[trigger] document_symbols(nodes, source, uri)[i];
                s.uri == uri && (s.kind == SymbolKind::Import ==> s.owner is None)
            },
{
    lemma_symbols_carry(nodes, source, uri, nodes.len() as int);
}

proof fn lemma_symbols_carry(nodes: Seq<NodeView>, source: Seq<char>, uri: Seq<char>, n: int)
    ensures
        forall|i: int|
            0 <= i < symbols_of(nodes, source, uri, n).len() ==> {
                let s = #[trigger] symbols_of(nodes, source, uri, n)[i];
                s.uri == uri && (s.kind == SymbolKind::Import ==> s.owner is None)
            },
    decreases n,
{
    if n > 0 {
        lemma_symbols_carry(nodes, source, uri, n - 1);
        let before = symbols_of(nodes, source, uri, n - 1);
        let here = node_symbols(nodes, source, uri, n - 1);
        lemma_field_symbols_carry(nodes, source, uri, n - 1, children_of(nodes, n - 1));
        assert forall|i: int| 0 <= i < (before + here).len() implies {
            let s = #[trigger] (before + here)[i];
            s.uri == uri && (s.kind == SymbolKind::Import ==> s.owner is None)
        } by {
            if i < before.len() {
                assert((before + here)[i] == before[i]);
            } else {
                assert((before + here)[i] == here[i - before.len()]);
            }
        }
    }
}

proof fn lemma_field_symbols_carry(
    nodes: Seq<NodeView>,
    source: Seq<char>,
    uri: Seq<char>,
    i: int,
    children: Seq<int>,
)
    ensures
        forall|k: int|
            0 <= k < field_symbols(nodes, source, uri, i, children).len() ==> {
                let s = #[trigger] field_symbols(nodes, source, uri, i, children)[k];
                s.uri == uri && s.kind == SymbolKind::Field
            },
    decreases children.len(),
{
    if children.len() > 0 {
        lemma_field_symbols_carry(nodes, source, uri, i, children.drop_last());
    }
}

/// Whether the node at `d` is the nearest class, interface, enum or record
/// around the node at `i`.
pub open spec fn nearest_type(nodes: Seq<NodeView>, d: int, i: int) -> bool {
    &&& holds(nodes, d, i)
    &&& names_a_type(nodes[d].kind)
    &&& forall|e: int| d < e && #[trigger] holds(nodes, e, i) ==> !names_a_type(nodes[e].kind)
}

/// Whether a kind is that of a class, an interface, an enum or a record.
pub open spec fn names_a_type(kind: Seq<char>) -> bool {
    seq![
        "class_declaration"@,
        "interface_declaration"@,
        "enum_declaration"@,
        "record_declaration"@,
    ].contains(kind)
}

/// Whether no type stands around the node at `i`.
pub open spec fn in_no_type(nodes: Seq<NodeView>, i: int) -> bool {
    forall|d: int| #[trigger] holds(nodes, d, i) ==> !names_a_type(nodes[d].kind)
}

/// Whether what the node at `i` declares belongs to a type of this name: that
/// of the nearest type around it. It belongs to none where there is no type
/// around it, or where the nearest has no name.
pub open spec fn belongs_to(
    nodes: Seq<NodeView>,
    i: int,
    source: Seq<char>,
    owner: Option<Seq<char>>,
) -> bool {
    match owner {
        Some(name) => exists|d: int, m: int|
            #[trigger] nearest_type(nodes, d, i) && #[trigger] fills(nodes, d, m, "name"@) && name
                == text_of(nodes, m, source),
        None => in_no_type(nodes, i) || exists|d: int|
            #[trigger] nearest_type(nodes, d, i) && lacks(nodes, d, "name"@),
    }
}

pub proof fn lemma_names_a_type(kind: Seq<char>)
    ensures
        names_a_type(kind) <==> is_type_declaration_kind(kind),
{
    let all = seq![
        "class_declaration"@,
        "interface_declaration"@,
        "enum_declaration"@,
        "record_declaration"@,
    ];
    assert(all[0] == "class_declaration"@ && all[1] == "interface_declaration"@ && all[2]
        == "enum_declaration"@ && all[3] == "record_declaration"@);
}

/// The type that is found around a node is the nearest one.
pub proof fn law_the_enclosing_type_is_the_nearest(nodes: Seq<NodeView>, d: int, i: int)
    requires
        0 <= i < nodes.len(),
    ensures
        0 <= d ==> (enclosing_type(nodes, i) == d <==> nearest_type(nodes, d, i)),
        enclosing_type(nodes, i) < 0 <==> in_no_type(nodes, i),
{
    lemma_enclosing_type(nodes, i);
    let e = enclosing_type(nodes, i);
    if nearest_type(nodes, d, i) && e != d {
        if e < 0 {
            assert(holds(nodes, d, i));
        } else if e < d {
            assert(holds(nodes, d, i));
        } else {
            assert(holds(nodes, e, i));
        }
    }
}

proof fn lemma_enclosing_type(nodes: Seq<NodeView>, i: int)
    requires
        0 <= i < nodes.len(),
    ensures
        enclosing_type(nodes, i) >= 0 ==> nearest_type(nodes, enclosing_type(nodes, i), i),
        enclosing_type(nodes, i) < 0 ==> in_no_type(nodes, i),
    decreases i,
{
    let p = parent_of(nodes, i);
    law_a_parent_holds_directly(nodes, p, i);
    // Whatever holds the node is its parent or holds that.
    assert forall|d: int| #[trigger] holds(nodes, d, i) implies d == p || (d < p && holds(
        nodes,
        d,
        p,
    )) by {
        lemma_parent_from(nodes, i, i - 1);
        assert(nodes[i].depth > nodes[d].depth);
        assert(d <= p);
    }
    if 0 <= p {
        lemma_names_a_type(nodes[p].kind);
        assert(holds(nodes, p, i));
        if !is_type_declaration_kind(nodes[p].kind) {
            lemma_enclosing_type(nodes, p);
            let e = enclosing_type(nodes, p);
            if e >= 0 {
                assert forall|k: int| e < k <= i implies (#[trigger] nodes[k]).depth
                    > nodes[e].depth by {
                    if k > p {
                        assert(nodes[k].depth > nodes[p].depth);
                        assert(nodes[p].depth > nodes[e].depth);
                    }
                }
                assert(holds(nodes, e, i));
            }
        }
    }
}

/// The owner of what a node declares is the nearest type around it.
pub proof fn law_the_owner_is_the_nearest_type(
    nodes: Seq<NodeView>,
    i: int,
    source: Seq<char>,
    owner: Option<Seq<char>>,
)
    requires
        0 <= i < nodes.len(),
    ensures
        owner_of(nodes, i, source) == owner <==> belongs_to(nodes, i, source, owner),
{
    let e = enclosing_type(nodes, i);
    law_the_enclosing_type_is_the_nearest(nodes, e, i);
    if e >= 0 {
        let found = child_by_field(nodes, e, "name"@);
        law_a_child_fills_its_field(nodes, e, if found is Some { found->0 } else { 0 }, "name"@);
        if let Some(name) = owner {
            if belongs_to(nodes, i, source, owner) {
                let (d, m) = choose|d: int, m: int|
                    #[trigger] nearest_type(nodes, d, i) && #[trigger] fills(
                        nodes,
                        d,
                        m,
                        "name"@,
                    ) && name == text_of(nodes, m, source);
                law_the_enclosing_type_is_the_nearest(nodes, d, i);
                law_a_child_fills_its_field(nodes, e, m, "name"@);
            }
        } else if belongs_to(nodes, i, source, owner) {
            assert(!in_no_type(nodes, i));
            let d = choose|d: int|
                #[trigger] nearest_type(nodes, d, i) && lacks(nodes, d, "name"@);
            law_the_enclosing_type_is_the_nearest(nodes, d, i);
        }
    } else if let Some(name) = owner {
        if belongs_to(nodes, i, source, owner) {
            let (d, m) = choose|d: int, m: int|
                #[trigger] nearest_type(nodes, d, i) && #[trigger] fills(nodes, d, m, "name"@)
                    && name == text_of(nodes, m, source);
            assert(holds(nodes, d, i));
        }
    }
}

/// Whether a kind of node declares a kind of symbol by a name of its own.
pub open spec fn declares(kind: Seq<char>, declared: SymbolKind) -> bool {
    match declared {
        SymbolKind::Class => kind == "class_declaration"@ || kind == "record_declaration"@,
        SymbolKind::Interface => kind == "interface_declaration"@,
        SymbolKind::Enum => kind == "enum_declaration"@,
        SymbolKind::Method => kind == "method_declaration"@,
        SymbolKind::Constructor => kind == "constructor_declaration"@ || kind
            == "compact_constructor_declaration"@,
        SymbolKind::Field => false,
        SymbolKind::Import => false,
    }
}

/// Whether the node at `n` is a declarator's name in the field declaration at
/// `i`.
pub open spec fn declares_field(nodes: Seq<NodeView>, i: int, n: int) -> bool {
    nodes[i].kind == "field_declaration"@ && exists|c: int|
        #[trigger] holds_directly(nodes, i, c) && nodes[c].field == Some("declarator"@) && fills(
            nodes,
            c,
            n,
            "name"@,
        )
}

/// Whether the node at `n` is what the import at `i` makes known: the last
/// segment of its path, where it has no wildcard.
pub open spec fn imports(nodes: Seq<NodeView>, i: int, n: int) -> bool {
    &&& nodes[i].kind == "import_declaration"@
    &&& forall|k: int| #[trigger] holds_directly(nodes, i, k) ==> nodes[k].kind != "asterisk"@
    &&& exists|path: int|
        {
            &&& #[trigger] holds_directly(nodes, i, path)
            &&& nodes[path].kind == "scoped_identifier"@ || nodes[path].kind == "identifier"@
            &&& forall|k: int|
                path < k && #[trigger] holds_directly(nodes, i, k) ==> nodes[k].kind
                    != "scoped_identifier"@ && nodes[k].kind != "identifier"@
            &&& fills(nodes, path, n, "name"@) || (n == path && lacks(nodes, path, "name"@))
        }
}

/// Whether the node at `i` declares a symbol under the name at `n`.
pub open spec fn is_declared(
    nodes: Seq<NodeView>,
    source: Seq<char>,
    uri: Seq<char>,
    i: int,
    n: int,
    symbol: SymbolView,
) -> bool {
    &&& 0 <= i < nodes.len()
    &&& symbol.uri == uri
    &&& symbol.name == text_of(nodes, n, source)
    &&& symbol.selection_range == range_of(nodes, n, source)
    &&& symbol.range == range_of(nodes, i, source)
    &&& match symbol.kind {
        SymbolKind::Import => imports(nodes, i, n) && symbol.owner is None,
        SymbolKind::Field => declares_field(nodes, i, n) && belongs_to(
            nodes,
            i,
            source,
            symbol.owner,
        ),
        _ => declares(nodes[i].kind, symbol.kind) && fills(nodes, i, n, "name"@) && belongs_to(
            nodes,
            i,
            source,
            symbol.owner,
        ),
    }
}

proof fn lemma_kinds_differ()
    ensures
        !is_type_declaration_kind("method_declaration"@),
        !is_type_declaration_kind("constructor_declaration"@),
        !is_type_declaration_kind("compact_constructor_declaration"@),
        !is_type_declaration_kind("field_declaration"@),
        !is_type_declaration_kind("import_declaration"@),
        !is_constructor_kind("method_declaration"@),
        !is_constructor_kind("field_declaration"@),
        !is_constructor_kind("import_declaration"@),
        "field_declaration"@ != "method_declaration"@,
        "import_declaration"@ != "method_declaration"@,
        "import_declaration"@ != "field_declaration"@,
        "class_declaration"@ != "interface_declaration"@,
        "class_declaration"@ != "enum_declaration"@,
        "record_declaration"@ != "interface_declaration"@,
        "record_declaration"@ != "enum_declaration"@,
        "interface_declaration"@ != "enum_declaration"@,
{
    reveal_strlit("class_declaration");
    reveal_strlit("interface_declaration");
    reveal_strlit("enum_declaration");
    reveal_strlit("record_declaration");
    reveal_strlit("method_declaration");
    reveal_strlit("constructor_declaration");
    reveal_strlit("compact_constructor_declaration");
    reveal_strlit("field_declaration");
    reveal_strlit("import_declaration");
    assert("class_declaration"@.len() == 17);
    assert("interface_declaration"@.len() == 21);
    assert("enum_declaration"@.len() == 16);
    assert("record_declaration"@.len() == 18);
    assert("method_declaration"@.len() == 18);
    assert("constructor_declaration"@.len() == 23);
    assert("compact_constructor_declaration"@.len() == 31);
    assert("field_declaration"@.len() == 17);
    assert("import_declaration"@.len() == 18);
    assert("method_declaration"@[0] == 'm' && "record_declaration"@[0] == 'r');
    assert("field_declaration"@[0] == 'f' && "class_declaration"@[0] == 'c');
    assert("import_declaration"@[0] == 'i');
}

proof fn lemma_field_symbols_declared(
    nodes: Seq<NodeView>,
    source: Seq<char>,
    uri: Seq<char>,
    i: int,
    children: Seq<int>,
    symbol: SymbolView,
)
    ensures
        field_symbols(nodes, source, uri, i, children).contains(symbol) <==> exists|k: int|
            {
                &&& 0 <= k < children.len()
                &&& nodes[#[trigger] children[k]].field == Some("declarator"@)
                &&& child_by_field(nodes, children[k], "name"@) is Some
                &&& symbol == symbol_at(
                    nodes,
                    source,
                    uri,
                    child_by_field(nodes, children[k], "name"@)->0,
                    i,
                    SymbolKind::Field,
                    owner_of(nodes, i, source),
                )
            },
    decreases children.len(),
{
    let all = field_symbols(nodes, source, uri, i, children);
    if children.len() > 0 {
        let fewer = children.drop_last();
        let before = field_symbols(nodes, source, uri, i, fewer);
        lemma_field_symbols_declared(nodes, source, uri, i, fewer, symbol);
        if before.contains(symbol) {
            let m = choose|m: int| 0 <= m < before.len() && before[m] == symbol;
            assert(all[m] == symbol);
            let k = choose|k: int|
                {
                    &&& 0 <= k < fewer.len()
                    &&& nodes[#[trigger] fewer[k]].field == Some("declarator"@)
                    &&& child_by_field(nodes, fewer[k], "name"@) is Some
                    &&& symbol == symbol_at(
                        nodes,
                        source,
                        uri,
                        child_by_field(nodes, fewer[k], "name"@)->0,
                        i,
                        SymbolKind::Field,
                        owner_of(nodes, i, source),
                    )
                };
            assert(children[k] == fewer[k]);
        } else if all.contains(symbol) {
            let m = choose|m: int| 0 <= m < all.len() && all[m] == symbol;
            if m < before.len() {
                assert(before[m] == symbol);
            }
            assert(children[children.len() - 1] == children.last());
        }
        if exists|k: int|
            {
                &&& 0 <= k < children.len()
                &&& nodes[#[trigger] children[k]].field == Some("declarator"@)
                &&& child_by_field(nodes, children[k], "name"@) is Some
                &&& symbol == symbol_at(
                    nodes,
                    source,
                    uri,
                    child_by_field(nodes, children[k], "name"@)->0,
                    i,
                    SymbolKind::Field,
                    owner_of(nodes, i, source),
                )
            } {
            let k = choose|k: int|
                {
                    &&& 0 <= k < children.len()
                    &&& nodes[#[trigger] children[k]].field == Some("declarator"@)
                    &&& child_by_field(nodes, children[k], "name"@) is Some
                    &&& symbol == symbol_at(
                        nodes,
                        source,
                        uri,
                        child_by_field(nodes, children[k], "name"@)->0,
                        i,
                        SymbolKind::Field,
                        owner_of(nodes, i, source),
                    )
                };
            if k < fewer.len() {
                assert(fewer[k] == children[k]);
            } else {
                assert(all[all.len() - 1] == symbol);
            }
        }
    }
}

proof fn lemma_last_path(nodes: Seq<NodeView>, children: Seq<int>)
    ensures
        ({
            let path = last_path(nodes, children);
            if exists|k: int|
                0 <= k < children.len() && is_path_kind(nodes[#[trigger] children[k]].kind) {
                exists|k: int|
                    {
                        &&& 0 <= k < children.len()
                        &&& #[trigger] children[k] == path
                        &&& is_path_kind(nodes[path].kind)
                        &&& forall|m: int|
                            k < m < children.len() ==> !is_path_kind(
                                nodes[#[trigger] children[m]].kind,
                            )
                    }
            } else {
                path == -1
            }
        }),
    decreases children.len(),
{
    if children.len() > 0 {
        let last = children.len() - 1;
        if is_path_kind(nodes[children.last()].kind) {
            assert(children[last] == last_path(nodes, children));
        } else {
            let fewer = children.drop_last();
            lemma_last_path(nodes, fewer);
            if exists|k: int|
                0 <= k < children.len() && is_path_kind(nodes[#[trigger] children[k]].kind) {
                let k = choose|k: int|
                    0 <= k < children.len() && is_path_kind(nodes[#[trigger] children[k]].kind);
                assert(fewer[k] == children[k]);
                let path = last_path(nodes, fewer);
                let j = choose|k: int|
                    {
                        &&& 0 <= k < fewer.len()
                        &&& #[trigger] fewer[k] == path
                        &&& is_path_kind(nodes[path].kind)
                        &&& forall|m: int|
                            k < m < fewer.len() ==> !is_path_kind(nodes[#[trigger] fewer[m]].kind)
                    };
                assert(children[j] == path);
                assert forall|m: int| j < m < children.len() implies !is_path_kind(
                    nodes[#[trigger] children[m]].kind,
                ) by {
                    if m < last {
                        assert(fewer[m] == children[m]);
                    }
                }
            } else {
                assert(forall|k: int| 0 <= k < fewer.len() ==> fewer[k] == children[k]);
            }
        }
    }
}

proof fn lemma_wildcard(nodes: Seq<NodeView>, i: int)
    requires
        0 <= i < nodes.len(),
    ensures
        has_wildcard(nodes, children_of(nodes, i)) <==> exists|k: int| #[trigger]
            holds_directly(nodes, i, k) && nodes[k].kind == "asterisk"@,
{
    let children = children_of(nodes, i);
    law_children_stand_directly_in_their_parent(nodes, i);
    if has_wildcard(nodes, children) {
        let k = choose|k: int|
            0 <= k < children.len() && nodes[#[trigger] children[k]].kind == "asterisk"@;
        assert(children.contains(children[k]));
    }
    if exists|k: int| #[trigger] holds_directly(nodes, i, k) && nodes[k].kind == "asterisk"@ {
        let k = choose|k: int| #[trigger]
            holds_directly(nodes, i, k) && nodes[k].kind == "asterisk"@;
        assert(children.contains(k));
        let m = choose|m: int| 0 <= m < children.len() && children[m] == k;
        assert(nodes[children[m]].kind == "asterisk"@);
    }
}

/// Whether the node at `q` is the last path that stands directly in the node at
/// `i`.
spec fn is_last_path(nodes: Seq<NodeView>, i: int, q: int) -> bool {
    &&& holds_directly(nodes, i, q)
    &&& is_path_kind(nodes[q].kind)
    &&& forall|k: int|
        q < k && #[trigger] holds_directly(nodes, i, k) ==> !is_path_kind(nodes[k].kind)
}

proof fn lemma_last_path_is(nodes: Seq<NodeView>, i: int, q: int)
    requires
        0 <= i < nodes.len(),
    ensures
        0 <= q ==> (last_path(nodes, children_of(nodes, i)) == q <==> is_last_path(nodes, i, q)),
{
    let children = children_of(nodes, i);
    let path = last_path(nodes, children);
    law_children_stand_directly_in_their_parent(nodes, i);
    lemma_last_path(nodes, children);
    if exists|k: int| 0 <= k < children.len() && is_path_kind(nodes[#[trigger] children[k]].kind) {
        let k = choose|k: int|
            {
                &&& 0 <= k < children.len()
                &&& #[trigger] children[k] == path
                &&& is_path_kind(nodes[path].kind)
                &&& forall|m: int|
                    k < m < children.len() ==> !is_path_kind(nodes[#[trigger] children[m]].kind)
            };
        assert(children.contains(children[k]));
        assert forall|x: int| path < x && #[trigger] holds_directly(
            nodes,
            i,
            x,
        ) implies !is_path_kind(nodes[x].kind) by {
            assert(children.contains(x));
            let m = choose|m: int| 0 <= m < children.len() && children[m] == x;
            if m < k {
                assert(children[m] < children[k]);
            }
        }
        assert(is_last_path(nodes, i, path));
    } else if is_last_path(nodes, i, q) {
        assert(children.contains(q));
        let m = choose|m: int| 0 <= m < children.len() && children[m] == q;
        assert(is_path_kind(nodes[children[m]].kind));
    }
}

/// The node that names what an import makes known, where it makes known
/// anything.
proof fn lemma_imports(nodes: Seq<NodeView>, i: int, n: int)
    requires
        0 <= i < nodes.len(),
        nodes[i].kind == "import_declaration"@,
    ensures
        imports(nodes, i, n) <==> {
            let path = last_path(nodes, children_of(nodes, i));
            &&& !has_wildcard(nodes, children_of(nodes, i))
            &&& path >= 0
            &&& n == match child_by_field(nodes, path, "name"@) {
                Some(m) => m,
                None => path,
            }
        },
{
    let path = last_path(nodes, children_of(nodes, i));
    lemma_wildcard(nodes, i);
    lemma_last_path_is(nodes, i, path);
    if path >= 0 {
        law_a_child_fills_its_field(nodes, path, n, "name"@);
        if imports(nodes, i, n) {
            let q = choose|q: int|
                #[trigger] holds_directly(nodes, i, q) && is_last_path(nodes, i, q) && (fills(
                    nodes,
                    q,
                    n,
                    "name"@,
                ) || (n == q && lacks(nodes, q, "name"@)));
            lemma_last_path_is(nodes, i, q);
        }
    } else if imports(nodes, i, n) {
        let q = choose|q: int|
            #[trigger] holds_directly(nodes, i, q) && is_last_path(nodes, i, q);
        lemma_last_path_is(nodes, i, q);
    }
}

proof fn lemma_import_declared(
    nodes: Seq<NodeView>,
    source: Seq<char>,
    uri: Seq<char>,
    i: int,
    symbol: SymbolView,
)
    requires
        0 <= i < nodes.len(),
        nodes[i].kind == "import_declaration"@,
    ensures
        import_symbol(nodes, source, uri, i).contains(symbol) <==> symbol.kind == SymbolKind::Import
            && exists|n: int| #[trigger] is_declared(nodes, source, uri, i, n, symbol),
{
    let list = import_symbol(nodes, source, uri, i);
    let path = last_path(nodes, children_of(nodes, i));
    let name = match child_by_field(nodes, path, "name"@) {
        Some(m) => m,
        None => path,
    };
    lemma_imports(nodes, i, name);
    if list.contains(symbol) {
        assert(list[0] == symbol);
        assert(is_declared(nodes, source, uri, i, name, symbol));
    }
    if symbol.kind == SymbolKind::Import && exists|n: int| #[trigger]
        is_declared(nodes, source, uri, i, n, symbol) {
        let n = choose|n: int| #[trigger] is_declared(nodes, source, uri, i, n, symbol);
        lemma_imports(nodes, i, n);
        assert(list[0] == symbol);
    }
}

proof fn lemma_node_declared(
    nodes: Seq<NodeView>,
    source: Seq<char>,
    uri: Seq<char>,
    i: int,
    symbol: SymbolView,
)
    requires
        0 <= i < nodes.len(),
    ensures
        node_symbols(nodes, source, uri, i).contains(symbol) <==> exists|n: int| #[trigger]
            is_declared(nodes, source, uri, i, n, symbol),
{
    let kind = nodes[i].kind;
    let list = node_symbols(nodes, source, uri, i);
    lemma_kinds_differ();
    law_the_owner_is_the_nearest_type(nodes, i, source, symbol.owner);
    if kind == "field_declaration"@ {
        let children = children_of(nodes, i);
        law_children_stand_directly_in_their_parent(nodes, i);
        lemma_field_symbols_declared(nodes, source, uri, i, children, symbol);
        if list.contains(symbol) {
            let k = choose|k: int|
                {
                    &&& 0 <= k < children.len()
                    &&& nodes[#[trigger] children[k]].field == Some("declarator"@)
                    &&& child_by_field(nodes, children[k], "name"@) is Some
                    &&& symbol == symbol_at(
                        nodes,
                        source,
                        uri,
                        child_by_field(nodes, children[k], "name"@)->0,
                        i,
                        SymbolKind::Field,
                        owner_of(nodes, i, source),
                    )
                };
            let n = child_by_field(nodes, children[k], "name"@)->0;
            assert(children.contains(children[k]));
            law_a_child_fills_its_field(nodes, children[k], n, "name"@);
            assert(is_declared(nodes, source, uri, i, n, symbol));
        }
        if exists|n: int| #[trigger] is_declared(nodes, source, uri, i, n, symbol) {
            let n = choose|n: int| #[trigger] is_declared(nodes, source, uri, i, n, symbol);
            assert(symbol.kind == SymbolKind::Field);
            let c = choose|c: int|
                #[trigger] holds_directly(nodes, i, c) && nodes[c].field == Some("declarator"@)
                    && fills(nodes, c, n, "name"@);
            assert(children.contains(c));
            let k = choose|k: int| 0 <= k < children.len() && children[k] == c;
            law_a_child_fills_its_field(nodes, c, n, "name"@);
            assert(nodes[children[k]].field == Some("declarator"@));
        }
    } else if kind == "import_declaration"@ {
        lemma_import_declared(nodes, source, uri, i, symbol);
    } else {
        let found = child_by_field(nodes, i, "name"@);
        let name = match found {
            Some(n) => n,
            None => 0,
        };
        law_a_child_fills_its_field(nodes, i, name, "name"@);
        if list.contains(symbol) {
            let m = choose|m: int| 0 <= m < list.len() && list[m] == symbol;
            assert(is_declared(nodes, source, uri, i, name, symbol));
        }
        if exists|n: int| #[trigger] is_declared(nodes, source, uri, i, n, symbol) {
            let n = choose|n: int| #[trigger] is_declared(nodes, source, uri, i, n, symbol);
            law_a_child_fills_its_field(nodes, i, n, "name"@);
            assert(list[0] == symbol);
        }
    }
}

proof fn lemma_symbols_declared(
    nodes: Seq<NodeView>,
    source: Seq<char>,
    uri: Seq<char>,
    count: int,
    symbol: SymbolView,
)
    requires
        0 <= count <= nodes.len(),
    ensures
        symbols_of(nodes, source, uri, count).contains(symbol) <==> exists|i: int, n: int|
            i < count && #[trigger] is_declared(nodes, source, uri, i, n, symbol),
    decreases count,
{
    if count > 0 {
        let last = count - 1;
        let before = symbols_of(nodes, source, uri, last);
        let here = node_symbols(nodes, source, uri, last);
        let all = symbols_of(nodes, source, uri, count);
        lemma_symbols_declared(nodes, source, uri, last, symbol);
        lemma_node_declared(nodes, source, uri, last, symbol);
        assert(all.contains(symbol) <==> before.contains(symbol) || here.contains(symbol)) by {
            if before.contains(symbol) {
                let m = choose|m: int| 0 <= m < before.len() && before[m] == symbol;
                assert(all[m] == symbol);
            }
            if here.contains(symbol) {
                let m = choose|m: int| 0 <= m < here.len() && here[m] == symbol;
                assert(all[before.len() + m] == symbol);
            }
            if all.contains(symbol) {
                let m = choose|m: int| 0 <= m < all.len() && all[m] == symbol;
                if m < before.len() {
                    assert(before[m] == symbol);
                } else {
                    assert(here[m - before.len()] == symbol);
                }
            }
        }
        if here.contains(symbol) {
            let n = choose|n: int| #[trigger] is_declared(nodes, source, uri, last, n, symbol);
            assert(last < count && is_declared(nodes, source, uri, last, n, symbol));
        }
        if before.contains(symbol) {
            let (i, n) = choose|i: int, n: int|
                i < last && #[trigger] is_declared(nodes, source, uri, i, n, symbol);
            assert(i < count && is_declared(nodes, source, uri, i, n, symbol));
        }
        if exists|i: int, n: int|
            i < count && #[trigger] is_declared(nodes, source, uri, i, n, symbol) {
            let (i, n) = choose|i: int, n: int|
                i < count && #[trigger] is_declared(nodes, source, uri, i, n, symbol);
            if i < last {
                assert(i < last && is_declared(nodes, source, uri, i, n, symbol));
            } else {
                assert(is_declared(nodes, source, uri, last, n, symbol));
            }
        }
    }
}

/// The symbols of a document are what its classes, interfaces, enums, records,
/// methods, constructors, fields and imports declare, each with the kind, the
/// place and the owner that it has there, and nothing else.
pub proof fn law_the_symbols_are_what_is_declared(
    nodes: Seq<NodeView>,
    source: Seq<char>,
    uri: Seq<char>,
    symbol: SymbolView,
)
    ensures
        document_symbols(nodes, source, uri).contains(symbol) <==> exists|i: int, n: int| #[trigger]
            is_declared(nodes, source, uri, i, n, symbol),
{
    lemma_symbols_declared(nodes, source, uri, nodes.len() as int, symbol);
    if exists|i: int, n: int| #[trigger] is_declared(nodes, source, uri, i, n, symbol) {
        let (i, n) = choose|i: int, n: int| #[trigger]
            is_declared(nodes, source, uri, i, n, symbol);
        assert(i < nodes.len() && is_declared(nodes, source, uri, i, n, symbol));
    }
}

/// Where a candidate is declared on the receiver's type, narrowing keeps just
/// those that are; where none is, or where the type is not known, it keeps all.
pub proof fn law_narrowing_keeps_what_the_receiver_declares(
    candidates: Seq<SymbolView>,
    receiver_type: Option<Seq<char>>,
    symbol: SymbolView,
)
    ensures
        narrowed(candidates, receiver_type).contains(symbol) <==> is_candidate(
            candidates,
            receiver_type,
            symbol,
        ),
{
    if let Some(t) = receiver_type {
        let pred = |s: SymbolView| owned_by(s, t);
        let owned = candidates.filter(pred);
        if exists|k: int| 0 <= k < candidates.len() && (#[trigger] candidates[k]).owner == Some(t) {
            let k = choose|k: int|
                0 <= k < candidates.len() && (#[trigger] candidates[k]).owner == Some(t);
            candidates.lemma_filter_contains(pred, k);
            if candidates.contains(symbol) && symbol.owner == Some(t) {
                let m = choose|m: int| 0 <= m < candidates.len() && candidates[m] == symbol;
                candidates.lemma_filter_contains(pred, m);
            }
            if owned.contains(symbol) {
                let m = choose|m: int| 0 <= m < owned.len() && owned[m] == symbol;
                candidates.lemma_filter_pred(pred, m);
                candidates.lemma_filter_contains_rev(pred, symbol);
            }
        } else if owned.len() > 0 {
            candidates.lemma_filter_pred(pred, 0);
            candidates.lemma_filter_contains_rev(pred, owned[0]);
            let m = choose|m: int| 0 <= m < candidates.len() && candidates[m] == owned[0];
            assert(candidates[m].owner == Some(t));
        }
    }
}

/// Whether a symbol is one that a reference with a receiver of this type, where
/// it is known, can mean: of the candidates, one that is declared on the type,
/// or any where none is.
pub open spec fn is_candidate(
    candidates: Seq<SymbolView>,
    receiver_type: Option<Seq<char>>,
    symbol: SymbolView,
) -> bool {
    &&& candidates.contains(symbol)
    &&& receiver_type is Some && (exists|k: int|
        0 <= k < candidates.len() && (#[trigger] candidates[k]).owner == receiver_type)
        ==> symbol.owner == receiver_type
}

/// The most relevant symbol is a declaration where there is any, and among
/// those that are declarations, or imports, alike it has the first URI and there
/// the first place.
pub proof fn law_the_best_match_comes_first(symbols: Seq<SymbolView>, i: int, j: int)
    requires
        is_best(symbols, i),
        0 <= j < symbols.len(),
    ensures
        symbols[i].kind == SymbolKind::Import ==> symbols[j].kind == SymbolKind::Import,
        (symbols[i].kind == SymbolKind::Import) == (symbols[j].kind == SymbolKind::Import) ==> {
            let (a, b) = (symbols[i].selection_range.start, symbols[j].selection_range.start);
            ||| text_lt(symbols[i].uri, symbols[j].uri)
            ||| symbols[i].uri == symbols[j].uri && (a.line < b.line || (a.line == b.line
                && a.character <= b.character))
        },
{
    assert(!more_relevant(symbols[j], symbols[i]));
    lemma_text_lt_total(symbols[i].uri, symbols[j].uri);
}

/// A most relevant symbol is found wherever there is a symbol.
pub proof fn law_some_symbol_is_the_best_match(symbols: Seq<SymbolView>)
    ensures
        symbols.len() > 0 ==> exists|i: int| is_best(symbols, i),
    decreases symbols.len(),
{
    if symbols.len() > 0 {
        let fewer = symbols.drop_last();
        let last = symbols.len() - 1;
        if fewer.len() == 0 {
            assert(!more_relevant(symbols[0], symbols[0])) by {
                lemma_text_lt_total(symbols[0].uri, symbols[0].uri);
            }
            assert(is_best(symbols, 0));
        } else {
            law_some_symbol_is_the_best_match(fewer);
            let i = choose|i: int| is_best(fewer, i);
            assert(fewer[i] == symbols[i]);
            if more_relevant(symbols[last], symbols[i]) {
                assert forall|j: int| 0 <= j < symbols.len() implies !more_relevant(
                    #[trigger] symbols[j],
                    symbols[last],
                ) && (j < last ==> more_relevant(symbols[last], symbols[j])) by {
                    if j < last {
                        assert(fewer[j] == symbols[j]);
                        lemma_relevance(symbols[last], symbols[i], symbols[j]);
                    } else {
                        lemma_text_lt_total(symbols[last].uri, symbols[last].uri);
                    }
                }
                assert(is_best(symbols, last));
            } else {
                assert forall|j: int| 0 <= j < symbols.len() implies !more_relevant(
                    #[trigger] symbols[j],
                    symbols[i],
                ) by {
                    if j < last {
                        assert(fewer[j] == symbols[j]);
                    }
                }
                assert forall|j: int| 0 <= j < i implies more_relevant(
                    symbols[i],
                    #[trigger] symbols[j],
                ) by {
                    assert(fewer[j] == symbols[j]);
                }
                assert(is_best(symbols, i));
            }
        }
    }
}

proof fn lemma_relevance(a: SymbolView, b: SymbolView, c: SymbolView)
    requires
        more_relevant(a, b),
        !more_relevant(c, b),
    ensures
        more_relevant(a, c),
        !more_relevant(c, a),
{
    lemma_text_lt_total(a.uri, b.uri);
    lemma_text_lt_total(a.uri, c.uri);
    lemma_text_lt_total(b.uri, c.uri);
    if text_lt(a.uri, b.uri) && text_lt(b.uri, c.uri) {
        lemma_text_lt_trans(a.uri, b.uri, c.uri);
    }
    if text_lt(c.uri, a.uri) && text_lt(a.uri, b.uri) {
        lemma_text_lt_trans(c.uri, a.uri, b.uri);
    }
}

/// Where symbols were declared: each with the node that declares it and the node
/// that names it, in document order.
pub open spec fn are_declared_at(
    nodes: Seq<NodeView>,
    source: Seq<char>,
    uri: Seq<char>,
    symbols: Seq<SymbolView>,
    places: Seq<(int, int)>,
) -> bool {
    &&& places.len() == symbols.len()
    &&& forall|k: int|
        0 <= k < symbols.len() ==> is_declared(
            nodes,
            source,
            uri,
            places[k].0,
            places[k].1,
            #[trigger] symbols[k],
        )
    &&& forall|j: int, k: int|
        0 <= j < k < places.len() ==> {
            let (a, b) = (#[trigger] places[j], #[trigger] places[k]);
            a.0 < b.0 || (a.0 == b.0 && a.1 < b.1)
        }
}

/// No declaration gives its symbol twice, and the symbols come in the order in
/// which they are declared.
pub proof fn law_symbols_come_once_and_in_document_order(
    nodes: Seq<NodeView>,
    source: Seq<char>,
    uri: Seq<char>,
)
    ensures
        exists|places: Seq<(int, int)>| #[trigger]
            are_declared_at(
                nodes,
                source,
                uri,
                document_symbols(nodes, source, uri),
                places,
            ),
{
    lemma_places(nodes, source, uri, nodes.len() as int);
    let places = choose|places: Seq<(int, int)>|
        #[trigger] are_declared_at(
            nodes,
            source,
            uri,
            symbols_of(nodes, source, uri, nodes.len() as int),
            places,
        ) && forall|k: int| 0 <= k < places.len() ==> (#[trigger] places[k]).0 < nodes.len();
    assert(are_declared_at(nodes, source, uri, document_symbols(nodes, source, uri), places));
}

proof fn lemma_places(nodes: Seq<NodeView>, source: Seq<char>, uri: Seq<char>, count: int)
    requires
        0 <= count <= nodes.len(),
    ensures
        exists|places: Seq<(int, int)>|
            #[trigger] are_declared_at(
                nodes,
                source,
                uri,
                symbols_of(nodes, source, uri, count),
                places,
            ) && forall|k: int| 0 <= k < places.len() ==> (#[trigger] places[k]).0 < count,
    decreases count,
{
    if count == 0 {
        let none: Seq<(int, int)> = Seq::empty();
        assert(are_declared_at(nodes, source, uri, symbols_of(nodes, source, uri, 0), none));
    } else {
        let i = count - 1;
        let before = symbols_of(nodes, source, uri, i);
        let here = node_symbols(nodes, source, uri, i);
        lemma_places(nodes, source, uri, i);
        let earlier = choose|places: Seq<(int, int)>|
            #[trigger] are_declared_at(nodes, source, uri, before, places) && forall|k: int|
                0 <= k < places.len() ==> (#[trigger] places[k]).0 < i;
        lemma_node_places(nodes, source, uri, i);
        let new = choose|places: Seq<(int, int)>|
            #[trigger] are_declared_at(nodes, source, uri, here, places) && forall|k: int|
                0 <= k < places.len() ==> (#[trigger] places[k]).0 == i;
        let places = earlier + new;
        let all = symbols_of(nodes, source, uri, count);
        assert(all =~= before + here);
        assert forall|k: int| 0 <= k < all.len() implies is_declared(
            nodes,
            source,
            uri,
            places[k].0,
            places[k].1,
            #[trigger] all[k],
        ) by {
            if k < before.len() {
                assert(all[k] == before[k] && places[k] == earlier[k]);
            } else {
                assert(all[k] == here[k - before.len()] && places[k] == new[k - before.len()]);
            }
        }
        assert forall|j: int, k: int| 0 <= j < k < places.len() implies {
            let (a, b) = (#[trigger] places[j], #[trigger] places[k]);
            a.0 < b.0 || (a.0 == b.0 && a.1 < b.1)
        } by {
            if k < earlier.len() {
                assert(places[j] == earlier[j] && places[k] == earlier[k]);
            } else if j < earlier.len() {
                assert(places[j] == earlier[j] && places[k] == new[k - earlier.len()]);
            } else {
                assert(places[j] == new[j - earlier.len()] && places[k] == new[k
                    - earlier.len()]);
            }
        }
        assert forall|k: int| 0 <= k < places.len() implies (#[trigger] places[k]).0 < count by {
            if k < earlier.len() {
                assert(places[k] == earlier[k]);
            } else {
                assert(places[k] == new[k - earlier.len()]);
            }
        }
        assert(are_declared_at(nodes, source, uri, all, places));
    }
}

proof fn lemma_node_places(nodes: Seq<NodeView>, source: Seq<char>, uri: Seq<char>, i: int)
    requires
        0 <= i < nodes.len(),
    ensures
        exists|places: Seq<(int, int)>|
            #[trigger] are_declared_at(
                nodes,
                source,
                uri,
                node_symbols(nodes, source, uri, i),
                places,
            ) && forall|k: int| 0 <= k < places.len() ==> (#[trigger] places[k]).0 == i,
{
    let here = node_symbols(nodes, source, uri, i);
    lemma_kinds_differ();
    if nodes[i].kind == "field_declaration"@ {
        law_children_stand_directly_in_their_parent(nodes, i);
        let children = children_of(nodes, i);
        assert forall|m: int| 0 <= m < children.len() implies holds_directly(
            nodes,
            i,
            #[trigger] children[m],
        ) by {
            assert(children.contains(children[m]));
        }
        lemma_field_places(nodes, source, uri, i, children);
        let places = choose|places: Seq<(int, int)>|
            #[trigger] are_declared_at(
                nodes,
                source,
                uri,
                field_symbols(nodes, source, uri, i, children),
                places,
            ) && forall|k: int|
                0 <= k < places.len() ==> (#[trigger] places[k]).0 == i && exists|m: int|
                    0 <= m < children.len() && fills(
                        nodes,
                        #[trigger] children[m],
                        places[k].1,
                        "name"@,
                    );
        assert(are_declared_at(nodes, source, uri, here, places));
    } else if here.len() == 0 {
        let none: Seq<(int, int)> = Seq::empty();
        assert(are_declared_at(nodes, source, uri, here, none));
    } else {
        assert(here.len() == 1);
        assert(here.contains(here[0]));
        lemma_node_declared(nodes, source, uri, i, here[0]);
        let n = choose|n: int| #[trigger] is_declared(nodes, source, uri, i, n, here[0]);
        let one = seq![(i, n)];
        assert(are_declared_at(nodes, source, uri, here, one));
    }
}

proof fn lemma_field_places(
    nodes: Seq<NodeView>,
    source: Seq<char>,
    uri: Seq<char>,
    i: int,
    children: Seq<int>,
)
    requires
        0 <= i < nodes.len(),
        nodes[i].kind == "field_declaration"@,
        forall|m: int|
            0 <= m < children.len() ==> holds_directly(nodes, i, #[trigger] children[m]),
        forall|a: int, b: int|
            0 <= a < b < children.len() ==> #[trigger] children[a] < #[trigger] children[b],
    ensures
        exists|places: Seq<(int, int)>|
            #[trigger] are_declared_at(
                nodes,
                source,
                uri,
                field_symbols(nodes, source, uri, i, children),
                places,
            ) && forall|k: int|
                0 <= k < places.len() ==> (#[trigger] places[k]).0 == i && exists|m: int|
                    0 <= m < children.len() && fills(
                        nodes,
                        #[trigger] children[m],
                        places[k].1,
                        "name"@,
                    ),
    decreases children.len(),
{
    let all = field_symbols(nodes, source, uri, i, children);
    if children.len() == 0 {
        let none: Seq<(int, int)> = Seq::empty();
        assert(are_declared_at(nodes, source, uri, all, none));
    } else {
        let fewer = children.drop_last();
        let c = children.last();
        let before = field_symbols(nodes, source, uri, i, fewer);
        assert(children[children.len() - 1] == c);
        assert forall|m: int| 0 <= m < fewer.len() implies holds_directly(
            nodes,
            i,
            #[trigger] fewer[m],
        ) by {
            assert(fewer[m] == children[m]);
        }
        assert forall|a: int, b: int| 0 <= a < b < fewer.len() implies #[trigger] fewer[a]
            < #[trigger] fewer[b] by {
            assert(fewer[a] == children[a] && fewer[b] == children[b]);
        }
        lemma_field_places(nodes, source, uri, i, fewer);
        let earlier = choose|places: Seq<(int, int)>|
            #[trigger] are_declared_at(nodes, source, uri, before, places) && forall|k: int|
                0 <= k < places.len() ==> (#[trigger] places[k]).0 == i && exists|m: int|
                    0 <= m < fewer.len() && fills(
                        nodes,
                        #[trigger] fewer[m],
                        places[k].1,
                        "name"@,
                    );
        assert forall|k: int| 0 <= k < earlier.len() implies (#[trigger] earlier[k]).0 == i
            && earlier[k].1 < c && exists|m: int|
            0 <= m < children.len() && fills(nodes, #[trigger] children[m], earlier[k].1, "name"@) by {
            let m = choose|m: int|
                0 <= m < fewer.len() && fills(nodes, #[trigger] fewer[m], earlier[k].1, "name"@);
            assert(fewer[m] == children[m]);
            lemma_name_before_sibling(nodes, i, children[m], earlier[k].1, c);
        }
        if all.len() == before.len() {
            assert(all =~= before);
            assert(are_declared_at(nodes, source, uri, all, earlier));
        } else {
            let n = child_by_field(nodes, c, "name"@)->0;
            law_a_child_fills_its_field(nodes, c, n, "name"@);
            law_the_owner_is_the_nearest_type(nodes, i, source, all.last().owner);
            let places = earlier.push((i, n));
            assert(holds_directly(nodes, i, c));
            assert(declares_field(nodes, i, n));
            assert(is_declared(nodes, source, uri, i, n, all.last()));
            assert forall|k: int| 0 <= k < all.len() implies is_declared(
                nodes,
                source,
                uri,
                places[k].0,
                places[k].1,
                #[trigger] all[k],
            ) by {
                if k < before.len() {
                    assert(all[k] == before[k] && places[k] == earlier[k]);
                }
            }
            assert forall|j: int, k: int| 0 <= j < k < places.len() implies {
                let (a, b) = (#[trigger] places[j], #[trigger] places[k]);
                a.0 < b.0 || (a.0 == b.0 && a.1 < b.1)
            } by {
                if k < earlier.len() {
                    assert(places[j] == earlier[j] && places[k] == earlier[k]);
                } else {
                    assert(places[j] == earlier[j]);
                }
            }
            assert forall|k: int| 0 <= k < places.len() implies (#[trigger] places[k]).0 == i
                && exists|m: int|
                0 <= m < children.len() && fills(
                    nodes,
                    #[trigger] children[m],
                    places[k].1,
                    "name"@,
                ) by {
                if k < earlier.len() {
                    assert(places[k] == earlier[k]);
                } else {
                    assert(fills(nodes, children[children.len() - 1], n, "name"@));
                }
            }
            assert(are_declared_at(nodes, source, uri, all, places));
        }
    }
}

/// What stands in a node stands before the node's later siblings.
proof fn lemma_name_before_sibling(nodes: Seq<NodeView>, i: int, c: int, n: int, later: int)
    requires
        holds_directly(nodes, i, c),
        holds_directly(nodes, i, later),
        c < later,
        holds_directly(nodes, c, n),
    ensures
        n < later,
{
    assert(nodes[c].depth >= nodes[later].depth);
    if later <= n {
        assert(nodes[later].depth > nodes[c].depth);
    }
}

} // verus!
