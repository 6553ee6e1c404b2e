//! A syntax tree as the list of its nodes in document order, a node before its
//! children, each with its depth. Parents and children are read off that list.

use crate::text::{opt_text, same_text};
use crate::text_position::{
    byte_len, index_at_byte, lemma_byte_len, lemma_index_at_byte, lemma_is_index_at_byte,
    lemma_offset_end, lemma_offset_monotone, lemma_offset_next, offset_of, width8,
};
use vstd::prelude::*;
use vstd::string::*;

verus! {

/// A node of a syntax tree.
#[derive(Debug, Clone, PartialEq, Eq)]
pub struct SyntaxNode {
    /// What the grammar calls the node.
    pub kind: String,
    /// The field of its parent that the node fills.
    pub field: Option<String>,
    pub start_byte: usize,
    pub end_byte: usize,
    pub is_error: bool,
    pub is_missing: bool,
    /// Whether the node is an error, is missing, or holds such a node.
    pub has_error: bool,
    pub depth: usize,
}

/// What a [`SyntaxNode`] says, as mathematical values.
pub struct NodeView {
    pub kind: Seq<char>,
    pub field: Option<Seq<char>>,
    pub start_byte: int,
    pub end_byte: int,
    pub is_error: bool,
    pub is_missing: bool,
    pub has_error: bool,
    pub depth: int,
}

impl View for SyntaxNode {
    type V = NodeView;

    open spec fn view(&self) -> NodeView {
        NodeView {
            kind: self.kind@,
            field: opt_text(self.field),
            start_byte: self.start_byte as int,
            end_byte: self.end_byte as int,
            is_error: self.is_error,
            is_missing: self.is_missing,
            has_error: self.has_error,
            depth: self.depth as int,
        }
    }
}

/// The nodes of a list, as mathematical values.
pub open spec fn node_views(list: Seq<SyntaxNode>) -> Seq<NodeView> {
    list.map_values(|n: SyntaxNode| n@)
}

// ---------------------------------------------------------------------------
// The tree in the list
// ---------------------------------------------------------------------------

/// The last index at or before `j` of a node that is less deep than the node at
/// `i`, or -1.
pub open spec fn parent_from(nodes: Seq<NodeView>, i: int, j: int) -> int
    decreases j + 1,
{
    if j < 0 {
        -1
    } else if nodes[j].depth < nodes[i].depth {
        j
    } else {
        parent_from(nodes, i, j - 1)
    }
}

/// The index of the parent of the node at `i`, or -1: the last node before it
/// that is less deep.
pub open spec fn parent_of(nodes: Seq<NodeView>, i: int) -> int {
    parent_from(nodes, i, i - 1)
}

/// The children of the node at `i` from index `j` on, in their order.
pub open spec fn children_from(nodes: Seq<NodeView>, i: int, j: int) -> Seq<int>
    decreases nodes.len() - j,
{
    if j >= nodes.len() {
        Seq::empty()
    } else if parent_of(nodes, j) == i {
        seq![j] + children_from(nodes, i, j + 1)
    } else {
        children_from(nodes, i, j + 1)
    }
}

/// The children of the node at `i`, in their order.
pub open spec fn children_of(nodes: Seq<NodeView>, i: int) -> Seq<int> {
    children_from(nodes, i, i + 1)
}

/// The first of the children that fills a field.
pub open spec fn first_in_field(nodes: Seq<NodeView>, children: Seq<int>, field: Seq<char>) -> Option<
    int,
>
    decreases children.len(),
{
    if children.len() == 0 {
        None
    } else if nodes[children[0]].field == Some(field) {
        Some(children[0])
    } else {
        first_in_field(nodes, children.skip(1), field)
    }
}

/// The first child of the node at `i` that fills a field.
pub open spec fn child_by_field(nodes: Seq<NodeView>, i: int, field: Seq<char>) -> Option<int> {
    first_in_field(nodes, children_of(nodes, i), field)
}

/// The characters of a text that start from the one byte offset up to the
/// other.
pub open spec fn slice_of(s: Seq<char>, start: int, end: int) -> Seq<char> {
    let lo = index_at_byte(s, start, 0);
    let hi = index_at_byte(s, end, 0);
    if lo <= hi {
        s.subrange(lo, hi)
    } else {
        Seq::empty()
    }
}

/// The source text of the node at `i`.
pub open spec fn text_of(nodes: Seq<NodeView>, i: int, source: Seq<char>) -> Seq<char> {
    slice_of(source, nodes[i].start_byte, nodes[i].end_byte)
}

// ---------------------------------------------------------------------------
// Facts
// ---------------------------------------------------------------------------

pub proof fn lemma_parent_from(nodes: Seq<NodeView>, i: int, j: int)
    requires
        -1 <= j < nodes.len(),
    ensures
        ({
            let p = parent_from(nodes, i, j);
            -1 <= p <= j && (p >= 0 ==> nodes[p].depth < nodes[i].depth) && forall|k: int|
                p < k <= j ==> nodes[k].depth >= nodes[i].depth
        }),
    decreases j + 1,
{
    if j >= 0 && nodes[j].depth >= nodes[i].depth {
        lemma_parent_from(nodes, i, j - 1);
    }
}

pub proof fn lemma_is_parent(nodes: Seq<NodeView>, i: int, p: int)
    requires
        0 <= i < nodes.len(),
        -1 <= p < i,
        p >= 0 ==> nodes[p].depth < nodes[i].depth,
        forall|k: int| p < k < i ==> nodes[k].depth >= nodes[i].depth,
    ensures
        parent_of(nodes, i) == p,
{
    lemma_parent_from(nodes, i, i - 1);
    let q = parent_of(nodes, i);
    if q < p {
        assert(nodes[p].depth >= nodes[i].depth);
    } else if q > p {
        assert(nodes[q].depth >= nodes[i].depth);
    }
}

pub proof fn lemma_children_from(nodes: Seq<NodeView>, i: int, j: int)
    requires
        0 <= j,
    ensures
        forall|k: int|
            0 <= k < children_from(nodes, i, j).len() ==> j <= #[trigger] children_from(
                nodes,
                i,
                j,
            )[k] < nodes.len() && parent_of(nodes, children_from(nodes, i, j)[k]) == i,
    decreases nodes.len() - j,
{
    if j < nodes.len() {
        lemma_children_from(nodes, i, j + 1);
        let rest = children_from(nodes, i, j + 1);
        let all = children_from(nodes, i, j);
        assert forall|k: int| 0 <= k < all.len() implies j <= #[trigger] all[k] < nodes.len()
            && parent_of(nodes, all[k]) == i by {
            if parent_of(nodes, j) == i {
                if k > 0 {
                    assert(all[k] == rest[k - 1]);
                }
            } else {
                assert(all[k] == rest[k]);
            }
        }
    }
}

/// Behind a node that is not deeper than the one at `i`, that one has no child.
proof fn lemma_no_children_behind(nodes: Seq<NodeView>, i: int, j: int, k: int)
    requires
        0 <= i < j < nodes.len(),
        nodes[j].depth <= nodes[i].depth,
        j <= k,
    ensures
        children_from(nodes, i, k) == Seq::<int>::empty(),
    decreases nodes.len() - k,
{
    if k < nodes.len() {
        lemma_no_children_behind(nodes, i, j, k + 1);
        lemma_parent_from(nodes, k, k - 1);
        if parent_of(nodes, k) == i {
            if j < k {
                assert(nodes[j].depth >= nodes[k].depth);
            }
        }
    }
}

// ---------------------------------------------------------------------------
// The list, executable
// ---------------------------------------------------------------------------

/// The characters of a text that start from the one byte offset up to the
/// other.
pub fn slice_text(source: &str, start: usize, end: usize) -> (r: String)
    ensures
        r@ == slice_of(source@, start as int, end as int),
{
    let ghost s = source@;
    let ghost lo = index_at_byte(s, start as int, 0);
    let ghost hi = index_at_byte(s, end as int, 0);
    let total: usize = source.as_bytes().len();
    proof {
        lemma_byte_len(s);
        lemma_offset_end(s);
        lemma_index_at_byte(s, start as int, 0);
        lemma_index_at_byte(s, end as int, 0);
    }
    let mut out = String::new();
    let mut offset: usize = 0;
    for c in it: source.chars()
        invariant
            s == source@,
            it.seq() == s,
            total == byte_len(s),
            offset == offset_of(s, it.index() as int),
            lo == index_at_byte(s, start as int, 0),
            hi == index_at_byte(s, end as int, 0),
            0 <= lo <= s.len(),
            0 <= hi <= s.len(),
            lo < s.len() ==> offset_of(s, lo) >= start,
            hi < s.len() ==> offset_of(s, hi) >= end,
            forall|k: int| 0 <= k < lo ==> offset_of(s, k) < start,
            forall|k: int| 0 <= k < hi ==> offset_of(s, k) < end,
            it.index() <= hi,
            out@ == if lo <= it.index() {
                s.subrange(lo, it.index() as int)
            } else {
                Seq::empty()
            },
    {
        let ghost i = it.index() as int;
        proof {
            lemma_offset_next(s, i);
            lemma_offset_monotone(s, i + 1, s.len() as int);
            lemma_offset_end(s);
        }
        if offset >= end {
            assert(i == hi);
            return out;
        }
        assert(i < hi) by {
            if hi <= i {
                lemma_offset_monotone(s, hi, i);
            }
        }
        if offset >= start {
            assert(lo <= i);
            out.push(c);
            assert(out@ =~= s.subrange(lo, i + 1));
        } else {
            assert(i < lo) by {
                if lo <= i {
                    lemma_offset_monotone(s, lo, i);
                }
            }
            assert(out@ =~= if lo <= i + 1 {
                s.subrange(lo, i + 1)
            } else {
                Seq::empty()
            });
        }
        offset += width8(c);
    }
    out
}

/// The nodes of a syntax tree with the parent of each.
pub struct Nodes {
    pub list: Vec<SyntaxNode>,
    pub parents: Vec<Option<usize>>,
}

impl View for Nodes {
    type V = Seq<NodeView>;

    open spec fn view(&self) -> Seq<NodeView> {
        node_views(self.list@)
    }
}

impl Nodes {
    /// Whether each node's parent is the one that the list gives it.
    pub open spec fn wf(self) -> bool {
        &&& self.parents@.len() == self.list@.len()
        &&& forall|i: int|
            0 <= i < self.list@.len() ==> match #[trigger] self.parents@[i] {
                Some(p) => parent_of(self@, i) == p,
                None => parent_of(self@, i) == -1,
            }
    }

    /// The list with its parents found.
    pub fn new(list: Vec<SyntaxNode>) -> (r: Self)
        ensures
            r.wf(),
            r@ == node_views(list@),
    {
        let mut parents: Vec<Option<usize>> = Vec::new();
        let ghost nodes = node_views(list@);
        let mut i: usize = 0;
        while i < list.len()
            invariant
                i <= list.len(),
                nodes == node_views(list@),
                parents.len() == i,
                forall|k: int|
                    0 <= k < i ==> match #[trigger] parents@[k] {
                        Some(p) => parent_of(nodes, k) == p,
                        None => parent_of(nodes, k) == -1,
                    },
            decreases list.len() - i,
        {
            let depth: usize = list[i].depth;
            let mut candidate: Option<usize> = if i == 0 {
                None
            } else {
                Some(i - 1)
            };
            let mut found = false;
            while !found
                invariant
                    i < list.len(),
                    nodes == node_views(list@),
                    parents.len() == i,
                    depth == nodes[i as int].depth,
                    forall|k: int|
                        0 <= k < i ==> match #[trigger] parents@[k] {
                            Some(p) => parent_of(nodes, k) == p,
                            None => parent_of(nodes, k) == -1,
                        },
                    candidate is Some ==> candidate->0 < i,
                    ({
                        let p = match candidate {
                            Some(p) => p as int,
                            None => -1,
                        };
                        &&& forall|k: int| p < k < i ==> nodes[k].depth >= depth
                        &&& found && p >= 0 ==> nodes[p].depth < depth
                    }),
                decreases
                        (if found {
                            0int
                        } else {
                            1
                        }),
                        (match candidate {
                            Some(p) => p as int + 1,
                            None => 0,
                        }),
            {
                match candidate {
                    None => {
                        found = true;
                    },
                    Some(p) => {
                        if list[p].depth < depth {
                            found = true;
                        } else {
                            proof {
                                lemma_parent_from(nodes, p as int, p - 1);
                                assert(parents@[p as int] matches Some(q) ==> q < p);
                            }
                            candidate = parents[p];
                        }
                    },
                }
            }
            proof {
                let p = match candidate {
                    Some(p) => p as int,
                    None => -1,
                };
                lemma_is_parent(nodes, i as int, p);
            }
            parents.push(candidate);
            i += 1;
        }
        Nodes { list, parents }
    }

    pub fn len(&self) -> (r: usize)
        ensures
            r == self@.len(),
    {
        self.list.len()
    }

    /// The node's parent.
    pub fn parent(&self, i: usize) -> (r: Option<usize>)
        requires
            self.wf(),
            i < self@.len(),
        ensures
            match r {
                Some(p) => parent_of(self@, i as int) == p && p < i,
                None => parent_of(self@, i as int) == -1,
            },
    {
        proof {
            lemma_parent_from(self@, i as int, i - 1);
        }
        self.parents[i]
    }

    /// The node's children, in their order.
    pub fn children(&self, i: usize) -> (r: Vec<usize>)
        requires
            self.wf(),
            i < self@.len(),
        ensures
            r@.map_values(|c: usize| c as int) == children_of(self@, i as int),
            forall|k: int| 0 <= k < r@.len() ==> i < #[trigger] r@[k] < self@.len(),
    {
        let mut out: Vec<usize> = Vec::new();
        let len: usize = self.list.len();
        let mut j: usize = i + 1;
        let ghost nodes = self@;
        let ghost to_int = |c: usize| c as int;
        assert(out@.map_values(to_int) =~= Seq::empty());
        assert(Seq::<int>::empty() + children_of(nodes, i as int) =~= children_of(nodes, i as int));
        while j < len
            invariant
                i < j <= len,
                len == self.list.len(),
                self.wf(),
                nodes == self@,
                to_int == (|c: usize| c as int),
                children_of(nodes, i as int) == out@.map_values(to_int) + children_from(
                    nodes,
                    i as int,
                    j as int,
                ),
                forall|k: int| 0 <= k < out@.len() ==> i < #[trigger] out@[k] < nodes.len(),
            decreases len - j,
        {
            if self.list[j].depth <= self.list[i].depth {
                proof {
                    lemma_no_children_behind(nodes, i as int, j as int, j as int);
                    assert(out@.map_values(to_int) + Seq::<int>::empty() =~= out@.map_values(
                        to_int,
                    ));
                }
                return out;
            }
            let ghost before = out@.map_values(to_int);
            let ghost rest = children_from(nodes, i as int, j + 1);
            let mine = match self.parents[j] {
                Some(p) => p == i,
                None => false,
            };
            if mine {
                out.push(j);
                assert(out@.map_values(to_int) =~= before.push(j as int));
                assert(before + (seq![j as int] + rest) =~= before.push(j as int) + rest);
            }
            j += 1;
        }
        assert(out@.map_values(to_int) + Seq::<int>::empty() =~= out@.map_values(to_int));
        out
    }

    /// The node's first child that fills a field.
    pub fn child_by_field_name(&self, i: usize, field: &str) -> (r: Option<usize>)
        requires
            self.wf(),
            i < self@.len(),
        ensures
            match r {
                Some(j) => child_by_field(self@, i as int, field@) == Some(j as int) && i < j
                    < self@.len(),
                None => child_by_field(self@, i as int, field@) is None,
            },
    {
        let children = self.children(i);
        let ghost all = children@.map_values(|c: usize| c as int);
        let mut k: usize = 0;
        assert(all.skip(0) =~= all);
        while k < children.len()
            invariant
                k <= children.len(),
                all == children@.map_values(|c: usize| c as int),
                all == children_of(self@, i as int),
                forall|m: int| 0 <= m < children@.len() ==> i < #[trigger] children@[m]
                    < self@.len(),
                child_by_field(self@, i as int, field@) == first_in_field(
                    self@,
                    all.skip(k as int),
                    field@,
                ),
            decreases children.len() - k,
        {
            let j: usize = children[k];
            assert(all.skip(k as int)[0] == j);
            assert(all.skip(k as int).skip(1) =~= all.skip(k + 1));
            if self.has_field(j, field) {
                return Some(j);
            }
            k += 1;
        }
        None
    }

    /// Whether the node fills a field.
    pub fn has_field(&self, i: usize, field: &str) -> (r: bool)
        requires
            i < self@.len(),
        ensures
            r == (self@[i as int].field == Some(field@)),
    {
        match &self.list[i].field {
            Some(name) => same_text(name.as_str(), field),
            None => false,
        }
    }

    /// Whether the node is of a kind.
    pub fn is_kind(&self, i: usize, kind: &str) -> (r: bool)
        requires
            i < self@.len(),
        ensures
            r == (self@[i as int].kind == kind@),
    {
        same_text(self.list[i].kind.as_str(), kind)
    }

    /// The source text of the node.
    pub fn text(&self, i: usize, source: &str) -> (r: String)
        requires
            i < self@.len(),
        ensures
            r@ == text_of(self@, i as int, source@),
    {
        slice_text(source, self.list[i].start_byte, self.list[i].end_byte)
    }
}

// ---------------------------------------------------------------------------
// Laws
// ---------------------------------------------------------------------------

/// Whether the node at `d` holds the node at `i`, however deep: all that stands
/// behind the one up to the other is deeper than it.
pub open spec fn holds(nodes: Seq<NodeView>, d: int, i: int) -> bool {
    &&& 0 <= d < i < nodes.len()
    &&& forall|k: int| d < k <= i ==> (#[trigger] nodes[k]).depth > nodes[d].depth
}

/// Whether the node at `i` stands directly in the node at `p`.
pub open spec fn holds_directly(nodes: Seq<NodeView>, p: int, i: int) -> bool {
    &&& holds(nodes, p, i)
    &&& forall|k: int| p < k < i ==> (#[trigger] nodes[k]).depth >= nodes[i].depth
}

/// Whether the node at `i` is the first to fill a field of the node at `p`.
pub open spec fn fills(nodes: Seq<NodeView>, p: int, i: int, field: Seq<char>) -> bool {
    &&& holds_directly(nodes, p, i)
    &&& nodes[i].field == Some(field)
    &&& forall|k: int|
        p < k < i && #[trigger] holds_directly(nodes, p, k) ==> nodes[k].field != Some(field)
}

/// Whether no node fills a field of the node at `p`.
pub open spec fn lacks(nodes: Seq<NodeView>, p: int, field: Seq<char>) -> bool {
    forall|k: int| #[trigger] holds_directly(nodes, p, k) ==> nodes[k].field != Some(field)
}

/// A node's parent is the node that it stands directly in.
pub proof fn law_a_parent_holds_directly(nodes: Seq<NodeView>, p: int, i: int)
    requires
        0 <= i < nodes.len(),
    ensures
        0 <= p ==> (parent_of(nodes, i) == p <==> holds_directly(nodes, p, i)),
        parent_of(nodes, i) < i,
{
    lemma_parent_from(nodes, i, i - 1);
    if holds_directly(nodes, p, i) {
        lemma_is_parent(nodes, i, p);
    }
}

/// The children of a node are the nodes that stand directly in it, each once
/// and in document order.
pub proof fn law_children_stand_directly_in_their_parent(nodes: Seq<NodeView>, p: int)
    requires
        0 <= p < nodes.len(),
    ensures
        forall|k: int| #[trigger] children_of(nodes, p).contains(k) <==> holds_directly(
            nodes,
            p,
            k,
        ),
        forall|a: int, b: int|
            0 <= a < b < children_of(nodes, p).len() ==> #[trigger] children_of(nodes, p)[a]
                < #[trigger] children_of(nodes, p)[b],
{
    lemma_children_sorted(nodes, p, p + 1);
    let all = children_of(nodes, p);
    assert forall|k: int| #[trigger] all.contains(k) <==> holds_directly(nodes, p, k) by {
        if p < k < nodes.len() {
            law_a_parent_holds_directly(nodes, p, k);
        }
    }
}

proof fn lemma_children_sorted(nodes: Seq<NodeView>, p: int, j: int)
    requires
        0 <= p < j,
    ensures
        forall|k: int| #[trigger]
            children_from(nodes, p, j).contains(k) <==> j <= k < nodes.len() && parent_of(nodes, k)
                == p,
        forall|a: int, b: int|
            0 <= a < b < children_from(nodes, p, j).len() ==> #[trigger] children_from(
                nodes,
                p,
                j,
            )[a] < #[trigger] children_from(nodes, p, j)[b],
    decreases nodes.len() - j,
{
    let all = children_from(nodes, p, j);
    if j < nodes.len() {
        lemma_children_sorted(nodes, p, j + 1);
        let rest = children_from(nodes, p, j + 1);
        if parent_of(nodes, j) == p {
            assert(all =~= seq![j] + rest);
            assert forall|k: int| #[trigger] all.contains(k) <==> j <= k < nodes.len()
                && parent_of(nodes, k) == p by {
                if k == j {
                    assert(all[0] == j);
                }
                if rest.contains(k) {
                    let m = choose|m: int| 0 <= m < rest.len() && rest[m] == k;
                    assert(all[m + 1] == k);
                }
                if all.contains(k) && k != j {
                    let m = choose|m: int| 0 <= m < all.len() && all[m] == k;
                    assert(rest[m - 1] == k);
                }
            }
            assert forall|a: int, b: int| 0 <= a < b < all.len() implies #[trigger] all[a]
                < #[trigger] all[b] by {
                assert(all[b] == rest[b - 1]);
                if a > 0 {
                    assert(all[a] == rest[a - 1]);
                } else {
                    assert(rest.contains(rest[b - 1]));
                }
            }
        }
    }
}

/// The child in a field is the first node to fill it; there is none where no
/// node fills it.
pub proof fn law_a_child_fills_its_field(
    nodes: Seq<NodeView>,
    p: int,
    i: int,
    field: Seq<char>,
)
    requires
        0 <= p < nodes.len(),
    ensures
        child_by_field(nodes, p, field) == Some(i) <==> fills(nodes, p, i, field),
        child_by_field(nodes, p, field) is None <==> lacks(nodes, p, field),
{
    law_children_stand_directly_in_their_parent(nodes, p);
    let all = children_of(nodes, p);
    lemma_first_in_field(nodes, all, field);
    let found = first_in_field(nodes, all, field);
    if let Some(j) = found {
        let m = choose|m: int|
            0 <= m < all.len() && all[m] == j && forall|k: int|
                0 <= k < m ==> nodes[#[trigger] all[k]].field != Some(field);
        assert(all.contains(j));
        assert forall|k: int| p < k < j && #[trigger] holds_directly(
            nodes,
            p,
            k,
        ) implies nodes[k].field != Some(field) by {
            assert(all.contains(k));
            let n = choose|n: int| 0 <= n < all.len() && all[n] == k;
            if n >= m {
                if n > m {
                    assert(all[m] < all[n]);
                }
            }
        }
        assert(fills(nodes, p, j, field));
        if fills(nodes, p, i, field) && i != j {
            assert(holds_directly(nodes, p, i) && holds_directly(nodes, p, j));
        }
        assert(!lacks(nodes, p, field));
    } else {
        assert forall|k: int| #[trigger] holds_directly(nodes, p, k) implies nodes[k].field != Some(
            field,
        ) by {
            assert(all.contains(k));
            let n = choose|n: int| 0 <= n < all.len() && all[n] == k;
            assert(nodes[all[n]].field != Some(field));
        }
    }
}

proof fn lemma_first_in_field(nodes: Seq<NodeView>, children: Seq<int>, field: Seq<char>)
    ensures
        match first_in_field(nodes, children, field) {
            Some(j) => nodes[j].field == Some(field) && exists|m: int|
                0 <= m < children.len() && children[m] == j && forall|k: int|
                    0 <= k < m ==> nodes[#[trigger] children[k]].field != Some(field),
            None => forall|k: int|
                0 <= k < children.len() ==> nodes[#[trigger] children[k]].field != Some(field),
        },
    decreases children.len(),
{
    if children.len() > 0 {
        let rest = children.skip(1);
        if nodes[children[0]].field == Some(field) {
            assert(children[0] == children[0] && forall|k: int|
                0 <= k < 0 ==> nodes[#[trigger] children[k]].field != Some(field));
        } else {
            lemma_first_in_field(nodes, rest, field);
            match first_in_field(nodes, rest, field) {
                Some(j) => {
                    let m = choose|m: int|
                        0 <= m < rest.len() && rest[m] == j && forall|k: int|
                            0 <= k < m ==> nodes[#[trigger] rest[k]].field != Some(field);
                    assert(children[m + 1] == j);
                    assert forall|k: int| 0 <= k < m + 1 implies nodes[#[trigger] children[k]].field
                        != Some(field) by {
                        if k > 0 {
                            assert(children[k] == rest[k - 1]);
                        }
                    }
                },
                None => {
                    assert forall|k: int| 0 <= k < children.len() implies nodes[
                    #[trigger] children[k]].field != Some(field) by {
                        if k > 0 {
                            assert(children[k] == rest[k - 1]);
                        }
                    }
                },
            }
        }
    }
}

/// The text of a node is what stands in the source between its two offsets.
pub proof fn law_the_text_of_a_node_stands_at_its_bytes(
    nodes: Seq<NodeView>,
    i: int,
    source: Seq<char>,
    start: int,
    end: int,
)
    requires
        0 <= i < nodes.len(),
        0 <= start <= end <= source.len(),
        nodes[i].start_byte == byte_len(source.take(start)),
        nodes[i].end_byte == byte_len(source.take(end)),
    ensures
        text_of(nodes, i, source) == source.subrange(start, end),
{
    lemma_index_of_boundary(source, start);
    lemma_index_of_boundary(source, end);
}

proof fn lemma_index_of_boundary(s: Seq<char>, at: int)
    requires
        0 <= at <= s.len(),
    ensures
        index_at_byte(s, offset_of(s, at), 0) == at,
{
    assert forall|k: int| 0 <= k < at implies offset_of(s, k) < offset_of(s, at) by {
        lemma_offset_monotone(s, k, at);
    }
    lemma_is_index_at_byte(s, offset_of(s, at), 0, at);
}

} // verus!
