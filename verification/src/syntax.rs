//! A document's text with its syntax tree, kept in step with edits.

use crate::protocol::{
    ChangeView, Diagnostic, DiagnosticSeverity, DiagnosticView, Position, Range,
    TextDocumentContentChangeEvent, diagnostic_views,
};
use crate::syntax_node::{NodeView, Nodes, SyntaxNode, node_views, slice_text, text_of};
use crate::text::{
    alphanumeric, find_last, from_range, is_whitespace, last_index, lemma_last_index, to_chars,
    whitespace,
};
use crate::text_position::{
    byte_column_of_position, byte_len, byte_offset_to_position, column_of, index_at_byte,
    index_of_position, law_position_of_an_offset_leads_back, line_of,
    lemma_byte_len, lemma_index_of_position, lemma_is_index_at_byte, lemma_offset_end,
    lemma_offset_monotone, lemma_offset_next, newlines, offset_of, offset_of_position, position_of,
    position_to_byte_offset, position_to_byte_offset_and_column,
};
use tree_sitter::Tree;
use vstd::prelude::*;
use vstd::string::*;

verus! {

// ---------------------------------------------------------------------------
// tree-sitter
// ---------------------------------------------------------------------------

/// tree-sitter's syntax tree.
#[verifier::external_type_specification]
#[verifier::external_body]
pub struct ExTree(tree_sitter::Tree);

/// One parse of a document: of its text alone, or of its new text with the tree
/// of the parse before and what was replaced since.
pub enum ParseStep {
    Fresh(Seq<char>),
    Edited(InputEdit, Seq<char>),
}

/// The nodes that a tree holds, in document order, a node before its children.
pub uninterp spec fn tree_nodes(tree: tree_sitter::Tree) -> Seq<NodeView>;

/// The parses that a tree came of, one after the other.
pub uninterp spec fn tree_history(tree: tree_sitter::Tree) -> Seq<ParseStep>;

/// The nodes that tree-sitter's Java grammar gives a document that was parsed
/// like this.
pub uninterp spec fn parsed_nodes(history: Seq<ParseStep>) -> Seq<NodeView>;

/// The nodes that tree-sitter's Java grammar gives a text.
pub open spec fn java_nodes(source: Seq<char>) -> Seq<NodeView> {
    parsed_nodes(seq![ParseStep::Fresh(source)])
}

/// The number, in document order, of the smallest node that spans a byte offset
/// in a document that was parsed like this.
pub uninterp spec fn found_node(history: Seq<ParseStep>, byte: int) -> Option<int>;

/// `tree_sitter::Parser::parse` without an earlier tree, under the language of
/// `tree_sitter_java`: the tree holds the nodes that the grammar gives the
/// text, which depend on the text alone.
#[verifier::external_body]
fn parse_fresh(source: &str) -> (r: Tree)
    ensures
        tree_history(r) == seq![ParseStep::Fresh(source@)],
        tree_nodes(r) == parsed_nodes(seq![ParseStep::Fresh(source@)]),
{
    let mut parser = tree_sitter::Parser::new();
    parser
        .set_language(&tree_sitter_java::LANGUAGE.into())
        .expect("tree-sitter-java grammar is always a valid language");
    parser.parse(source, None).expect("parsing a &str never times out or is cancelled")
}

/// `tree_sitter::Tree::walk`: hands out every node of the tree by
/// `TreeCursor::goto_descendant`, which numbers them in document order, a node
/// before its children, with the kind, byte range and flags of the node and
/// with the field and depth that the cursor gives there.
#[verifier::external_body]
pub(crate) fn list_nodes(tree: &Tree) -> (r: Vec<SyntaxNode>)
    ensures
        node_views(r@) == tree_nodes(*tree),
{
    let mut cursor = tree.walk();
    (0..tree.root_node().descendant_count()).map(|index| {
        cursor.goto_descendant(index);
        let node = cursor.node();
        let kind = node.kind().to_owned();
        let field = cursor.field_name().map(str::to_owned);
        let (start_byte, end_byte) = (node.start_byte(), node.end_byte());
        let (is_error, is_missing, has_error) = (node.is_error(), node.is_missing(), node.has_error());
        let depth = cursor.depth() as usize;
        SyntaxNode { kind, field, start_byte, end_byte, is_error, is_missing, has_error, depth }
    }).collect()
}

/// `tree_sitter::Node::descendant_for_byte_range` of the root, for one offset:
/// the node that is found, by the number that `TreeCursor::goto_descendant`
/// knows it under. Which one it is depends on the parses that the tree came of
/// and on the offset alone; it is one of the tree's nodes.
#[verifier::external_body]
fn locate(tree: &Tree, byte: usize) -> (r: Option<usize>)
    ensures
        match r {
            Some(i) => found_node(tree_history(*tree), byte as int) == Some(i as int) && i
                < tree_nodes(*tree).len(),
            None => found_node(tree_history(*tree), byte as int) is None,
        },
{
    let root = tree.root_node();
    let node = root.descendant_for_byte_range(byte, byte)?;
    let mut cursor = tree.walk();
    (0..root.descendant_count()).find(|index| {
        cursor.goto_descendant(*index);
        cursor.node() == node
    })
}

/// A place in a text: its row and the number of bytes before it on that row.
#[derive(Debug, Clone, Copy, PartialEq, Eq, Structural)]
pub struct Point {
    pub row: usize,
    pub column: usize,
}

/// What a change replaced, as tree-sitter wants to be told.
#[derive(Debug, Clone, Copy, PartialEq, Eq, Structural)]
pub struct InputEdit {
    pub start_byte: usize,
    pub old_end_byte: usize,
    pub new_end_byte: usize,
    pub start_position: Point,
    pub old_end_position: Point,
    pub new_end_position: Point,
}

/// `tree_sitter::Tree::edit`, then `tree_sitter::Parser::parse` of the new text
/// with the edited tree, under the language of `tree_sitter_java`. How much of
/// the earlier tree is reused can show wherever the text is in error, so the
/// nodes depend on all the parses that the earlier tree came of, on the edit
/// and on the new text, and on nothing else.
#[verifier::external_body]
fn reparse(tree: &mut Tree, edit: &InputEdit, source: &str) -> (r: Tree)
    ensures
        tree_history(r) == tree_history(*old(tree)).push(ParseStep::Edited(*edit, source@)),
        tree_nodes(r) == parsed_nodes(
            tree_history(*old(tree)).push(ParseStep::Edited(*edit, source@)),
        ),
{
    let point = |p: Point| tree_sitter::Point { row: p.row, column: p.column };
    tree.edit(&tree_sitter::InputEdit {
        start_byte: edit.start_byte,
        old_end_byte: edit.old_end_byte,
        new_end_byte: edit.new_end_byte,
        start_position: point(edit.start_position),
        old_end_position: point(edit.old_end_position),
        new_end_position: point(edit.new_end_position),
    });
    let mut parser = tree_sitter::Parser::new();
    parser.set_language(&tree_sitter_java::LANGUAGE.into()).expect("always a valid language");
    parser.parse(source, Some(tree)).expect("parsing a &str never times out or is cancelled")
}

/// `tree_sitter::Tree::clone`: a tree with the same nodes, that came of the same
/// parses.
#[verifier::external_body]
fn share(tree: &Tree) -> (r: Tree)
    ensures
        tree_nodes(r) == tree_nodes(*tree),
        tree_history(r) == tree_history(*tree),
{
    tree.clone()
}

/// The nodes of a tree, with their parents found.
pub(crate) fn nodes_of(tree: &Tree) -> (r: Nodes)
    ensures
        r.wf(),
        r@ == tree_nodes(*tree),
{
    Nodes::new(list_nodes(tree))
}

// ---------------------------------------------------------------------------
// Edits
// ---------------------------------------------------------------------------

/// The text with the characters between two indices replaced.
pub open spec fn spliced(s: Seq<char>, start: int, end: int, text: Seq<char>) -> Seq<char> {
    s.take(start) + text + s.skip(end)
}

/// The text behind a change. A range whose end lies before its start is taken
/// the other way round.
pub open spec fn changed_text(s: Seq<char>, range: Option<Range>, text: Seq<char>) -> Seq<char> {
    match range {
        None => text,
        Some(range) => {
            let a = index_of_position(s, range.start, 0);
            let b = index_of_position(s, range.end, 0);
            if a <= b {
                spliced(s, a, b, text)
            } else {
                spliced(s, b, a, text)
            }
        },
    }
}

/// The row and byte column of a position.
pub open spec fn point_of(s: Seq<char>, position: Position) -> Point {
    Point {
        row: position.line as usize,
        column: byte_column_of_position(s, position) as usize,
    }
}

/// The point behind a text that was inserted at a point; a row that no number
/// holds is given as the largest.
pub open spec fn point_after(start: Point, inserted: Seq<char>) -> Point {
    let last = last_index(inserted, '\n');
    if last < 0 {
        Point { row: start.row, column: (start.column + byte_len(inserted)) as usize }
    } else {
        Point {
            row: if start.row + newlines(inserted) <= usize::MAX {
                (start.row + newlines(inserted)) as usize
            } else {
                usize::MAX
            },
            column: byte_len(inserted.skip(last + 1)) as usize,
        }
    }
}

/// What a change of a range replaced.
pub open spec fn input_edit(s: Seq<char>, range: Range, text: Seq<char>) -> InputEdit {
    let forward = offset_of_position(s, range.start) <= offset_of_position(s, range.end);
    let (from, to) = if forward {
        (range.start, range.end)
    } else {
        (range.end, range.start)
    };
    InputEdit {
        start_byte: offset_of_position(s, from) as usize,
        old_end_byte: offset_of_position(s, to) as usize,
        new_end_byte: (offset_of_position(s, from) + byte_len(text)) as usize,
        start_position: point_of(s, from),
        old_end_position: point_of(s, to),
        new_end_position: point_after(point_of(s, from), text),
    }
}

proof fn lemma_index_of_offset(s: Seq<char>, index: int)
    requires
        0 <= index <= s.len(),
    ensures
        index_at_byte(s, offset_of(s, index), 0) == index,
{
    assert forall|k: int| 0 <= k < index implies offset_of(s, k) < offset_of(s, index) by {
        lemma_offset_monotone(s, k, index);
    }
    lemma_is_index_at_byte(s, offset_of(s, index), 0, index);
}

proof fn lemma_byte_len_add(a: Seq<char>, b: Seq<char>)
    ensures
        byte_len(a + b) == byte_len(a) + byte_len(b),
    decreases b.len(),
{
    if b.len() == 0 {
        assert(a + b =~= a);
    } else {
        lemma_byte_len_add(a, b.drop_last());
        assert((a + b).drop_last() =~= a + b.drop_last());
    }
}

proof fn lemma_newlines_bound(s: Seq<char>)
    ensures
        newlines(s) <= byte_len(s),
    decreases s.len(),
{
    if s.len() > 0 {
        lemma_newlines_bound(s.drop_last());
    }
}

proof fn lemma_byte_column(s: Seq<char>, position: Position)
    ensures
        0 <= byte_column_of_position(s, position) <= offset_of_position(s, position) <= byte_len(s),
{
    let index = index_of_position(s, position, 0);
    lemma_index_of_position(s, position, 0);
    let start = crate::text_position::line_start(s, index);
    crate::text::lemma_last_index(s.take(index), '\n');
    lemma_offset_monotone(s, start, index);
    lemma_offset_monotone(s, index, s.len() as int);
    lemma_offset_end(s);
}

fn count_newlines(text: &str) -> (r: usize)
    ensures
        r == newlines(text@),
{
    let ghost s = text@;
    let total: usize = text.as_bytes().len();
    proof {
        lemma_byte_len(s);
        assert(s.take(0) =~= Seq::empty());
    }
    let mut n: usize = 0;
    for c in it: text.chars()
        invariant
            s == text@,
            it.seq() == s,
            total == byte_len(s),
            n == newlines(s.take(it.index() as int)),
    {
        let ghost i = it.index() as int;
        proof {
            lemma_offset_next(s, i);
            lemma_offset_monotone(s, i + 1, s.len() as int);
            lemma_offset_end(s);
            lemma_newlines_bound(s.take(i + 1));
        }
        if c == '\n' {
            n += 1;
        }
    }
    assert(s.take(s.len() as int) =~= s);
    n
}

/// The point behind `inserted`, which goes in at `start`.
fn point_after_insert(start: Point, inserted: &str) -> (r: Point)
    requires
        start.column + byte_len(inserted@) <= usize::MAX,
    ensures
        r == point_after(start, inserted@),
{
    let chars = to_chars(inserted);
    let len: usize = chars.len();
    proof {
        lemma_byte_len(inserted@);
    }
    match find_last(&chars, '\n') {
        Some(last) => {
            let tail = from_range(&chars, last + 1, len);
            let column: usize = tail.as_str().as_bytes().len();
            proof {
                lemma_byte_len(tail@);
                assert(tail@ =~= inserted@.skip(last + 1));
            }
            Point { row: start.row.saturating_add(count_newlines(inserted)), column }
        },
        None => Point { row: start.row, column: start.column + inserted.as_bytes().len() },
    }
}

/// The text behind a change of a range, and what the change replaced.
pub fn edited(source: &str, range: Range, text: &str) -> (r: (String, InputEdit))
    ensures
        r.0@ == changed_text(source@, Some(range), text@),
        r.1 == input_edit(source@, range, text@),
{
    let ghost s = source@;
    let ghost a = index_of_position(s, range.start, 0);
    let ghost b = index_of_position(s, range.end, 0);
    let total: usize = source.as_bytes().len();
    proof {
        lemma_byte_len(s);
        lemma_byte_len(text@);
        lemma_offset_end(s);
        lemma_index_of_position(s, range.start, 0);
        lemma_index_of_position(s, range.end, 0);
        lemma_byte_column(s, range.start);
        lemma_byte_column(s, range.end);
        lemma_index_of_offset(s, a);
        lemma_index_of_offset(s, b);
        lemma_index_of_offset(s, 0);
        lemma_index_of_offset(s, s.len() as int);
        if a <= b {
            lemma_offset_monotone(s, a, b);
        } else {
            lemma_offset_monotone(s, b, a);
        }
    }
    let (a_byte, a_column) = position_to_byte_offset_and_column(source, range.start);
    let (b_byte, b_column) = position_to_byte_offset_and_column(source, range.end);
    let a_point = Point { row: range.start.line as usize, column: a_column };
    let b_point = Point { row: range.end.line as usize, column: b_column };
    let (start_byte, old_end_byte, start_position, old_end_position) = if a_byte > b_byte {
        (b_byte, a_byte, b_point, a_point)
    } else {
        (a_byte, b_byte, a_point, b_point)
    };
    let mut new_source = slice_text(source, 0, start_byte);
    let ghost head = new_source@;
    new_source.append(text);
    let tail = slice_text(source, old_end_byte, total);
    new_source.append(tail.as_str());
    let new_total: usize = new_source.as_str().as_bytes().len();
    proof {
        lemma_byte_len(new_source@);
        lemma_byte_len_add(head + text@, tail@);
        lemma_byte_len_add(head, text@);
        let lo = if a <= b {
            a
        } else {
            b
        };
        let hi = if a <= b {
            b
        } else {
            a
        };
        assert(head =~= s.take(lo));
        assert(tail@ =~= s.skip(hi));
        assert(start_byte == offset_of(s, lo));
        assert(new_total >= start_byte + byte_len(text@));
    }
    let new_end_position = point_after_insert(start_position, text);
    let new_end_byte: usize = start_byte + text.as_bytes().len();
    (
        new_source,
        InputEdit {
            start_byte,
            old_end_byte,
            new_end_byte,
            start_position,
            old_end_position,
            new_end_position,
        },
    )
}

// ---------------------------------------------------------------------------
// Reading the tree
// ---------------------------------------------------------------------------

/// The range between two byte offsets.
pub open spec fn byte_range(s: Seq<char>, start: int, end: int) -> Range {
    Range {
        start: position_of(s, index_at_byte(s, start, 0)),
        end: position_of(s, index_at_byte(s, end, 0)),
    }
}

/// The range of the node at `i`.
pub open spec fn range_of(nodes: Seq<NodeView>, i: int, source: Seq<char>) -> Range {
    byte_range(source, nodes[i].start_byte, nodes[i].end_byte)
}

/// What is reported of a node that is in error or missing.
pub open spec fn node_diagnostic(node: NodeView, source: Seq<char>) -> DiagnosticView {
    DiagnosticView {
        range: byte_range(source, node.start_byte, node.end_byte),
        severity: Some(DiagnosticSeverity::Error),
        source: Some("java-lsp"@),
        message: if node.is_missing {
            "syntax error: missing "@ + node.kind
        } else {
            "syntax error"@
        },
    }
}

/// The diagnostics of the nodes that are in error or missing, in their order.
pub open spec fn error_diagnostics(nodes: Seq<NodeView>, source: Seq<char>) -> Seq<DiagnosticView>
    decreases nodes.len(),
{
    if nodes.len() == 0 {
        Seq::empty()
    } else {
        let before = error_diagnostics(nodes.drop_last(), source);
        let node = nodes.last();
        if node.is_error || node.is_missing {
            before.push(node_diagnostic(node, source))
        } else {
            before
        }
    }
}

/// The diagnostics of a document: none where the root says that nothing below
/// it is in error.
pub open spec fn diagnostics_of(nodes: Seq<NodeView>, source: Seq<char>) -> Seq<DiagnosticView> {
    if nodes.len() > 0 && nodes[0].has_error {
        error_diagnostics(nodes, source)
    } else {
        Seq::empty()
    }
}

pub open spec fn is_identifier_kind(kind: Seq<char>) -> bool {
    kind == "identifier"@ || kind == "type_identifier"@
}

/// The identifier that the node at `i` is, with its range.
pub open spec fn identifier_of(nodes: Seq<NodeView>, i: int, source: Seq<char>) -> Option<
    (Seq<char>, Range),
> {
    if is_identifier_kind(nodes[i].kind) {
        Some((text_of(nodes, i, source), range_of(nodes, i, source)))
    } else {
        None
    }
}

/// The smallest node that spans a position.
pub open spec fn node_at(document: SyntaxTreeView, position: Position) -> Option<int> {
    found_node(document.history, offset_of_position(document.source, position))
}

/// The identifier that a position lies on, with its range.
pub open spec fn identifier_under(document: SyntaxTreeView, position: Position) -> Option<
    (Seq<char>, Range),
> {
    match node_at(document, position) {
        Some(i) => identifier_of(document.nodes, i, document.source),
        None => None,
    }
}

pub open spec fn is_word_char(c: char) -> bool {
    alphanumeric(c) || c == '_' || c == '$'
}

/// The index at which the word that ends at `end` starts.
pub open spec fn word_start(s: Seq<char>, end: int) -> int
    decreases end,
{
    if 0 < end <= s.len() && is_word_char(s[end - 1]) {
        word_start(s, end - 1)
    } else {
        end
    }
}

/// The word that ends at a position.
pub open spec fn word_before(s: Seq<char>, position: Position) -> Seq<char> {
    let end = index_of_position(s, position, 0);
    s.subrange(word_start(s, end), end)
}

/// The index behind the last character before `end` that is not white space.
pub open spec fn space_start(s: Seq<char>, end: int) -> int
    decreases end,
{
    if 0 < end <= s.len() && is_whitespace(s[end - 1]) {
        space_start(s, end - 1)
    } else {
        end
    }
}

/// The index at which the dotted words that end at `end` start.
pub open spec fn path_start(s: Seq<char>, end: int) -> int
    decreases end,
{
    if 0 < end <= s.len() && (is_word_char(s[end - 1]) || s[end - 1] == '.') {
        path_start(s, end - 1)
    } else {
        end
    }
}

/// What stands before the dot that the word at a position follows: the dotted
/// words there, none for another expression, and the position of their start.
/// `None` where the word follows no dot.
pub open spec fn receiver_before(s: Seq<char>, position: Position) -> Option<
    (Seq<char>, Position),
> {
    let dot = space_start(s, word_start(s, index_of_position(s, position, 0)));
    if 0 < dot && s[dot - 1] == '.' {
        let end = space_start(s, dot - 1);
        let start = path_start(s, end);
        Some((s.subrange(start, end), position_of(s, start)))
    } else {
        None
    }
}

/// The range of a node.
pub fn node_range(nodes: &Nodes, i: usize, source: &str) -> (r: Range)
    requires
        i < nodes@.len(),
    ensures
        r == range_of(nodes@, i as int, source@),
{
    Range {
        start: byte_offset_to_position(source, nodes.list[i].start_byte),
        end: byte_offset_to_position(source, nodes.list[i].end_byte),
    }
}

/// The diagnostics of a document with these nodes.
pub fn collect_error_diagnostics(nodes: &Nodes, source: &str) -> (r: Vec<Diagnostic>)
    ensures
        diagnostic_views(r@) == diagnostics_of(nodes@, source@),
{
    let mut out: Vec<Diagnostic> = Vec::new();
    assert(diagnostic_views(out@) =~= Seq::empty());
    if nodes.list.len() == 0 || !nodes.list[0].has_error {
        return out;
    }
    let mut i: usize = 0;
    assert(nodes@.take(0) =~= Seq::empty());
    while i < nodes.list.len()
        invariant
            i <= nodes.list.len(),
            diagnostic_views(out@) == error_diagnostics(nodes@.take(i as int), source@),
        decreases nodes.list.len() - i,
    {
        let ghost before = out@;
        assert(nodes@.take(i + 1).drop_last() =~= nodes@.take(i as int));
        assert(nodes@.take(i + 1).last() == nodes.list@[i as int]@);
        let node = &nodes.list[i];
        if node.is_error || node.is_missing {
            let mut message = String::new();
            if node.is_missing {
                message.append("syntax error: missing ");
                message.append(node.kind.as_str());
                assert(message@ =~= "syntax error: missing "@ + node.kind@);
            } else {
                message.append("syntax error");
                assert(message@ =~= "syntax error"@);
            }
            let diagnostic = Diagnostic {
                range: node_range(nodes, i, source),
                severity: Some(DiagnosticSeverity::Error),
                source: Some("java-lsp".to_owned()),
                message,
            };
            out.push(diagnostic);
            assert(diagnostic_views(out@) =~= diagnostic_views(before).push(diagnostic@));
        }
        i += 1;
    }
    assert(nodes@.take(i as int) =~= nodes@);
    out
}

/// The smallest node of a tree that spans a position in its text.
pub(crate) fn node_at_position(tree: &Tree, source: &str, position: Position) -> (r: Option<usize>)
    ensures
        match r {
            Some(i) => node_at(tree_view(*tree, source@), position) == Some(i as int) && i
                < tree_nodes(*tree).len(),
            None => node_at(tree_view(*tree, source@), position) is None,
        },
{
    locate(tree, position_to_byte_offset(source, position))
}

/// The identifier that the node at `i` is.
pub fn identifier_in(nodes: &Nodes, i: usize, source: &str) -> (r: Option<(String, Range)>)
    requires
        nodes.wf(),
        i < nodes@.len(),
    ensures
        match r {
            Some((name, range)) => identifier_of(nodes@, i as int, source@) == Some((name@, range)),
            None => identifier_of(nodes@, i as int, source@) is None,
        },
{
    if nodes.is_kind(i, "identifier") || nodes.is_kind(i, "type_identifier") {
        Some((nodes.text(i, source), node_range(nodes, i, source)))
    } else {
        None
    }
}

/// A document's text with its syntax tree.
pub struct SyntaxTree {
    source: String,
    tree: Tree,
}

/// What a [`SyntaxTree`] holds, as mathematical values: the text, the parses
/// that its tree came of, and the nodes that they gave.
pub struct SyntaxTreeView {
    pub source: Seq<char>,
    pub history: Seq<ParseStep>,
    pub nodes: Seq<NodeView>,
}

/// A tree with its text.
pub open spec fn tree_view(tree: Tree, source: Seq<char>) -> SyntaxTreeView {
    SyntaxTreeView { source, history: tree_history(tree), nodes: tree_nodes(tree) }
}

/// A text that was parsed for itself.
pub open spec fn fresh_tree(source: Seq<char>) -> SyntaxTreeView {
    SyntaxTreeView {
        source,
        history: seq![ParseStep::Fresh(source)],
        nodes: java_nodes(source),
    }
}

/// A document behind a change: a change of the whole text is parsed for itself,
/// and a change of a range with the tree before it and what was replaced.
pub open spec fn changed(tree: SyntaxTreeView, change: ChangeView) -> SyntaxTreeView {
    match change.range {
        None => fresh_tree(change.text),
        Some(range) => {
            let source = changed_text(tree.source, change.range, change.text);
            let history = tree.history.push(
                ParseStep::Edited(input_edit(tree.source, range, change.text), source),
            );
            SyntaxTreeView { source, history, nodes: parsed_nodes(history) }
        },
    }
}

impl View for SyntaxTree {
    type V = SyntaxTreeView;

    closed spec fn view(&self) -> SyntaxTreeView {
        tree_view(self.tree, self.source@)
    }
}

impl SyntaxTree {
    /// Parses a text.
    pub fn parse(source: &str) -> (r: Self)
        ensures
            r@ == fresh_tree(source@),
    {
        Self { source: source.to_owned(), tree: parse_fresh(source) }
    }

    /// Applies a change. A change of the whole text parses anew; a change of a
    /// range hands tree-sitter the earlier tree and what [`edited`] says that
    /// the change replaced.
    pub fn edit(&mut self, change: &TextDocumentContentChangeEvent)
        ensures
            final(self)@ == changed(old(self)@, change@),
    {
        match change.range {
            None => {
                self.source = change.text.clone();
                self.tree = parse_fresh(self.source.as_str());
            },
            Some(range) => {
                let (new_source, edit) = edited(
                    self.source.as_str(),
                    range,
                    change.text.as_str(),
                );
                self.tree = reparse(&mut self.tree, &edit, new_source.as_str());
                self.source = new_source;
            },
        }
    }

    pub fn diagnostics(&self) -> (r: Vec<Diagnostic>)
        ensures
            diagnostic_views(r@) == diagnostics_of(self@.nodes, self@.source),
    {
        collect_error_diagnostics(&nodes_of(&self.tree), self.source.as_str())
    }

    pub fn tree(&self) -> (r: &Tree)
        ensures
            tree_view(*r, self@.source) == self@,
    {
        &self.tree
    }

    /// The tree, to be looked at elsewhere.
    pub fn shared_tree(&self) -> (r: Tree)
        ensures
            tree_view(r, self@.source) == self@,
    {
        share(&self.tree)
    }

    pub fn source(&self) -> (r: &str)
        ensures
            r@ == self@.source,
    {
        self.source.as_str()
    }

    /// The identifier that a position lies on, with its range.
    pub fn identifier_at(&self, position: Position) -> (r: Option<(String, Range)>)
        ensures
            match r {
                Some((name, range)) => identifier_under(self@, position) == Some((name@, range)),
                None => identifier_under(self@, position) is None,
            },
    {
        match node_at_position(&self.tree, self.source.as_str(), position) {
            Some(i) => identifier_in(&nodes_of(&self.tree), i, self.source.as_str()),
            None => None,
        }
    }

    /// The word that ends at a position, as far as it is typed.
    pub fn identifier_prefix_before(&self, position: Position) -> (r: String)
        ensures
            r@ == word_before(self@.source, position),
    {
        let ghost s = self.source@;
        let ghost end = index_of_position(s, position, 0);
        let byte_offset: usize = position_to_byte_offset(self.source.as_str(), position);
        let head = slice_text(self.source.as_str(), 0, byte_offset);
        proof {
            lemma_index_of_position(s, position, 0);
            lemma_index_of_offset(s, end);
            lemma_index_of_offset(s, 0);
            assert(head@ =~= s.take(end));
        }
        let chars = to_chars(head.as_str());
        let len: usize = chars.len();
        let mut start: usize = len;
        while start > 0 && (chars[start - 1].is_alphanumeric() || chars[start - 1] == '_'
            || chars[start - 1] == '$')
            invariant
                start <= len,
                len == end,
                chars@.len() == len,
                0 <= end <= s.len(),
                chars@ == s.take(end),
                word_start(s, end) == word_start(s, start as int),
            decreases start,
        {
            assert(chars@[start - 1] == s[start - 1]);
            start -= 1;
        }
        proof {
            if start > 0 {
                assert(chars@[start - 1] == s[start - 1]);
            }
            assert(chars@.subrange(start as int, len as int) =~= s.subrange(start as int, end));
        }
        from_range(&chars, start, len)
    }

    /// What stands before the dot that the word at a position follows, with
    /// the position of its start: the receiver of a member that is being typed
    /// (`person.na`, or `person.` with nothing typed yet).
    pub fn qualified_completion_receiver(&self, position: Position) -> (r: Option<
        (String, Position),
    >)
        ensures
            match r {
                Some((name, at)) => receiver_before(self@.source, position) == Some((name@, at)),
                None => receiver_before(self@.source, position) is None,
            },
    {
        let ghost s = self.source@;
        let ghost end = index_of_position(s, position, 0);
        let byte_offset: usize = position_to_byte_offset(self.source.as_str(), position);
        let head = slice_text(self.source.as_str(), 0, byte_offset);
        proof {
            lemma_index_of_position(s, position, 0);
            lemma_index_of_offset(s, end);
            lemma_index_of_offset(s, 0);
            assert(head@ =~= s.take(end));
        }
        let chars = to_chars(head.as_str());
        let len: usize = chars.len();
        assert(forall|k: int| 0 <= k < len ==> chars@[k] == s[k]);
        let mut word: usize = len;
        while word > 0 && (chars[word - 1].is_alphanumeric() || chars[word - 1] == '_'
            || chars[word - 1] == '$')
            invariant
                word <= len == end <= s.len(),
                chars@.len() == len,
                forall|k: int| 0 <= k < len ==> chars@[k] == s[k],
                word_start(s, end) == word_start(s, word as int),
            decreases word,
        {
            word -= 1;
        }
        assert(word_start(s, word as int) == word);
        let mut dot: usize = word;
        while dot > 0 && whitespace(chars[dot - 1])
            invariant
                dot <= word <= len == end <= s.len(),
                chars@.len() == len,
                forall|k: int| 0 <= k < len ==> chars@[k] == s[k],
                space_start(s, word as int) == space_start(s, dot as int),
            decreases dot,
        {
            dot -= 1;
        }
        assert(space_start(s, dot as int) == dot);
        if dot == 0 || chars[dot - 1] != '.' {
            return None;
        }
        let mut stop: usize = dot - 1;
        while stop > 0 && whitespace(chars[stop - 1])
            invariant
                stop < dot <= len == end <= s.len(),
                chars@.len() == len,
                forall|k: int| 0 <= k < len ==> chars@[k] == s[k],
                space_start(s, dot - 1) == space_start(s, stop as int),
            decreases stop,
        {
            stop -= 1;
        }
        assert(space_start(s, stop as int) == stop);
        let mut start: usize = stop;
        while start > 0 && (chars[start - 1].is_alphanumeric() || chars[start - 1] == '_'
            || chars[start - 1] == '$' || chars[start - 1] == '.')
            invariant
                start <= stop <= len == end <= s.len(),
                chars@.len() == len,
                forall|k: int| 0 <= k < len ==> chars@[k] == s[k],
                path_start(s, stop as int) == path_start(s, start as int),
            decreases start,
        {
            start -= 1;
        }
        assert(path_start(s, start as int) == start);
        let before = from_range(&chars, 0, start);
        let start_byte: usize = before.as_str().as_bytes().len();
        proof {
            assert(before@ =~= s.take(start as int));
            lemma_byte_len(before@);
            lemma_index_of_offset(s, start as int);
            assert(chars@.subrange(start as int, stop as int) =~= s.subrange(
                start as int,
                stop as int,
            ));
        }
        Some(
            (
                from_range(&chars, start, stop),
                byte_offset_to_position(self.source.as_str(), start_byte),
            ),
        )
    }
}

// ---------------------------------------------------------------------------
// Laws
// ---------------------------------------------------------------------------

/// A range given backwards changes the text as the range itself does, and is
/// told to tree-sitter the same way wherever its two ends are apart.
pub proof fn law_backwards_range_is_the_same_change(s: Seq<char>, range: Range, text: Seq<char>)
    ensures
        ({
            let back = Range { start: range.end, end: range.start };
            &&& changed_text(s, Some(back), text) == changed_text(s, Some(range), text)
            &&& offset_of_position(s, range.start) != offset_of_position(s, range.end)
                ==> input_edit(s, back, text) == input_edit(s, range, text)
        }),
{
}

/// What a change replaced accounts for every byte: the bytes before its start
/// and behind its end stay, and those between make way for the new ones.
pub proof fn law_edit_accounts_for_every_byte(s: Seq<char>, range: Range, text: Seq<char>)
    requires
        byte_len(s) <= usize::MAX,
        byte_len(changed_text(s, Some(range), text)) <= usize::MAX,
    ensures
        ({
            let e = input_edit(s, range, text);
            &&& e.start_byte <= e.old_end_byte <= byte_len(s)
            &&& e.start_byte <= e.new_end_byte
            &&& byte_len(changed_text(s, Some(range), text)) == byte_len(s) - (e.old_end_byte
                - e.start_byte) + (e.new_end_byte - e.start_byte)
        }),
{
    let a = index_of_position(s, range.start, 0);
    let b = index_of_position(s, range.end, 0);
    lemma_index_of_position(s, range.start, 0);
    lemma_index_of_position(s, range.end, 0);
    let (lo, hi) = if a <= b {
        (a, b)
    } else {
        (b, a)
    };
    lemma_offset_monotone(s, lo, hi);
    lemma_offset_monotone(s, hi, s.len() as int);
    lemma_offset_monotone(s, 0, lo);
    lemma_offset_end(s);
    lemma_byte_len_add(s.take(lo) + text, s.skip(hi));
    lemma_byte_len_add(s.take(lo), text);
    lemma_byte_len_add(s.take(hi), s.skip(hi));
    assert(s.take(hi) + s.skip(hi) =~= s);
}

/// A change is undone by putting back what it replaced.
pub proof fn law_a_change_can_be_undone(s: Seq<char>, start: int, end: int, text: Seq<char>)
    requires
        0 <= start <= end <= s.len(),
    ensures
        spliced(spliced(s, start, end, text), start, start + text.len(), s.subrange(start, end))
            == s,
{
    let changed = spliced(s, start, end, text);
    assert(changed.take(start) =~= s.take(start));
    assert(changed.skip(start + text.len()) =~= s.skip(end));
    assert(s.take(start) + s.subrange(start, end) + s.skip(end) =~= s);
}

/// There are as many diagnostics as nodes in error or missing, where the root
/// says that there are any, and none where it does not.
pub proof fn law_one_diagnostic_per_error(nodes: Seq<NodeView>, source: Seq<char>)
    ensures
        diagnostics_of(nodes, source).len() == if nodes.len() > 0 && nodes[0].has_error {
            nodes.filter(|n: NodeView| n.is_error || n.is_missing).len()
        } else {
            0
        },
{
    lemma_error_count(nodes, source);
}

proof fn lemma_error_count(nodes: Seq<NodeView>, source: Seq<char>)
    ensures
        error_diagnostics(nodes, source).len() == nodes.filter(
            |n: NodeView| n.is_error || n.is_missing,
        ).len(),
    decreases nodes.len(),
{
    reveal(Seq::filter);
    if nodes.len() > 0 {
        lemma_error_count(nodes.drop_last(), source);
    }
}

/// Whether a byte offset is that of a character whose line and column a
/// position can hold, or the end of the text.
pub open spec fn is_place(source: Seq<char>, byte: int, index: int) -> bool {
    &&& 0 <= index <= source.len()
    &&& byte == byte_len(source.take(index))
    &&& line_of(source, index) <= u32::MAX
    &&& column_of(source, index) <= u32::MAX
}

/// The range of a node leads back to the bytes that the node stands at.
pub proof fn law_the_range_of_a_node_leads_back_to_its_bytes(
    nodes: Seq<NodeView>,
    i: int,
    source: Seq<char>,
    start: int,
    end: int,
)
    requires
        0 <= i < nodes.len(),
        is_place(source, nodes[i].start_byte, start),
        is_place(source, nodes[i].end_byte, end),
    ensures
        offset_of_position(source, range_of(nodes, i, source).start) == nodes[i].start_byte,
        offset_of_position(source, range_of(nodes, i, source).end) == nodes[i].end_byte,
        index_of_position(source, range_of(nodes, i, source).start, 0) == start,
        index_of_position(source, range_of(nodes, i, source).end, 0) == end,
{
    law_position_of_an_offset_leads_back(source, start);
    law_position_of_an_offset_leads_back(source, end);
}

/// The diagnostic of a node that is in error or missing comes behind those of
/// the earlier ones, stands where the node stands, and says what is missing.
pub proof fn law_a_diagnostic_stands_where_its_error_is(
    nodes: Seq<NodeView>,
    source: Seq<char>,
    j: int,
    start: int,
    end: int,
)
    requires
        0 <= j < nodes.len(),
        nodes[0].has_error,
        nodes[j].is_error || nodes[j].is_missing,
        is_place(source, nodes[j].start_byte, start),
        is_place(source, nodes[j].end_byte, end),
    ensures
        ({
            let k = nodes.take(j).filter(|n: NodeView| n.is_error || n.is_missing).len() as int;
            let all = diagnostics_of(nodes, source);
            let d = all[k];
            &&& 0 <= k < all.len()
            &&& offset_of_position(source, d.range.start) == nodes[j].start_byte
            &&& offset_of_position(source, d.range.end) == nodes[j].end_byte
            &&& index_of_position(source, d.range.start, 0) == start
            &&& index_of_position(source, d.range.end, 0) == end
            &&& d.severity == Some(DiagnosticSeverity::Error)
            &&& d.source == Some("java-lsp"@)
            &&& nodes[j].is_missing ==> d.message == "syntax error: missing "@ + nodes[j].kind
            &&& !nodes[j].is_missing ==> d.message == "syntax error"@
        }),
{
    lemma_diagnostic_of(nodes, source, j, nodes.len() as int);
    assert(nodes.take(nodes.len() as int) =~= nodes);
    law_position_of_an_offset_leads_back(source, start);
    law_position_of_an_offset_leads_back(source, end);
}

proof fn lemma_diagnostic_of(nodes: Seq<NodeView>, source: Seq<char>, j: int, count: int)
    requires
        0 <= j < count <= nodes.len(),
        nodes[j].is_error || nodes[j].is_missing,
    ensures
        ({
            let k = nodes.take(j).filter(|n: NodeView| n.is_error || n.is_missing).len() as int;
            let all = error_diagnostics(nodes.take(count), source);
            0 <= k < all.len() && all[k] == node_diagnostic(nodes[j], source)
        }),
    decreases count,
{
    let now = nodes.take(count);
    assert(now.drop_last() =~= nodes.take(count - 1));
    assert(now.last() == nodes[count - 1]);
    if j == count - 1 {
        lemma_error_count(nodes.take(j), source);
    } else {
        lemma_diagnostic_of(nodes, source, j, count - 1);
    }
}

/// The word that is being typed is the longest run of letters, digits, `_` and
/// `$` that ends at the cursor.
pub proof fn law_the_prefix_is_the_whole_word_before_the_cursor(s: Seq<char>, position: Position)
    ensures
        ({
            let end = index_of_position(s, position, 0);
            let word = word_before(s, position);
            let start = end - word.len();
            &&& 0 <= start <= end <= s.len()
            &&& word == s.subrange(start, end)
            &&& forall|i: int|
                0 <= i < word.len() ==> alphanumeric(#[trigger] word[i]) || word[i] == '_'
                    || word[i] == '$'
            &&& start > 0 ==> !(alphanumeric(s[start - 1]) || s[start - 1] == '_' || s[start - 1]
                == '$')
        }),
{
    let end = index_of_position(s, position, 0);
    lemma_index_of_position(s, position, 0);
    lemma_word_start(s, end);
}

proof fn lemma_word_start(s: Seq<char>, end: int)
    requires
        0 <= end <= s.len(),
    ensures
        ({
            let start = word_start(s, end);
            &&& 0 <= start <= end
            &&& forall|i: int|
                start <= i < end ==> alphanumeric(#[trigger] s[i]) || s[i] == '_' || s[i] == '$'
            &&& start > 0 ==> !(alphanumeric(s[start - 1]) || s[start - 1] == '_' || s[start - 1]
                == '$')
        }),
    decreases end,
{
    if end > 0 && (alphanumeric(s[end - 1]) || s[end - 1] == '_' || s[end - 1] == '$') {
        lemma_word_start(s, end - 1);
    }
}

/// Where a whole identifier stands before the cursor, the word that is being
/// typed is that identifier.
pub proof fn law_an_identifier_before_the_cursor_is_the_prefix(
    before: Seq<char>,
    identifier: Seq<char>,
    behind: Seq<char>,
    position: Position,
)
    requires
        index_of_position(before + identifier + behind, position, 0) == before.len()
            + identifier.len(),
        forall|i: int|
            0 <= i < identifier.len() ==> alphanumeric(#[trigger] identifier[i])
                || identifier[i] == '_' || identifier[i] == '$',
        before.len() > 0 ==> !(alphanumeric(before.last()) || before.last() == '_' || before.last()
            == '$'),
    ensures
        word_before(before + identifier + behind, position) == identifier,
{
    let s = before + identifier + behind;
    let end = (before.len() + identifier.len()) as int;
    lemma_word_start(s, end);
    let start = word_start(s, end);
    if start > before.len() {
        assert(s[start - 1] == identifier[start - 1 - before.len()]);
    } else if start < before.len() {
        assert(s[before.len() - 1] == before.last());
    }
    assert(s.subrange(before.len() as int, end) =~= identifier);
}

/// What a character of a word is, in ASCII: a letter, a digit, `_` or `$`.
pub proof fn law_words_are_made_of_letters_and_digits(c: char)
    requires
        (c as u32) < 128,
    ensures
        is_word_char(c) <==> ('a' <= c <= 'z' || 'A' <= c <= 'Z' || '0' <= c <= '9' || c == '_'
            || c == '$'),
{
}

/// The receiver of a member that is being typed is the longest run of dotted
/// words before the dot that the typed word follows, with white space around
/// the dot left out; there is none where the word follows no dot.
pub proof fn law_the_receiver_stands_before_the_dot(s: Seq<char>, position: Position)
    ensures
        ({
            let end = index_of_position(s, position, 0);
            let word = end - word_before(s, position).len();
            match receiver_before(s, position) {
                Some((name, at)) => has_receiver(s, word, name, at),
                None => follows_no_dot(s, word),
            }
        }),
{
    let end = index_of_position(s, position, 0);
    lemma_index_of_position(s, position, 0);
    lemma_word_start(s, end);
    let word = word_start(s, end);
    lemma_space_start(s, word);
    let dot = space_start(s, word);
    if 0 < dot && s[dot - 1] == '.' {
        lemma_space_start(s, dot - 1);
        let stop = space_start(s, dot - 1);
        lemma_path_start(s, stop);
        let start = path_start(s, stop);
        assert(is_receiver(s, start, stop, dot - 1, word));
        assert(has_receiver(s, word, s.subrange(start, stop), position_of(s, start)));
    } else {
        assert forall|d: int| 0 <= d < word && #[trigger] s[d] == '.' implies exists|k: int|
            d < k < word && !is_whitespace(#[trigger] s[k]) by {
            if d >= dot {
                assert(is_whitespace(s[d]));
            } else if d < dot - 1 {
                assert(!is_whitespace(s[dot - 1]));
            }
        }
    }
}

/// Whether these dotted words, which start at this position, are what stands
/// before the dot that the word at `word` follows.
pub open spec fn has_receiver(s: Seq<char>, word: int, name: Seq<char>, at: Position) -> bool {
    exists|start: int, stop: int, dot: int|
        {
            &&& #[trigger] is_receiver(s, start, stop, dot, word)
            &&& name == s.subrange(start, stop)
            &&& at == position_of(s, start)
        }
}

/// Whether between every dot and the word at `word` there is something other
/// than white space.
pub open spec fn follows_no_dot(s: Seq<char>, word: int) -> bool {
    forall|dot: int|
        0 <= dot < word && #[trigger] s[dot] == '.' ==> exists|k: int|
            dot < k < word && !is_whitespace(#[trigger] s[k])
}

/// Whether the dotted words from `start` up to `stop` are what stands before
/// the dot at `dot`, which the word at `word` follows.
pub open spec fn is_receiver(s: Seq<char>, start: int, stop: int, dot: int, word: int) -> bool {
    &&& 0 <= start <= stop <= dot < word <= s.len()
    &&& s[dot] == '.'
    &&& forall|k: int| dot < k < word ==> is_whitespace(#[trigger] s[k])
    &&& forall|k: int| stop <= k < dot ==> is_whitespace(#[trigger] s[k])
    &&& stop > 0 ==> !is_whitespace(s[stop - 1])
    &&& forall|k: int|
        start <= k < stop ==> alphanumeric(#[trigger] s[k]) || s[k] == '_' || s[k] == '$' || s[k]
            == '.'
    &&& start > 0 ==> !(alphanumeric(s[start - 1]) || s[start - 1] == '_' || s[start - 1] == '$'
        || s[start - 1] == '.')
}

proof fn lemma_space_start(s: Seq<char>, end: int)
    requires
        0 <= end <= s.len(),
    ensures
        0 <= space_start(s, end) <= end,
        forall|k: int| space_start(s, end) <= k < end ==> is_whitespace(#[trigger] s[k]),
        space_start(s, end) > 0 ==> !is_whitespace(s[space_start(s, end) - 1]),
    decreases end,
{
    if end > 0 && is_whitespace(s[end - 1]) {
        lemma_space_start(s, end - 1);
    }
}

proof fn lemma_path_start(s: Seq<char>, end: int)
    requires
        0 <= end <= s.len(),
    ensures
        ({
            let start = path_start(s, end);
            &&& 0 <= start <= end
            &&& forall|k: int|
                start <= k < end ==> alphanumeric(#[trigger] s[k]) || s[k] == '_' || s[k] == '$'
                    || s[k] == '.'
            &&& start > 0 ==> !(alphanumeric(s[start - 1]) || s[start - 1] == '_' || s[start - 1]
                == '$' || s[start - 1] == '.')
        }),
    decreases end,
{
    if end > 0 && (is_word_char(s[end - 1]) || s[end - 1] == '.') {
        lemma_path_start(s, end - 1);
    }
}

/// The identifier of a node is found by what the grammar calls it, and is the
/// node's text.
pub proof fn law_identifiers_are_the_text_of_their_nodes(
    nodes: Seq<NodeView>,
    i: int,
    source: Seq<char>,
)
    requires
        0 <= i < nodes.len(),
    ensures
        nodes[i].kind == "identifier"@ || nodes[i].kind == "type_identifier"@ ==> identifier_of(
            nodes,
            i,
            source,
        ) == Some((text_of(nodes, i, source), range_of(nodes, i, source))),
        nodes[i].kind != "identifier"@ && nodes[i].kind != "type_identifier"@ ==> identifier_of(
            nodes,
            i,
            source,
        ) is None,
{
}

/// A change replaces what its range spans, and nothing else, whichever end of
/// the range comes first; a change without a range replaces the whole text.
pub proof fn law_a_change_replaces_what_its_range_spans(
    before: Seq<char>,
    old_text: Seq<char>,
    new_text: Seq<char>,
    behind: Seq<char>,
    range: Range,
)
    requires
        index_of_position(before + old_text + behind, range.start, 0) == before.len(),
        index_of_position(before + old_text + behind, range.end, 0) == before.len()
            + old_text.len(),
    ensures
        ({
            let s = before + old_text + behind;
            let back = Range { start: range.end, end: range.start };
            &&& changed_text(s, Some(range), new_text) == before + new_text + behind
            &&& changed_text(s, Some(back), new_text) == before + new_text + behind
            &&& changed_text(s, None, new_text) == new_text
        }),
{
    let s = before + old_text + behind;
    let end = (before.len() + old_text.len()) as int;
    assert(s.take(before.len() as int) =~= before);
    assert(s.skip(end) =~= behind);
    if old_text.len() == 0 {
        assert(before.len() == end);
    }
}

/// tree-sitter is told of a change in bytes: where it starts, where the replaced
/// text ended and where the new text ends, with the rows of these and how far
/// each lies behind the start of its row.
pub proof fn law_an_edit_is_told_in_bytes(
    before: Seq<char>,
    old_text: Seq<char>,
    new_text: Seq<char>,
    behind: Seq<char>,
    range: Range,
)
    requires
        index_of_position(before + old_text + behind, range.start, 0) == before.len(),
        index_of_position(before + old_text + behind, range.end, 0) == before.len()
            + old_text.len(),
        byte_len(before) + byte_len(old_text) + byte_len(new_text) <= usize::MAX,
        range.start.line + newlines(new_text) <= usize::MAX,
    ensures
        ({
            let e = input_edit(before + old_text + behind, range, new_text);
            &&& e.start_byte == byte_len(before)
            &&& e.old_end_byte == byte_len(before) + byte_len(old_text)
            &&& e.new_end_byte == byte_len(before) + byte_len(new_text)
            &&& e.start_position.row == range.start.line
            &&& e.old_end_position.row == range.end.line
            &&& e.new_end_position.row == range.start.line + newlines(new_text)
            &&& e.start_position.column == byte_len(before) - byte_len(
                before.take(last_index(before, '\n') + 1),
            )
            &&& !new_text.contains('\n') ==> e.new_end_position.column
                == e.start_position.column + byte_len(new_text)
        }),
{
    let s = before + old_text + behind;
    let end = (before.len() + old_text.len()) as int;
    assert(s.take(before.len() as int) =~= before);
    assert(s.take(end) =~= before + old_text);
    lemma_byte_len_add(before, old_text);
    let line = last_index(before, '\n') + 1;
    lemma_last_index(before, '\n');
    assert(s.take(line) =~= before.take(line));
    lemma_byte_len_add(before.take(line), before.skip(line));
    assert(before.take(line) + before.skip(line) =~= before);
    lemma_last_index(new_text, '\n');
    if !new_text.contains('\n') {
        let last = last_index(new_text, '\n');
        if last >= 0 {
            assert(new_text.contains(new_text[last]));
        }
        lemma_no_newlines(new_text);
    } else {
        let k = choose|k: int| 0 <= k < new_text.len() && new_text[k] == '\n';
        assert(last_index(new_text, '\n') >= 0);
    }
}

proof fn lemma_no_newlines(s: Seq<char>)
    requires
        !s.contains('\n'),
    ensures
        newlines(s) == 0,
    decreases s.len(),
{
    if s.len() > 0 {
        assert(s.contains(s.last()));
        let fewer = s.drop_last();
        assert(!fewer.contains('\n')) by {
            if fewer.contains('\n') {
                let k = choose|k: int| 0 <= k < fewer.len() && fewer[k] == '\n';
                assert(s[k] == '\n');
            }
        }
        lemma_no_newlines(fewer);
    }
}

/// A document that is parsed anew holds the text, and one that is changed holds
/// the changed text; its nodes are what tree-sitter gives it, anew where the
/// whole text is replaced, and else by the edit.
pub proof fn law_a_document_holds_its_text(tree: SyntaxTreeView, change: ChangeView)
    ensures
        fresh_tree(change.text).source == change.text,
        fresh_tree(change.text).nodes == parsed_nodes(seq![ParseStep::Fresh(change.text)]),
        changed(tree, change).source == changed_text(tree.source, change.range, change.text),
        changed(tree, change).nodes == parsed_nodes(changed(tree, change).history),
        change.range is None ==> changed(tree, change).history == seq![
            ParseStep::Fresh(change.text),
        ],
        change.range is Some ==> changed(tree, change).history == tree.history.push(
            ParseStep::Edited(
                input_edit(tree.source, change.range->0, change.text),
                changed(tree, change).source,
            ),
        ),
{
}

/// The node at a position is the one that tree-sitter finds at the byte offset
/// of the character there, and the identifier there is what that node is.
pub proof fn law_the_node_at_a_position_is_found_at_its_offset(
    document: SyntaxTreeView,
    index: int,
    position: Position,
)
    requires
        0 <= index <= document.source.len(),
        line_of(document.source, index) == position.line,
        column_of(document.source, index) == position.character,
    ensures
        ({
            let found = found_node(document.history, byte_len(document.source.take(index)) as int);
            &&& node_at(document, position) == found
            &&& found is None ==> identifier_under(document, position) is None
            &&& found is Some ==> identifier_under(document, position) == identifier_of(
                document.nodes,
                found->0,
                document.source,
            )
        }),
{
    law_position_of_an_offset_leads_back(document.source, index);
}

} // verus!
