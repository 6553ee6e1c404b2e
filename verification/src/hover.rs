//! What is shown of a symbol on hover.

use crate::documents::DocumentStore;
use crate::goto_definition::{receiver_at, referred};
use crate::member_reference::member_reference_at;
use crate::protocol::{Hover, HoverView, Range, TextDocumentPosition, TextDocumentPositionView};
use crate::symbol::{
    SymbolKind, SymbolView, best_match, is_best, is_candidate,
    law_narrowing_keeps_what_the_receiver_declares, law_narrowing_never_empties,
    law_the_best_match_comes_first, narrow_to_receiver_type, narrowed, symbol_ref_views,
};
use crate::syntax::{SyntaxTreeView, identifier_under};
use crate::text::opt_str;
use crate::workspace_index::{IndexView, WorkspaceIndex, lemma_best_is_unique, lookup_in};
use vstd::prelude::*;
use vstd::string::*;

verus! {

/// A kind in words.
pub open spec fn label_of(kind: SymbolKind) -> Seq<char> {
    match kind {
        SymbolKind::Class => "class"@,
        SymbolKind::Interface => "interface"@,
        SymbolKind::Enum => "enum"@,
        SymbolKind::Method => "method"@,
        SymbolKind::Constructor => "constructor"@,
        SymbolKind::Field => "field"@,
        SymbolKind::Import => "import"@,
    }
}

/// The hover of a symbol: its kind and its name.
pub open spec fn hover_of(symbol: SymbolView, range: Range) -> HoverView {
    HoverView { contents: label_of(symbol.kind) + " "@ + symbol.name, range: Some(range) }
}

/// Whether a hover shows the most relevant of a list of symbols, or nothing
/// where there are none.
pub open spec fn shows(symbols: Seq<SymbolView>, range: Range, hover: Option<HoverView>) -> bool {
    match hover {
        Some(h) => exists|i: int|
            is_best(symbols, i) && h == hover_of(#[trigger] symbols[i], range),
        None => symbols.len() == 0,
    }
}

/// Whether a hover is what a position shows: the most relevant of the symbols
/// that it can refer to, or nothing where there are none.
pub open spec fn hovered(
    index: IndexView,
    documents: Map<Seq<char>, SyntaxTreeView>,
    at: TextDocumentPositionView,
    hover: Option<HoverView>,
) -> bool {
    let document = documents[at.uri];
    match identifier_under(document, at.position) {
        Some((_, range)) if documents.contains_key(at.uri) => shows(
            referred(index, document, at.position),
            range,
            hover,
        ),
        _ => hover is None,
    }
}

/// What an optional hover says, as mathematical values.
pub open spec fn hover_view(hover: Option<Hover>) -> Option<HoverView> {
    match hover {
        Some(h) => Some(h@),
        None => None,
    }
}

/// What a position shows is determined.
pub proof fn law_hover_is_determined(
    index: IndexView,
    documents: Map<Seq<char>, SyntaxTreeView>,
    at: TextDocumentPositionView,
    a: Option<HoverView>,
    b: Option<HoverView>,
)
    requires
        hovered(index, documents, at, a),
        hovered(index, documents, at, b),
    ensures
        a == b,
{
    let document = documents[at.uri];
    let found = identifier_under(document, at.position);
    let symbols = referred(index, document, at.position);
    if a is Some && b is Some {
        let i = choose|i: int|
            is_best(symbols, i) && a->0 == hover_of(#[trigger] symbols[i], (found->0).1);
        let j = choose|j: int|
            is_best(symbols, j) && b->0 == hover_of(#[trigger] symbols[j], (found->0).1);
        lemma_best_is_unique(symbols, i, j);
    }
}

fn kind_label(kind: SymbolKind) -> (r: &'static str)
    ensures
        r@ == label_of(kind),
{
    match kind {
        SymbolKind::Class => "class",
        SymbolKind::Interface => "interface",
        SymbolKind::Enum => "enum",
        SymbolKind::Method => "method",
        SymbolKind::Constructor => "constructor",
        SymbolKind::Field => "field",
        SymbolKind::Import => "import",
    }
}

/// The most relevant of the symbols of a name, narrowed to a receiver's type
/// where it is known.
pub fn hover_named(
    index: &WorkspaceIndex,
    name: &str,
    range: Range,
    receiver_type: Option<&str>,
) -> (r: Option<Hover>)
    requires
        index.wf(),
    ensures
        shows(
            narrowed(lookup_in(index@, name@), opt_str(receiver_type)),
            range,
            hover_view(r),
        ),
{
    let selected = narrow_to_receiver_type(index.lookup(name), receiver_type);
    let ghost views = symbol_ref_views(selected@);
    assert(views.len() == selected@.len());
    match best_match(&selected) {
        Some(symbol) => {
            let mut contents = kind_label(symbol.kind).to_owned();
            contents.append(" ");
            contents.append(symbol.name.as_str());
            proof {
                let i = choose|i: int| is_best(views, i) && *symbol == *#[trigger] selected@[i];
                assert(views[i] == symbol@);
            }
            Some(Hover { contents, range: Some(range) })
        },
        None => None,
    }
}

/// The most relevant of the symbols that a position in an open document can
/// refer to.
pub fn hover(
    index: &WorkspaceIndex,
    documents: &DocumentStore,
    params: &TextDocumentPosition,
) -> (r: Option<Hover>)
    requires
        index.wf(),
        documents.wf(),
    ensures
        hovered(index@, documents@, params@, hover_view(r)),
{
    let document = match documents.document(&params.uri) {
        Some(document) => document,
        None => {
            return None;
        },
    };
    let (name, range) = match document.identifier_at(params.position) {
        Some(found) => found,
        None => {
            return None;
        },
    };
    let reference = member_reference_at(document.tree(), document.source(), params.position);
    match &reference {
        Some(reference) => hover_named(
            index,
            name.as_str(),
            range,
            Some(reference.receiver_type.as_str()),
        ),
        None => hover_named(index, name.as_str(), range, None),
    }
}

/// What is shown of an identifier is the kind and the name of a symbol that it
/// can mean, the most relevant one, for the range of the identifier. Nothing is
/// shown where no symbol has its name.
pub proof fn law_a_hover_shows_what_the_identifier_means(
    index: IndexView,
    documents: Map<Seq<char>, SyntaxTreeView>,
    at: TextDocumentPositionView,
    name: Seq<char>,
    range: Range,
    hover: Option<HoverView>,
)
    requires
        documents.contains_key(at.uri),
        identifier_under(documents[at.uri], at.position) == Some((name, range)),
        hovered(index, documents, at, hover),
    ensures
        match hover {
            Some(h) => h.range == Some(range) && exists|s: SymbolView|
                #[trigger] is_candidate(
                    lookup_in(index, name),
                    receiver_at(documents[at.uri], at.position),
                    s,
                ) && says(h.contents, s) && (s.kind == SymbolKind::Import ==> forall|k: int|
                    0 <= k < narrowed(
                        lookup_in(index, name),
                        receiver_at(documents[at.uri], at.position),
                    ).len() ==> (#[trigger] narrowed(
                        lookup_in(index, name),
                        receiver_at(documents[at.uri], at.position),
                    )[k]).kind == SymbolKind::Import),
            None => lookup_in(index, name).len() == 0,
        },
{
    let all = lookup_in(index, name);
    let receiver = receiver_at(documents[at.uri], at.position);
    let found = narrowed(all, receiver);
    law_narrowing_never_empties(all, receiver);
    if let Some(h) = hover {
        let i = choose|i: int| is_best(found, i) && h == hover_of(#[trigger] found[i], range);
        assert(found.contains(found[i]));
        law_narrowing_keeps_what_the_receiver_declares(all, receiver, found[i]);
        assert(is_candidate(all, receiver, found[i]));
        assert forall|k: int| 0 <= k < found.len() && found[i].kind
            == SymbolKind::Import implies (#[trigger] found[k]).kind == SymbolKind::Import by {
            law_the_best_match_comes_first(found, i, k);
        }
    }
}

/// Whether a text says what a symbol is and how it is called.
pub open spec fn says(text: Seq<char>, symbol: SymbolView) -> bool {
    text == (match symbol.kind {
        SymbolKind::Class => "class"@,
        SymbolKind::Interface => "interface"@,
        SymbolKind::Enum => "enum"@,
        SymbolKind::Method => "method"@,
        SymbolKind::Constructor => "constructor"@,
        SymbolKind::Field => "field"@,
        SymbolKind::Import => "import"@,
    }) + " "@ + symbol.name
}

/// Where no identifier stands, or in a document that is not open, nothing is
/// shown.
pub proof fn law_only_identifiers_have_a_hover(
    index: IndexView,
    documents: Map<Seq<char>, SyntaxTreeView>,
    at: TextDocumentPositionView,
    hover: Option<HoverView>,
)
    requires
        hovered(index, documents, at, hover),
        documents.contains_key(at.uri) ==> identifier_under(documents[at.uri], at.position) is None,
    ensures
        hover is None,
{
}

} // verus!
