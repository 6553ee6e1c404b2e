//! Go to definition.

use crate::documents::DocumentStore;
use crate::member_reference::{member_reference_at, reference_at};
use crate::protocol::{
    Location, LocationView, Position, Range, TextDocumentPosition, location_views,
};
use crate::symbol::{
    SymbolView, is_candidate, law_narrowing_keeps_what_the_receiver_declares,
    law_narrowing_never_empties, narrow_to_receiver_type, narrowed, owned_by, symbol_ref_views,
};
use crate::syntax::{SyntaxTreeView, identifier_under};
use crate::text::opt_str;
use crate::workspace_index::{IndexView, WorkspaceIndex, lookup_in};
use vstd::prelude::*;

verus! {

/// The type that the member at a position belongs to, where it is known.
pub open spec fn receiver_at(document: SyntaxTreeView, position: Position) -> Option<Seq<char>> {
    match reference_at(document, position) {
        Some((_, receiver_type)) => Some(receiver_type),
        None => None,
    }
}

/// The symbols that a position can refer to: those of the identifier's name,
/// narrowed to the receiver's type.
pub open spec fn referred(index: IndexView, document: SyntaxTreeView, position: Position) -> Seq<
    SymbolView,
> {
    match identifier_under(document, position) {
        Some((name, _)) => narrowed(lookup_in(index, name), receiver_at(document, position)),
        None => Seq::empty(),
    }
}

/// Where a symbol's name stands.
pub open spec fn location_of(symbol: SymbolView) -> LocationView {
    LocationView { uri: symbol.uri, range: symbol.selection_range }
}

/// Where the names of a list of symbols stand; `None` where there are none.
pub open spec fn locations_of(symbols: Seq<SymbolView>) -> Option<Seq<LocationView>> {
    if symbols.len() > 0 {
        Some(symbols.map_values(|s: SymbolView| location_of(s)))
    } else {
        None
    }
}

/// The definitions of what a position refers to; `None` where there are none.
pub open spec fn definitions(
    index: IndexView,
    documents: Map<Seq<char>, SyntaxTreeView>,
    uri: Seq<char>,
    position: Position,
) -> Option<Seq<LocationView>> {
    if documents.contains_key(uri) {
        locations_of(referred(index, documents[uri], position))
    } else {
        None
    }
}

/// What an optional list of locations says, as mathematical values.
pub open spec fn locations_view(locations: Option<Vec<Location>>) -> Option<Seq<LocationView>> {
    match locations {
        Some(list) => Some(location_views(list@)),
        None => None,
    }
}

/// The definitions of a name, narrowed to a receiver's type where it is known.
pub fn definitions_named(
    index: &WorkspaceIndex,
    name: &str,
    receiver_type: Option<&str>,
) -> (r: Option<Vec<Location>>)
    requires
        index.wf(),
    ensures
        locations_view(r) == locations_of(
            narrowed(lookup_in(index@, name@), opt_str(receiver_type)),
        ),
{
    let selected = narrow_to_receiver_type(index.lookup(name), receiver_type);
    let ghost views = symbol_ref_views(selected@);
    assert(views.len() == selected@.len());
    let ghost wanted = views.map_values(|s: SymbolView| location_of(s));
    let mut locations: Vec<Location> = Vec::new();
    let mut i: usize = 0;
    assert(location_views(locations@) =~= wanted.take(0));
    while i < selected.len()
        invariant
            i <= selected.len(),
            views == symbol_ref_views(selected@),
            wanted == views.map_values(|s: SymbolView| location_of(s)),
            location_views(locations@) == wanted.take(i as int),
        decreases selected.len() - i,
    {
        let ghost before = locations@;
        let symbol = selected[i];
        let location = Location { uri: symbol.uri.clone(), range: symbol.selection_range };
        assert(location@ == wanted[i as int]);
        locations.push(location);
        proof {
            assert(location_views(locations@) =~= location_views(before).push(location@));
            assert(wanted.take(i + 1) =~= wanted.take(i as int).push(wanted[i as int]));
        }
        i += 1;
    }
    assert(wanted.take(i as int) =~= wanted);
    assert(location_views(locations@).len() == locations@.len());
    if locations.len() == 0 {
        None
    } else {
        Some(locations)
    }
}

/// The definitions of what a position in an open document refers to.
pub fn goto_definition(
    index: &WorkspaceIndex,
    documents: &DocumentStore,
    params: &TextDocumentPosition,
) -> (r: Option<Vec<Location>>)
    requires
        index.wf(),
        documents.wf(),
    ensures
        locations_view(r) == definitions(index@, documents@, params@.uri, params.position),
{
    let document = match documents.document(&params.uri) {
        Some(document) => document,
        None => {
            return None;
        },
    };
    let (name, _) = match document.identifier_at(params.position) {
        Some(found) => found,
        None => {
            return None;
        },
    };
    let reference = member_reference_at(document.tree(), document.source(), params.position);
    match &reference {
        Some(reference) => definitions_named(
            index,
            name.as_str(),
            Some(reference.receiver_type.as_str()),
        ),
        None => definitions_named(index, name.as_str(), None),
    }
}

/// Where a type declares the member that a position names, every definition
/// found is that type's own; where it declares none, every symbol of that name
/// is a candidate.
pub proof fn law_definitions_are_the_receivers_own(
    index: IndexView,
    document: SyntaxTreeView,
    position: Position,
)
    requires
        identifier_under(document, position) is Some,
        receiver_at(document, position) is Some,
    ensures
        ({
            let name = (identifier_under(document, position)->0).0;
            let receiver = receiver_at(document, position)->0;
            let all = lookup_in(index, name);
            let found = referred(index, document, position);
            if exists|i: int| 0 <= i < all.len() && owned_by(#[trigger] all[i], receiver) {
                forall|i: int| 0 <= i < found.len() ==> owned_by(#[trigger] found[i], receiver)
            } else {
                found == all
            }
        }),
{
    let name = (identifier_under(document, position)->0).0;
    let receiver = receiver_at(document, position)->0;
    let all = lookup_in(index, name);
    law_narrowing_never_empties(all, Some(receiver));
    let pred = |s: SymbolView| owned_by(s, receiver);
    if !(exists|i: int| 0 <= i < all.len() && owned_by(#[trigger] all[i], receiver)) {
        all.lemma_all_neg_filter_empty(pred);
    }
}

/// The definitions of an identifier stand where the symbols of its name stand:
/// all of them, or those of the receiver's type where it declares any. There are
/// none where no symbol has that name.
pub proof fn law_definitions_stand_where_the_symbols_are_named(
    index: IndexView,
    documents: Map<Seq<char>, SyntaxTreeView>,
    uri: Seq<char>,
    position: Position,
    name: Seq<char>,
    range: Range,
    receiver: Option<Seq<char>>,
    location: LocationView,
)
    requires
        documents.contains_key(uri),
        identifier_under(documents[uri], position) == Some((name, range)),
        match reference_at(documents[uri], position) {
            Some((_, t)) => receiver == Some(t),
            None => receiver is None,
        },
    ensures
        match definitions(index, documents, uri, position) {
            Some(list) => list.len() > 0 && (list.contains(location) <==> exists|s: SymbolView|
                #[trigger] is_candidate(
                    lookup_in(index, name),
                    receiver,
                    s,
                ) && location.uri == s.uri && location.range == s.selection_range),
            None => lookup_in(index, name).len() == 0,
        },
{
    let all = lookup_in(index, name);
    let found = narrowed(all, receiver);
    law_narrowing_never_empties(all, receiver);
    if let Some(list) = definitions(index, documents, uri, position) {
        assert(list == found.map_values(|s: SymbolView| location_of(s)));
        if list.contains(location) {
            let k = choose|k: int| 0 <= k < list.len() && list[k] == location;
            assert(found.contains(found[k]));
            law_narrowing_keeps_what_the_receiver_declares(all, receiver, found[k]);
            assert(is_candidate(all, receiver, found[k]));
        }
        if exists|s: SymbolView| #[trigger]
            is_candidate(all, receiver, s) && location.uri == s.uri && location.range
                == s.selection_range {
            let s = choose|s: SymbolView| #[trigger]
                is_candidate(all, receiver, s) && location.uri == s.uri && location.range
                    == s.selection_range;
            law_narrowing_keeps_what_the_receiver_declares(all, receiver, s);
            let k = choose|k: int| 0 <= k < found.len() && found[k] == s;
            assert(list[k] == location);
        }
    } else if all.len() > 0 {
        assert(found.len() > 0);
    }
}

/// The receiver at a position is that of the member that is referred to there.
pub proof fn law_the_receiver_is_that_of_the_reference(
    document: SyntaxTreeView,
    position: Position,
)
    ensures
        match reference_at(document, position) {
            Some((_, t)) => receiver_at(document, position) == Some(t),
            None => receiver_at(document, position) is None,
        },
{
}

/// Where no identifier stands, or in a document that is not open, there is no
/// definition.
pub proof fn law_only_identifiers_have_definitions(
    index: IndexView,
    documents: Map<Seq<char>, SyntaxTreeView>,
    uri: Seq<char>,
    position: Position,
)
    requires
        documents.contains_key(uri) ==> identifier_under(documents[uri], position) is None,
    ensures
        definitions(index, documents, uri, position) is None,
{
}

} // verus!
