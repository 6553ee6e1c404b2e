//! Completion of the word that is being typed.

use crate::documents::DocumentStore;
use crate::member_reference::{declared_type_at, resolve_declared_type_at};
use crate::protocol::{
    CompletionItem, CompletionItemKind, CompletionItemView, Position, TextDocumentPosition,
    TextDocumentPositionView, item_views,
};
use crate::symbol::{
    SymbolInfo, SymbolKind, SymbolView, is_best, law_the_best_match_comes_first, owned_by,
    symbol_ref_views,
};
use crate::syntax::{SyntaxTreeView, receiver_before, word_before};
use crate::workspace_index::{
    IndexView, WorkspaceIndex, completes, law_completions_are_determined, lookup_in, members_in,
    names_symbol,
};
use crate::text::text_lt;
use vstd::prelude::*;

verus! {

pub open spec fn item_kind(kind: SymbolKind) -> CompletionItemKind {
    match kind {
        SymbolKind::Class => CompletionItemKind::Class,
        SymbolKind::Interface => CompletionItemKind::Interface,
        SymbolKind::Enum => CompletionItemKind::Enum,
        SymbolKind::Method => CompletionItemKind::Method,
        SymbolKind::Constructor => CompletionItemKind::Constructor,
        SymbolKind::Field => CompletionItemKind::Field,
        SymbolKind::Import => CompletionItemKind::Module,
    }
}

/// The item that offers a symbol.
pub open spec fn item_of(symbol: SymbolView) -> CompletionItemView {
    CompletionItemView { label: symbol.name, kind: Some(item_kind(symbol.kind)) }
}

/// What stands before the word that is being typed.
#[derive(Debug, Clone, PartialEq, Eq)]
pub enum Receiver {
    /// No dot: the word stands alone.
    Nothing,
    /// A dot, behind an expression whose type is not known.
    Unknown,
    /// A dot, behind a value of the named type.
    Typed(String),
}

/// A receiver as mathematical values.
#[verifier::ext_equal]
pub enum ReceiverView {
    Nothing,
    Unknown,
    Typed(Seq<char>),
}

impl View for Receiver {
    type V = ReceiverView;

    open spec fn view(&self) -> ReceiverView {
        match self {
            Receiver::Nothing => ReceiverView::Nothing,
            Receiver::Unknown => ReceiverView::Unknown,
            Receiver::Typed(name) => ReceiverView::Typed(name@),
        }
    }
}

/// The receiver at a position. An expression that is no dotted name, or that
/// has no declared type, is unknown.
pub open spec fn receiver_in(document: SyntaxTreeView, position: Position) -> ReceiverView {
    match receiver_before(document.source, position) {
        Some((name, at)) => match declared_type_at(document, at, name) {
            Some(t) if name.len() > 0 => ReceiverView::Typed(t),
            _ => ReceiverView::Unknown,
        },
        None => ReceiverView::Nothing,
    }
}

/// Whether a list of symbols is what is offered for a prefix: of what it
/// begins, the members of the receiver's type behind a dot (none where that
/// type is not known), and any symbol elsewhere.
pub open spec fn offered(
    list: Seq<SymbolView>,
    index: IndexView,
    prefix: Seq<char>,
    receiver: ReceiverView,
) -> bool {
    match receiver {
        ReceiverView::Typed(t) => completes(list, prefix, |n: Seq<char>| members_in(index, t, n)),
        ReceiverView::Unknown => list.len() == 0,
        ReceiverView::Nothing => completes(list, prefix, |n: Seq<char>| lookup_in(index, n)),
    }
}

/// Whether a list of items is the completion of a word. There is none where
/// neither a character nor a dot was typed.
pub open spec fn word_completed(
    index: IndexView,
    prefix: Seq<char>,
    receiver: ReceiverView,
    items: Option<Seq<CompletionItemView>>,
) -> bool {
    match items {
        Some(list) => (receiver != ReceiverView::Nothing || prefix.len() > 0) && exists|
            symbols: Seq<SymbolView>,
        | #[trigger]
            offered(symbols, index, prefix, receiver) && list == symbols.map_values(
                |s: SymbolView| item_of(s),
            ),
        None => receiver == ReceiverView::Nothing && prefix.len() == 0,
    }
}

/// Whether a list of items is the completion at a position.
pub open spec fn completed(
    index: IndexView,
    documents: Map<Seq<char>, SyntaxTreeView>,
    at: TextDocumentPositionView,
    items: Option<Seq<CompletionItemView>>,
) -> bool {
    let document = documents[at.uri];
    if documents.contains_key(at.uri) {
        word_completed(
            index,
            word_before(document.source, at.position),
            receiver_in(document, at.position),
            items,
        )
    } else {
        items is None
    }
}

/// What an optional list of items says, as mathematical values.
pub open spec fn items_view(items: Option<Vec<CompletionItem>>) -> Option<
    Seq<CompletionItemView>,
> {
    match items {
        Some(list) => Some(item_views(list@)),
        None => None,
    }
}

/// The completion at a position is determined.
pub proof fn law_completion_is_determined(
    index: IndexView,
    documents: Map<Seq<char>, SyntaxTreeView>,
    at: TextDocumentPositionView,
    a: Option<Seq<CompletionItemView>>,
    b: Option<Seq<CompletionItemView>>,
)
    requires
        completed(index, documents, at, a),
        completed(index, documents, at, b),
    ensures
        a == b,
{
    let document = documents[at.uri];
    let prefix = word_before(document.source, at.position);
    let receiver = receiver_in(document, at.position);
    if a is Some && b is Some {
        let x = choose|x: Seq<SymbolView>| #[trigger]
            offered(x, index, prefix, receiver) && a->0 == x.map_values(
                |s: SymbolView| item_of(s),
            );
        let y = choose|y: Seq<SymbolView>| #[trigger]
            offered(y, index, prefix, receiver) && b->0 == y.map_values(
                |s: SymbolView| item_of(s),
            );
        match receiver {
            ReceiverView::Typed(t) => {
                law_completions_are_determined(
                    x,
                    y,
                    prefix,
                    |n: Seq<char>| members_in(index, t, n),
                );
            },
            ReceiverView::Unknown => {
                assert(x =~= y);
            },
            ReceiverView::Nothing => {
                law_completions_are_determined(x, y, prefix, |n: Seq<char>| lookup_in(index, n));
            },
        }
    }
}

fn completion_item_kind(kind: SymbolKind) -> (r: CompletionItemKind)
    ensures
        r == item_kind(kind),
{
    match kind {
        SymbolKind::Class => CompletionItemKind::Class,
        SymbolKind::Interface => CompletionItemKind::Interface,
        SymbolKind::Enum => CompletionItemKind::Enum,
        SymbolKind::Method => CompletionItemKind::Method,
        SymbolKind::Constructor => CompletionItemKind::Constructor,
        SymbolKind::Field => CompletionItemKind::Field,
        SymbolKind::Import => CompletionItemKind::Module,
    }
}

/// Completes a word. A bare word (no dot before it) needs at least one typed
/// character to search on: an empty prefix would otherwise mean every symbol in
/// the index. Behind a dot there is no such restriction: `person.` with nothing
/// typed yet offers every member of the receiver's type. A receiver whose type
/// can't be resolved (a chained call, an unknown variable) narrows to nothing
/// rather than falling back to every symbol.
pub fn complete_word(index: &WorkspaceIndex, prefix: &str, receiver: &Receiver) -> (r: Option<
    Vec<CompletionItem>,
>)
    requires
        index.wf(),
    ensures
        word_completed(index@, prefix@, receiver@, items_view(r)),
{
    let selected: Vec<&SymbolInfo> = match receiver {
        Receiver::Typed(t) => index.completions_by_owner(prefix, t.as_str()),
        Receiver::Unknown => Vec::new(),
        Receiver::Nothing => {
            if is_blank(prefix) {
                return None;
            }
            index.completions(prefix)
        },
    };
    let ghost views = symbol_ref_views(selected@);
    assert(offered(views, index@, prefix@, receiver@));
    let ghost wanted = views.map_values(|s: SymbolView| item_of(s));
    let mut items: Vec<CompletionItem> = Vec::new();
    let mut i: usize = 0;
    assert(item_views(items@) =~= wanted.take(0));
    while i < selected.len()
        invariant
            i <= selected.len(),
            views == symbol_ref_views(selected@),
            wanted == views.map_values(|s: SymbolView| item_of(s)),
            item_views(items@) == wanted.take(i as int),
        decreases selected.len() - i,
    {
        let ghost before = items@;
        let symbol = selected[i];
        let item = CompletionItem {
            label: symbol.name.clone(),
            kind: Some(completion_item_kind(symbol.kind)),
        };
        assert(item@ == wanted[i as int]);
        items.push(item);
        proof {
            assert(item_views(items@) =~= item_views(before).push(item@));
            assert(wanted.take(i + 1) =~= wanted.take(i as int).push(wanted[i as int]));
        }
        i += 1;
    }
    assert(wanted.take(i as int) =~= wanted);
    Some(items)
}

/// Completes the word at a position in an open document.
pub fn completion(
    index: &WorkspaceIndex,
    documents: &DocumentStore,
    params: &TextDocumentPosition,
) -> (r: Option<Vec<CompletionItem>>)
    requires
        index.wf(),
        documents.wf(),
    ensures
        completed(index@, documents@, params@, items_view(r)),
{
    let document = match documents.document(&params.uri) {
        Some(document) => document,
        None => {
            return None;
        },
    };
    let prefix = document.identifier_prefix_before(params.position);
    let receiver = match document.qualified_completion_receiver(params.position) {
        Some((name, at)) => {
            let declared = resolve_declared_type_at(
                document.tree(),
                document.source(),
                at,
                name.as_str(),
            );
            match declared {
                Some(t) if !is_blank(name.as_str()) => Receiver::Typed(t),
                _ => Receiver::Unknown,
            }
        },
        None => Receiver::Nothing,
    };
    assert(receiver@ == receiver_in(documents@[params@.uri], params.position));
    complete_word(index, prefix.as_str(), &receiver)
}

/// Whether a text has no characters.
fn is_blank(s: &str) -> (r: bool)
    ensures
        r == (s@.len() == 0),
{
    crate::text::to_chars(s).len() == 0
}

/// Whether a symbol of a name can be offered behind a receiver: any where no dot
/// was typed, one that is declared on the receiver's type behind a dot, and none
/// where that type is not known.
pub open spec fn can_be_offered(
    index: IndexView,
    receiver: ReceiverView,
    name: Seq<char>,
    symbol: SymbolView,
) -> bool {
    &&& lookup_in(index, name).contains(symbol)
    &&& match receiver {
        ReceiverView::Nothing => true,
        ReceiverView::Typed(t) => symbol.owner == Some(t),
        ReceiverView::Unknown => false,
    }
}

/// What is offered for a word are the names that begin with it and that a symbol
/// has which can be offered there: each of them, each once, in ascending order,
/// and no other.
pub proof fn law_every_name_with_the_prefix_is_offered(
    index: IndexView,
    prefix: Seq<char>,
    receiver: ReceiverView,
    items: Seq<CompletionItemView>,
    name: Seq<char>,
)
    requires
        word_completed(index, prefix, receiver, Some(items)),
    ensures
        (exists|k: int| 0 <= k < items.len() && (#[trigger] items[k]).label == name) <==> (
        prefix.is_prefix_of(name) && exists|s: SymbolView| #[trigger]
            can_be_offered(index, receiver, name, s) && s.name == name),
        forall|i: int, j: int|
            0 <= i < j < items.len() ==> text_lt(
                (#[trigger] items[i]).label,
                (#[trigger] items[j]).label,
            ),
{
    let symbols = choose|symbols: Seq<SymbolView>| #[trigger]
        offered(symbols, index, prefix, receiver) && items == symbols.map_values(
            |s: SymbolView| item_of(s),
        );
    if exists|k: int| 0 <= k < items.len() && (#[trigger] items[k]).label == name {
        let k = choose|k: int| 0 <= k < items.len() && (#[trigger] items[k]).label == name;
        let s = symbols[k];
        assert(s.name == name);
        lemma_offered(index, prefix, receiver, symbols, k);
        assert(can_be_offered(index, receiver, name, s));
    }
    if prefix.is_prefix_of(name) && exists|s: SymbolView| #[trigger]
        can_be_offered(index, receiver, name, s) && s.name == name {
        let s = choose|s: SymbolView| #[trigger]
            can_be_offered(index, receiver, name, s) && s.name == name;
        lemma_must_be_offered(index, prefix, receiver, symbols, name, s);
        let k = choose|k: int| 0 <= k < symbols.len() && (#[trigger] symbols[k]).name == name;
        assert(items[k].label == name);
    }
    assert forall|i: int, j: int| 0 <= i < j < items.len() implies text_lt(
        (#[trigger] items[i]).label,
        (#[trigger] items[j]).label,
    ) by {
        assert(text_lt(symbols[i].name, symbols[j].name));
    }
}

proof fn lemma_offered(
    index: IndexView,
    prefix: Seq<char>,
    receiver: ReceiverView,
    symbols: Seq<SymbolView>,
    k: int,
)
    requires
        offered(symbols, index, prefix, receiver),
        0 <= k < symbols.len(),
    ensures
        can_be_offered(index, receiver, symbols[k].name, symbols[k]),
        prefix.is_prefix_of(symbols[k].name),
{
    let n = symbols[k].name;
    let all = lookup_in(index, n);
    match receiver {
        ReceiverView::Typed(t) => {
            let pred = |s: SymbolView| owned_by(s, t);
            let m = choose|m: int|
                is_best(members_in(index, t, n), m) && symbols[k] == #[trigger] members_in(
                    index,
                    t,
                    n,
                )[m];
            all.lemma_filter_pred(pred, m);
            all.lemma_filter_contains_rev(pred, symbols[k]);
        },
        ReceiverView::Unknown => {},
        ReceiverView::Nothing => {
            let m = choose|m: int| is_best(all, m) && symbols[k] == #[trigger] all[m];
            assert(all.contains(symbols[k]));
        },
    }
}

proof fn lemma_must_be_offered(
    index: IndexView,
    prefix: Seq<char>,
    receiver: ReceiverView,
    symbols: Seq<SymbolView>,
    n: Seq<char>,
    s: SymbolView,
)
    requires
        offered(symbols, index, prefix, receiver),
        prefix.is_prefix_of(n),
        can_be_offered(index, receiver, n, s),
    ensures
        names_symbol(symbols, n),
{
    let all = lookup_in(index, n);
    let m = choose|m: int| 0 <= m < all.len() && all[m] == s;
    match receiver {
        ReceiverView::Typed(t) => {
            all.lemma_filter_contains(|s: SymbolView| owned_by(s, t), m);
            let candidates = |n: Seq<char>| members_in(index, t, n);
            assert(candidates(n).len() > 0);
        },
        ReceiverView::Unknown => {},
        ReceiverView::Nothing => {
            let candidates = |n: Seq<char>| lookup_in(index, n);
            assert(candidates(n).len() > 0);
        },
    }
}

/// An item says what kind of thing it offers: the kind of a symbol of its name
/// that can be offered there. It says so of an import only where nothing else
/// that can be offered has that name.
pub proof fn law_an_item_has_the_kind_of_its_symbol(
    index: IndexView,
    prefix: Seq<char>,
    receiver: ReceiverView,
    items: Seq<CompletionItemView>,
    k: int,
)
    requires
        word_completed(index, prefix, receiver, Some(items)),
        0 <= k < items.len(),
    ensures
        exists|s: SymbolView|
            {
                &&& #[trigger] can_be_offered(index, receiver, items[k].label, s)
                &&& s.name == items[k].label
                &&& items[k].kind == Some(
                    match s.kind {
                        SymbolKind::Class => CompletionItemKind::Class,
                        SymbolKind::Interface => CompletionItemKind::Interface,
                        SymbolKind::Enum => CompletionItemKind::Enum,
                        SymbolKind::Method => CompletionItemKind::Method,
                        SymbolKind::Constructor => CompletionItemKind::Constructor,
                        SymbolKind::Field => CompletionItemKind::Field,
                        SymbolKind::Import => CompletionItemKind::Module,
                    },
                )
            },
        items[k].kind == Some(CompletionItemKind::Module) ==> forall|s: SymbolView| #[trigger]
            can_be_offered(index, receiver, items[k].label, s) ==> s.kind == SymbolKind::Import,
{
    let symbols = choose|symbols: Seq<SymbolView>| #[trigger]
        offered(symbols, index, prefix, receiver) && items == symbols.map_values(
            |s: SymbolView| item_of(s),
        );
    lemma_offered(index, prefix, receiver, symbols, k);
    let chosen = symbols[k];
    assert(can_be_offered(index, receiver, items[k].label, chosen));
    let n = chosen.name;
    if chosen.kind == SymbolKind::Import {
        assert forall|s: SymbolView| #[trigger]
            can_be_offered(index, receiver, n, s) implies s.kind == SymbolKind::Import by {
            let all = lookup_in(index, n);
            let x = choose|x: int| 0 <= x < all.len() && all[x] == s;
            match receiver {
                ReceiverView::Typed(t) => {
                    let some = members_in(index, t, n);
                    let m = choose|m: int| is_best(some, m) && chosen == #[trigger] some[m];
                    all.lemma_filter_contains(|s: SymbolView| owned_by(s, t), x);
                    let y = choose|y: int| 0 <= y < some.len() && some[y] == s;
                    law_the_best_match_comes_first(some, m, y);
                },
                ReceiverView::Unknown => {},
                ReceiverView::Nothing => {
                    let m = choose|m: int| is_best(all, m) && chosen == #[trigger] all[m];
                    law_the_best_match_comes_first(all, m, x);
                },
            }
        }
    }
}

/// There is something to complete behind a dot, and wherever a character of a
/// word was typed, and nowhere else.
pub proof fn law_a_word_or_a_dot_is_completed(
    index: IndexView,
    prefix: Seq<char>,
    receiver: ReceiverView,
    items: Option<Seq<CompletionItemView>>,
)
    requires
        word_completed(index, prefix, receiver, items),
    ensures
        items is None <==> prefix.len() == 0 && receiver == ReceiverView::Nothing,
        items is Some && receiver == ReceiverView::Unknown ==> items->0.len() == 0,
{
}

/// The receiver at a position is what stands before the dot there; it has the
/// type that its name is declared with at its start.
pub proof fn law_the_receiver_has_its_declared_type(document: SyntaxTreeView, position: Position)
    ensures
        match receiver_in(document, position) {
            ReceiverView::Nothing => receiver_before(document.source, position) is None,
            ReceiverView::Typed(t) => receiver_before(document.source, position) is Some && {
                let (name, at) = receiver_before(document.source, position)->0;
                name.len() > 0 && declared_type_at(document, at, name) == Some(t)
            },
            ReceiverView::Unknown => receiver_before(document.source, position) is Some && {
                let (name, at) = receiver_before(document.source, position)->0;
                name.len() == 0 || declared_type_at(document, at, name) is None
            },
        },
{
}

} // verus!
