//! The symbols of the workspace: by name, and by the document that declares
//! them.

use crate::keyed_list::{
    by_key, distinct, has_key, lemma_insert, lemma_place, lemma_remove, lemma_set, place,
};
use crate::protocol::Uri;
use crate::symbol::{
    SymbolInfo, SymbolKind, SymbolView, best_match, is_best, is_owned_by, more_relevant, owned_by,
    symbol_ref_views, symbol_views,
};
use crate::text::{
    lemma_prefix_order, lemma_text_lt_total, lemma_text_lt_trans, opt_str, same_text, starts_with,
    text_before, text_lt,
};
use vstd::hash_map::StringHashMap;
use vstd::prelude::*;

verus! {

/// Generation tag for symbols indexed from disk during the initial workspace
/// scan, rather than from a client-versioned `didOpen`/`didChange` event. Any
/// real editor session (generation >= 1, assigned by the server on each
/// `didOpen`) supersedes it, in either arrival order.
pub const SCANNED_FROM_DISK: u64 = 0;

// ---------------------------------------------------------------------------
// The model
// ---------------------------------------------------------------------------

/// A symbol of a name, with the document that gave it. The symbol may stand in
/// another one: a generated accessor is given with the stub of its class and
/// stands at the field that it exposes.
pub struct GivenSymbol {
    pub from: Seq<char>,
    pub symbol: SymbolView,
}

/// What a [`WorkspaceIndex`] holds, as mathematical values: the symbols of each
/// name, the symbols that each document was last indexed with, and the
/// generation and version of that.
pub struct IndexView {
    pub names: Map<Seq<char>, Seq<GivenSymbol>>,
    pub files: Map<Seq<char>, Seq<SymbolView>>,
    pub applied: Map<Seq<char>, (u64, i32)>,
}

/// The symbols of a name, with the documents that gave them: none where the
/// name is unknown.
pub open spec fn entries_in(index: IndexView, name: Seq<char>) -> Seq<GivenSymbol> {
    if index.names.contains_key(name) {
        index.names[name]
    } else {
        Seq::empty()
    }
}

pub open spec fn symbols_of(entries: Seq<GivenSymbol>) -> Seq<SymbolView> {
    entries.map_values(|e: GivenSymbol| e.symbol)
}

/// The symbols of a name.
pub open spec fn lookup_in(index: IndexView, name: Seq<char>) -> Seq<SymbolView> {
    symbols_of(entries_in(index, name))
}

/// The symbols that a document was last indexed with.
pub open spec fn file_in(index: IndexView, uri: Seq<char>) -> Seq<SymbolView> {
    if index.files.contains_key(uri) {
        index.files[uri]
    } else {
        Seq::empty()
    }
}

/// Whether an update is older than what is already applied for its document:
/// by generation first, then by version.
pub open spec fn is_stale(index: IndexView, uri: Seq<char>, generation: u64, version: i32) -> bool {
    index.applied.contains_key(uri) && {
        let (g, v) = index.applied[uri];
        generation < g || (generation == g && version < v)
    }
}

pub open spec fn names_symbol(symbols: Seq<SymbolView>, name: Seq<char>) -> bool {
    exists|i: int| 0 <= i < symbols.len() && (#[trigger] symbols[i]).name == name
}

/// Symbols as a document gives them.
pub open spec fn given(uri: Seq<char>, symbols: Seq<SymbolView>) -> Seq<GivenSymbol> {
    symbols.map_values(|s: SymbolView| GivenSymbol { from: uri, symbol: s })
}

/// What other documents than `uri` gave.
pub open spec fn not_from(entries: Seq<GivenSymbol>, uri: Seq<char>) -> Seq<GivenSymbol> {
    entries.filter(|e: GivenSymbol| e.from != uri)
}

/// The symbols of a name behind an update: the earlier ones but for those that
/// the document gave, then the new ones in their order.
pub open spec fn updated_bucket(
    index: IndexView,
    uri: Seq<char>,
    symbols: Seq<SymbolView>,
    name: Seq<char>,
) -> Seq<GivenSymbol> {
    not_from(entries_in(index, name), uri) + given(
        uri,
        symbols.filter(|s: SymbolView| s.name == name),
    )
}

/// The index behind an update that is not stale.
pub open spec fn updated(
    index: IndexView,
    uri: Seq<char>,
    generation: u64,
    version: i32,
    symbols: Seq<SymbolView>,
) -> IndexView {
    IndexView {
        names: Map::new(
            |n: Seq<char>| updated_bucket(index, uri, symbols, n).len() > 0,
            |n: Seq<char>| updated_bucket(index, uri, symbols, n),
        ),
        files: index.files.insert(uri, symbols),
        applied: index.applied.insert(uri, (generation, version)),
    }
}

/// The index behind an update: unchanged where the update is stale.
pub open spec fn after_update(
    index: IndexView,
    uri: Seq<char>,
    generation: u64,
    version: i32,
    symbols: Seq<SymbolView>,
) -> IndexView {
    if is_stale(index, uri, generation, version) {
        index
    } else {
        updated(index, uri, generation, version, symbols)
    }
}

/// The index with nothing in it.
pub open spec fn empty_index() -> IndexView {
    IndexView { names: Map::empty(), files: Map::empty(), applied: Map::empty() }
}

/// Whether a list of symbols completes a prefix by a choice of candidates for
/// each name: one symbol for each name that has the prefix and a candidate, the
/// names in ascending order, each symbol the most relevant of its candidates.
pub open spec fn completes(
    result: Seq<SymbolView>,
    prefix: Seq<char>,
    candidates: spec_fn(Seq<char>) -> Seq<SymbolView>,
) -> bool {
    &&& forall|i: int, j: int|
        0 <= i < j < result.len() ==> text_lt(
            (#[trigger] result[i]).name,
            (#[trigger] result[j]).name,
        )
    &&& forall|i: int|
        0 <= i < result.len() ==> prefix.is_prefix_of((#[trigger] result[i]).name) && exists|k: int|
            is_best(candidates(result[i].name), k) && result[i] == #[trigger] candidates(
                result[i].name,
            )[k]
    &&& forall|n: Seq<char>|
        prefix.is_prefix_of(n) && (#[trigger] candidates(n)).len() > 0 ==> names_symbol(result, n)
}

/// The symbols of a name that are declared on a type.
pub open spec fn members_in(index: IndexView, owner: Seq<char>, name: Seq<char>) -> Seq<
    SymbolView,
> {
    lookup_in(index, name).filter(|s: SymbolView| owned_by(s, owner))
}

// ---------------------------------------------------------------------------
// The index
// ---------------------------------------------------------------------------

/// The symbols of one name, and for each the document that gave it.
struct Bucket {
    name: String,
    symbols: Vec<SymbolInfo>,
    from: Vec<Uri>,
}

/// What a document was last indexed with.
struct FileEntry {
    symbols: Vec<SymbolInfo>,
    generation: u64,
    version: i32,
}

/// The symbols of the workspace. The names are kept in ascending order, so that
/// those with a prefix stand together: completing a prefix touches those alone
/// rather than every name.
pub struct WorkspaceIndex {
    buckets: Vec<Bucket>,
    files: StringHashMap<FileEntry>,
}

spec fn bucket_entries(b: Bucket) -> Seq<GivenSymbol> {
    Seq::new(
        b.symbols@.len(),
        |i: int| GivenSymbol { from: b.from@[i]@, symbol: b.symbols@[i]@ },
    )
}

spec fn bucket_views(buckets: Seq<Bucket>) -> Buckets {
    buckets.map_values(|b: Bucket| (b.name@, bucket_entries(b)))
}

type Buckets = Seq<(Seq<char>, Seq<GivenSymbol>)>;

spec fn named(entries: Seq<GivenSymbol>, name: Seq<char>) -> bool {
    forall|k: int| 0 <= k < entries.len() ==> (#[trigger] entries[k]).symbol.name == name
}

/// Whether the names ascend, and each has symbols, all of that name.
spec fn well_sorted(b: Buckets) -> bool {
    &&& forall|i: int, j: int|
        0 <= i < j < b.len() ==> text_lt((#[trigger] b[i]).0, (#[trigger] b[j]).0)
    &&& forall|i: int| 0 <= i < b.len() ==> (#[trigger] b[i]).1.len() > 0 && named(b[i].1, b[i].0)
}

/// Whether the names are well sorted and each symbol has a document.
spec fn sound(buckets: Seq<Bucket>) -> bool {
    &&& well_sorted(bucket_views(buckets))
    &&& forall|i: int|
        0 <= i < buckets.len() ==> (#[trigger] buckets[i]).from@.len() == buckets[i].symbols@.len()
}

proof fn lemma_distinct(b: Buckets)
    requires
        well_sorted(b),
    ensures
        distinct(b),
{
    assert forall|i: int, j: int| 0 <= i < j < b.len() implies (#[trigger] b[i]).0
        != (#[trigger] b[j]).0 by {
        lemma_text_lt_total(b[i].0, b[i].0);
    }
}

impl View for WorkspaceIndex {
    type V = IndexView;

    closed spec fn view(&self) -> IndexView {
        IndexView {
            names: by_key(bucket_views(self.buckets@)),
            files: self.files@.map_values(|f: FileEntry| symbol_views(f.symbols@)),
            applied: self.files@.map_values(|f: FileEntry| (f.generation, f.version)),
        }
    }
}

/// The first place whose name does not come before `name`.
fn find_place(buckets: &Vec<Bucket>, name: &str) -> (r: usize)
    requires
        sound(buckets@),
    ensures
        r <= buckets@.len(),
        forall|i: int| 0 <= i < r ==> text_lt(#[trigger] buckets@[i].name@, name@),
        forall|i: int| r <= i < buckets@.len() ==> !text_lt(#[trigger] buckets@[i].name@, name@),
{
    let ghost b = bucket_views(buckets@);
    let mut lo: usize = 0;
    let mut hi: usize = buckets.len();
    while lo < hi
        invariant
            lo <= hi <= buckets@.len(),
            b == bucket_views(buckets@),
            well_sorted(b),
            forall|i: int| 0 <= i < lo ==> text_lt(#[trigger] buckets@[i].name@, name@),
            forall|i: int|
                hi <= i < buckets@.len() ==> !text_lt(#[trigger] buckets@[i].name@, name@),
        decreases hi - lo,
    {
        let mid: usize = lo + (hi - lo) / 2;
        let before = text_before(buckets[mid].name.as_str(), name);
        proof {
            assert(b[mid as int].0 == buckets@[mid as int].name@);
            if before {
                assert forall|i: int| 0 <= i <= mid implies text_lt(
                    #[trigger] buckets@[i].name@,
                    name@,
                ) by {
                    assert(b[i].0 == buckets@[i].name@);
                    if i < mid {
                        lemma_text_lt_trans(b[i].0, b[mid as int].0, name@);
                    }
                }
            } else {
                assert forall|i: int| mid <= i < buckets@.len() implies !text_lt(
                    #[trigger] buckets@[i].name@,
                    name@,
                ) by {
                    assert(b[i].0 == buckets@[i].name@);
                    if i > mid && text_lt(b[i].0, name@) {
                        lemma_text_lt_trans(b[mid as int].0, b[i].0, name@);
                    }
                }
            }
        }
        if before {
            lo = mid + 1;
        } else {
            hi = mid;
        }
    }
    lo
}

/// Where the bucket of a name is, if there is one.
fn find_name(buckets: &Vec<Bucket>, name: &str) -> (r: Option<usize>)
    requires
        sound(buckets@),
    ensures
        match r {
            Some(i) => {
                &&& i < buckets@.len()
                &&& buckets@[i as int].name@ == name@
                &&& by_key(bucket_views(buckets@)).contains_key(name@)
                &&& by_key(bucket_views(buckets@))[name@] == bucket_entries(buckets@[i as int])
            },
            None => !by_key(bucket_views(buckets@)).contains_key(name@),
        },
{
    let ghost b = bucket_views(buckets@);
    let p: usize = find_place(buckets, name);
    if p < buckets.len() && same_text(buckets[p].name.as_str(), name) {
        proof {
            assert(b[p as int].0 == name@);
            lemma_distinct(b);
            lemma_place(b, p as int);
        }
        Some(p)
    } else {
        proof {
            if has_key(b, name@) {
                let i = place(b, name@);
                assert(b[i].0 == buckets@[i].name@);
                lemma_text_lt_total(name@, name@);
                assert(p <= i);
                if p < i {
                    assert(b[p as int].0 == buckets@[p as int].name@);
                    assert(text_lt(b[p as int].0, b[i].0));
                }
            }
        }
        None
    }
}

/// The names with what a document gave taken out of one of them.
spec fn dropped(
    names: Map<Seq<char>, Seq<GivenSymbol>>,
    name: Seq<char>,
    uri: Seq<char>,
) -> Map<Seq<char>, Seq<GivenSymbol>> {
    if names.contains_key(name) {
        let left = not_from(names[name], uri);
        if left.len() == 0 {
            names.remove(name)
        } else {
            names.insert(name, left)
        }
    } else {
        names
    }
}

/// What other documents than `uri` gave, in its order.
fn without_document(bucket: &Bucket, uri: &Uri) -> (r: Bucket)
    requires
        bucket.from@.len() == bucket.symbols@.len(),
    ensures
        r.name@ == bucket.name@,
        r.from@.len() == r.symbols@.len(),
        bucket_entries(r) == not_from(bucket_entries(*bucket), uri@),
{
    let ghost pred = |e: GivenSymbol| e.from != uri@;
    let ghost entries = bucket_entries(*bucket);
    let mut out = Bucket { name: bucket.name.clone(), symbols: Vec::new(), from: Vec::new() };
    let mut i: usize = 0;
    proof {
        assert(entries.take(0) =~= Seq::empty());
        lemma_filter_none(Seq::<GivenSymbol>::empty(), pred);
        assert(bucket_entries(out) =~= Seq::empty());
    }
    while i < bucket.symbols.len()
        invariant
            i <= bucket.symbols.len(),
            bucket.from@.len() == bucket.symbols@.len(),
            pred == (|e: GivenSymbol| e.from != uri@),
            entries == bucket_entries(*bucket),
            out.name@ == bucket.name@,
            out.from@.len() == out.symbols@.len(),
            bucket_entries(out) == entries.take(i as int).filter(pred),
        decreases bucket.symbols.len() - i,
    {
        let ghost before = out;
        proof {
            assert(entries.take(i + 1) =~= entries.take(i as int).push(entries[i as int]));
            entries.take(i as int).lemma_filter_push(entries[i as int], pred);
        }
        if !same_text(bucket.from[i].as_str(), uri.as_str()) {
            out.symbols.push(bucket.symbols[i].clone());
            out.from.push(bucket.from[i].clone());
            assert(bucket_entries(out) =~= bucket_entries(before).push(entries[i as int]));
        }
        i += 1;
    }
    assert(entries.take(i as int) =~= entries);
    out
}

proof fn lemma_filter_named(
    s: Seq<GivenSymbol>,
    pred: spec_fn(GivenSymbol) -> bool,
    name: Seq<char>,
)
    requires
        named(s, name),
    ensures
        named(s.filter(pred), name),
{
    assert forall|k: int| 0 <= k < s.filter(pred).len() implies (
    #[trigger] s.filter(pred)[k]).symbol.name == name by {
        s.lemma_filter_pred(pred, k);
        s.lemma_filter_contains_rev(pred, s.filter(pred)[k]);
    }
}

fn drop_from_name(buckets: &mut Vec<Bucket>, name: &str, uri: &Uri)
    requires
        sound(old(buckets)@),
    ensures
        sound(final(buckets)@),
        by_key(bucket_views(final(buckets)@)) == dropped(
            by_key(bucket_views(old(buckets)@)),
            name@,
            uri@,
        ),
{
    let ghost b = bucket_views(buckets@);
    if let Some(i) = find_name(buckets, name) {
        let ghost at = i as int;
        let left = without_document(&buckets[i], uri);
        let ghost views = bucket_entries(left);
        proof {
            assert(b[at].1 == bucket_entries(buckets@[at]));
            assert(views.len() == left.symbols@.len());
            lemma_distinct(b);
            lemma_filter_named(b[at].1, |e: GivenSymbol| e.from != uri@, name@);
        }
        if left.symbols.len() == 0 {
            let ghost before = buckets@;
            buckets.remove(i);
            proof {
                let c = bucket_views(buckets@);
                assert(c =~= b.remove(at));
                lemma_remove(b, at);
                lemma_remove_sorted(b, at);
                assert forall|k: int| 0 <= k < buckets@.len() implies (
                #[trigger] buckets@[k]).from@.len() == buckets@[k].symbols@.len() by {
                    let x = if k < at { k } else { k + 1 };
                    assert(buckets@[k] == before[x]);
                }
            }
        } else {
            buckets.set(i, left);
            proof {
                let c = bucket_views(buckets@);
                assert(c =~= b.update(at, (name@, views)));
                lemma_set(b, at, views);
                lemma_set_sorted(b, at, views);
            }
        }
    }
}

proof fn lemma_remove_sorted(b: Buckets, at: int)
    requires
        well_sorted(b),
        0 <= at < b.len(),
    ensures
        well_sorted(b.remove(at)),
{
    let c = b.remove(at);
    assert forall|i: int, j: int| 0 <= i < j < c.len() implies text_lt(
        (#[trigger] c[i]).0,
        (#[trigger] c[j]).0,
    ) by {
        let x = if i < at { i } else { i + 1 };
        let y = if j < at { j } else { j + 1 };
        assert(c[i] == b[x]);
        assert(c[j] == b[y]);
    }
    assert forall|i: int| 0 <= i < c.len() implies (#[trigger] c[i]).1.len() > 0 && named(
        c[i].1,
        c[i].0,
    ) by {
        let x = if i < at { i } else { i + 1 };
        assert(c[i] == b[x]);
    }
}

proof fn lemma_set_sorted(b: Buckets, at: int, entries: Seq<GivenSymbol>)
    requires
        well_sorted(b),
        0 <= at < b.len(),
        entries.len() > 0,
        named(entries, b[at].0),
    ensures
        well_sorted(b.update(at, (b[at].0, entries))),
{
    let c = b.update(at, (b[at].0, entries));
    assert forall|i: int| 0 <= i < c.len() implies (#[trigger] c[i]).1.len() > 0 && named(
        c[i].1,
        c[i].0,
    ) by {
        if i != at {
            assert(c[i] == b[i]);
        }
    }
    assert forall|i: int, j: int| 0 <= i < j < c.len() implies text_lt(
        (#[trigger] c[i]).0,
        (#[trigger] c[j]).0,
    ) by {
        assert(c[i].0 == b[i].0 && c[j].0 == b[j].0);
    }
}

proof fn lemma_insert_sorted(b: Buckets, at: int, name: Seq<char>, entries: Seq<GivenSymbol>)
    requires
        well_sorted(b),
        0 <= at <= b.len(),
        entries.len() > 0,
        named(entries, name),
        forall|i: int| 0 <= i < at ==> text_lt((#[trigger] b[i]).0, name),
        forall|i: int| at <= i < b.len() ==> text_lt(name, (#[trigger] b[i]).0),
    ensures
        well_sorted(b.insert(at, (name, entries))),
{
    let c = b.insert(at, (name, entries));
    assert forall|i: int| 0 <= i < c.len() implies #[trigger] c[i] == if i < at {
        b[i]
    } else if i == at {
        (name, entries)
    } else {
        b[i - 1]
    } by {}
}

/// The names with one more symbol.
spec fn added(
    names: Map<Seq<char>, Seq<GivenSymbol>>,
    uri: Seq<char>,
    symbol: SymbolView,
) -> Map<Seq<char>, Seq<GivenSymbol>> {
    names.insert(
        symbol.name,
        look(names, symbol.name).push(GivenSymbol { from: uri, symbol }),
    )
}

fn add_to_name(buckets: &mut Vec<Bucket>, uri: Uri, symbol: SymbolInfo)
    requires
        sound(old(buckets)@),
    ensures
        sound(final(buckets)@),
        by_key(bucket_views(final(buckets)@)) == added(
            by_key(bucket_views(old(buckets)@)),
            uri@,
            symbol@,
        ),
{
    let ghost b = bucket_views(buckets@);
    let ghost name = symbol@.name;
    let ghost entry = GivenSymbol { from: uri@, symbol: symbol@ };
    proof {
        lemma_distinct(b);
    }
    match find_name(buckets, symbol.name.as_str()) {
        Some(i) => {
            let ghost at = i as int;
            let ghost earlier = bucket_entries(buckets@[at]);
            assert(b[at].1 == earlier);
            buckets[i].symbols.push(symbol);
            buckets[i].from.push(uri);
            proof {
                let now = bucket_entries(buckets@[at]);
                assert(now =~= earlier.push(entry));
                let c = bucket_views(buckets@);
                assert(c =~= b.update(at, (name, now)));
                lemma_set(b, at, now);
                lemma_set_sorted(b, at, now);
            }
        },
        None => {
            let i: usize = find_place(buckets, symbol.name.as_str());
            let ghost at = i as int;
            let ghost before = buckets@;
            let key = symbol.name.clone();
            let mut bucket = Bucket { name: key, symbols: Vec::new(), from: Vec::new() };
            bucket.symbols.push(symbol);
            bucket.from.push(uri);
            let ghost now = bucket_entries(bucket);
            proof {
                assert(now =~= Seq::empty().push(entry));
                assert forall|k: int| at <= k < b.len() implies text_lt(
                    name,
                    (#[trigger] b[k]).0,
                ) by {
                    assert(b[k].0 == buckets@[k].name@);
                    lemma_text_lt_total(name, b[k].0);
                    lemma_place(b, k);
                }
                assert forall|k: int| 0 <= k < at implies text_lt((#[trigger] b[k]).0, name) by {
                    assert(b[k].0 == buckets@[k].name@);
                }
            }
            buckets.insert(i, bucket);
            proof {
                let c = bucket_views(buckets@);
                assert(c =~= b.insert(at, (name, now)));
                lemma_insert(b, at, name, now);
                lemma_insert_sorted(b, at, name, now);
                assert forall|k: int| 0 <= k < buckets@.len() implies (
                #[trigger] buckets@[k]).from@.len() == buckets@[k].symbols@.len() by {
                    if k != at {
                        let x = if k < at { k } else { k - 1 };
                        assert(buckets@[k] == before[x]);
                    }
                }
            }
        },
    }
}

/// The names with what a document gave taken out of every name that a list of
/// symbols names.
spec fn dropped_all(
    names: Map<Seq<char>, Seq<GivenSymbol>>,
    old: Seq<SymbolView>,
    uri: Seq<char>,
) -> Map<Seq<char>, Seq<GivenSymbol>>
    decreases old.len(),
{
    if old.len() == 0 {
        names
    } else {
        dropped(dropped_all(names, old.drop_last(), uri), old.last().name, uri)
    }
}

/// The names with more symbols.
spec fn added_all(
    names: Map<Seq<char>, Seq<GivenSymbol>>,
    uri: Seq<char>,
    symbols: Seq<SymbolView>,
) -> Map<Seq<char>, Seq<GivenSymbol>>
    decreases symbols.len(),
{
    if symbols.len() == 0 {
        names
    } else {
        added(added_all(names, uri, symbols.drop_last()), uri, symbols.last())
    }
}

spec fn look(names: Map<Seq<char>, Seq<GivenSymbol>>, n: Seq<char>) -> Seq<GivenSymbol> {
    if names.contains_key(n) {
        names[n]
    } else {
        Seq::empty()
    }
}

spec fn no_empty(names: Map<Seq<char>, Seq<GivenSymbol>>) -> bool {
    forall|n: Seq<char>| #[trigger] names.contains_key(n) ==> names[n].len() > 0
}

proof fn lemma_dropped_all(
    names: Map<Seq<char>, Seq<GivenSymbol>>,
    old: Seq<SymbolView>,
    uri: Seq<char>,
    n: Seq<char>,
)
    requires
        no_empty(names),
    ensures
        no_empty(dropped_all(names, old, uri)),
        look(dropped_all(names, old, uri), n) == if names_symbol(old, n) {
            not_from(look(names, n), uri)
        } else {
            look(names, n)
        },
    decreases old.len(),
{
    let pred = |e: GivenSymbol| e.from != uri;
    if old.len() > 0 {
        let before = old.drop_last();
        let last = old.last();
        lemma_dropped_all(names, before, uri, n);
        lemma_dropped_all(names, before, uri, last.name);
        assert(names_symbol(old, n) <==> names_symbol(before, n) || last.name == n) by {
            if names_symbol(before, n) {
                let i = choose|i: int| 0 <= i < before.len() && (#[trigger] before[i]).name == n;
                assert(old[i].name == n);
            }
            if names_symbol(old, n) {
                let i = choose|i: int| 0 <= i < old.len() && (#[trigger] old[i]).name == n;
                if i < before.len() {
                    assert(before[i].name == n);
                }
            }
            assert(old[old.len() - 1] == last);
        }
        if last.name == n {
            let bucket = look(names, n);
            lemma_filter_and(bucket, pred, pred, pred);
            lemma_filter_none(Seq::<GivenSymbol>::empty(), pred);
            let mid = look(dropped_all(names, before, uri), n);
            assert(mid.filter(pred) == bucket.filter(pred));
            if mid.filter(pred).len() == 0 {
                assert(mid.filter(pred) =~= Seq::empty());
            }
        }
    }
}

proof fn lemma_added_all(
    names: Map<Seq<char>, Seq<GivenSymbol>>,
    uri: Seq<char>,
    symbols: Seq<SymbolView>,
    n: Seq<char>,
)
    requires
        no_empty(names),
    ensures
        no_empty(added_all(names, uri, symbols)),
        look(added_all(names, uri, symbols), n) == look(names, n) + given(
            uri,
            symbols.filter(|s: SymbolView| s.name == n),
        ),
    decreases symbols.len(),
{
    let pred = |s: SymbolView| s.name == n;
    if symbols.len() == 0 {
        lemma_filter_none(symbols, pred);
        assert(look(names, n) + given(uri, symbols.filter(pred)) =~= look(names, n));
    } else {
        let before = symbols.drop_last();
        let last = symbols.last();
        lemma_added_all(names, uri, before, n);
        before.lemma_filter_push(last, pred);
        assert(before.push(last) =~= symbols);
        let mid = look(added_all(names, uri, before), n);
        if last.name == n {
            assert(look(names, n) + given(uri, before.filter(pred).push(last)) =~= mid.push(
                GivenSymbol { from: uri, symbol: last },
            ));
        }
    }
}

proof fn lemma_update_names(
    index: IndexView,
    uri: Seq<char>,
    generation: u64,
    version: i32,
    symbols: Seq<SymbolView>,
)
    requires
        no_empty(index.names),
        consistent(index),
    ensures
        added_all(dropped_all(index.names, file_in(index, uri), uri), uri, symbols) == updated(
            index,
            uri,
            generation,
            version,
            symbols,
        ).names,
        no_empty(updated(index, uri, generation, version, symbols).names),
{
    let old = file_in(index, uri);
    let mid = dropped_all(index.names, old, uri);
    let left = added_all(mid, uri, symbols);
    let right = updated(index, uri, generation, version, symbols).names;
    assert forall|n: Seq<char>|
        #![trigger left.dom().contains(n)]
        #![trigger right.dom().contains(n)]
        #![trigger left[n]]
        left.dom().contains(n) == right.dom().contains(n) && (left.dom().contains(n) ==> left[n]
            == right[n]) by {
        lemma_dropped_all(index.names, old, uri, n);
        lemma_added_all(mid, uri, symbols, n);
        if !names_symbol(old, n) {
            lemma_nothing_from(index, uri, n);
        }
        assert(look(left, n) == updated_bucket(index, uri, symbols, n));
        if left.contains_key(n) {
            assert(left[n].len() > 0);
        }
    }
    assert(left =~= right);
}

/// A document gave nothing to a name that none of its symbols has.
proof fn lemma_nothing_from(index: IndexView, uri: Seq<char>, n: Seq<char>)
    requires
        consistent(index),
        !names_symbol(file_in(index, uri), n),
    ensures
        not_from(entries_in(index, n), uri) == entries_in(index, n),
{
    let entries = entries_in(index, n);
    let is_from = |e: GivenSymbol| e.from == uri;
    let old = file_in(index, uri);
    lemma_filter_none(old, |s: SymbolView| s.name == n);
    assert(entries_in(index, n).filter(is_from).len() == 0);
    assert forall|i: int| 0 <= i < entries.len() implies (#[trigger] entries[i]).from != uri by {
        if is_from(entries[i]) {
            entries.lemma_filter_contains(is_from, i);
        }
    }
    lemma_filter_every(entries, |e: GivenSymbol| e.from != uri);
}

impl WorkspaceIndex {
    /// Whether the names ascend, none is without symbols of that name, and the
    /// index is consistent.
    pub closed spec fn wf(&self) -> bool {
        sound(self.buckets@) && consistent(self@)
    }

    pub fn new() -> (r: Self)
        ensures
            r.wf(),
            r@ == empty_index(),
    {
        let r = Self { buckets: Vec::new(), files: StringHashMap::new() };
        proof {
            assert(bucket_views(r.buckets@) =~= Seq::empty());
            assert(r@.names =~= Map::empty());
            assert(r@.files =~= Map::empty());
            assert(r@.applied =~= Map::empty());
            law_empty_index_is_consistent();
        }
        r
    }

    /// Whatever updates an index came of, it is consistent.
    pub proof fn law_an_index_is_consistent(&self)
        requires
            self.wf(),
        ensures
            consistent(self@),
    {
    }

    proof fn lemma_no_empty(&self)
        requires
            self.wf(),
        ensures
            no_empty(self@.names),
    {
        let b = bucket_views(self.buckets@);
        lemma_distinct(b);
        assert forall|n: Seq<char>| #[trigger] self@.names.contains_key(n) implies self@.names[n].len()
            > 0 by {
            lemma_place(b, place(b, n));
        }
    }

    /// Replaces the symbols indexed for `uri`. Returns `false` without changing
    /// anything if `(generation, version)`, compared lexicographically, is
    /// older than what's already applied. The generation is a counter bumped on
    /// every `didOpen`, independent of the client-supplied `version`, which
    /// editors are free to restart from a low number on every fresh open.
    /// Gating on generation first means a background reindex from a *closed*
    /// editor session, however late it completes, can never overwrite a *later*
    /// session's content.
    pub fn update_file(
        &mut self,
        uri: Uri,
        generation: u64,
        version: i32,
        symbols: Vec<SymbolInfo>,
    ) -> (r: bool)
        requires
            old(self).wf(),
        ensures
            final(self).wf(),
            final(self)@ == after_update(
                old(self)@,
                uri@,
                generation,
                version,
                symbol_views(symbols@),
            ),
            r == !is_stale(old(self)@, uri@, generation, version),
    {
        let ghost start = self@;
        let ghost new_views = symbol_views(symbols@);
        let mut old_names: Vec<String> = Vec::new();
        let ghost mut old_views: Seq<SymbolView> = Seq::empty();
        match self.files.get(uri.as_str()) {
            Some(entry) => {
                if generation < entry.generation || (generation == entry.generation && version
                    < entry.version) {
                    return false;
                }
                proof {
                    old_views = symbol_views(entry.symbols@);
                }
                let mut i: usize = 0;
                while i < entry.symbols.len()
                    invariant
                        i <= entry.symbols.len(),
                        old_names.len() == i,
                        old_views == symbol_views(entry.symbols@),
                        forall|k: int| 0 <= k < i ==> #[trigger] old_names@[k]@ == old_views[k].name,
                    decreases entry.symbols.len() - i,
                {
                    old_names.push(entry.symbols[i].name.clone());
                    i += 1;
                }
            },
            None => {},
        }
        proof {
            self.lemma_no_empty();
            assert(old_views == file_in(start, uri@));
            assert(old_views.take(0) =~= Seq::empty());
            lemma_update_names(start, uri@, generation, version, new_views);
        }
        let mut i: usize = 0;
        while i < old_names.len()
            invariant
                i <= old_names.len(),
                old_names.len() == old_views.len(),
                forall|k: int|
                    0 <= k < old_names.len() ==> #[trigger] old_names@[k]@ == old_views[k].name,
                sound(self.buckets@),
                self.files == old(self).files,
                by_key(bucket_views(self.buckets@)) == dropped_all(
                    start.names,
                    old_views.take(i as int),
                    uri@,
                ),
            decreases old_names.len() - i,
        {
            drop_from_name(&mut self.buckets, old_names[i].as_str(), &uri);
            proof {
                assert(old_views.take(i + 1).drop_last() =~= old_views.take(i as int));
                assert(old_views.take(i + 1).last() == old_views[i as int]);
            }
            i += 1;
        }
        assert(old_views.take(i as int) =~= old_views);
        let ghost mid = by_key(bucket_views(self.buckets@));
        let mut j: usize = 0;
        assert(new_views.take(0) =~= Seq::empty());
        while j < symbols.len()
            invariant
                j <= symbols.len(),
                new_views == symbol_views(symbols@),
                sound(self.buckets@),
                self.files == old(self).files,
                by_key(bucket_views(self.buckets@)) == added_all(
                    mid,
                    uri@,
                    new_views.take(j as int),
                ),
            decreases symbols.len() - j,
        {
            add_to_name(&mut self.buckets, uri.clone(), symbols[j].clone());
            proof {
                assert(new_views.take(j + 1).drop_last() =~= new_views.take(j as int));
                assert(new_views.take(j + 1).last() == new_views[j as int]);
            }
            j += 1;
        }
        assert(new_views.take(j as int) =~= new_views);
        let key = uri.text;
        self.files.insert(key, FileEntry { symbols, generation, version });
        proof {
            assert(self@.files =~= start.files.insert(uri@, new_views));
            assert(self@.applied =~= start.applied.insert(uri@, (generation, version)));
            law_update_keeps_the_index_consistent(start, uri@, generation, version, new_views);
        }
        true
    }

    /// The symbols of a name.
    pub fn lookup(&self, name: &str) -> (r: &[SymbolInfo])
        requires
            self.wf(),
        ensures
            symbol_views(r@) == lookup_in(self@, name@),
    {
        match find_name(&self.buckets, name) {
            Some(i) => {
                proof {
                    lemma_bucket_symbols(self.buckets@[i as int]);
                }
                self.buckets[i].symbols.as_slice()
            },
            None => {
                let none: &[SymbolInfo] = &[];
                assert(symbol_views(none@) =~= lookup_in(self@, name@));
                none
            },
        }
    }

    /// One entry per distinct matching name, preferring a real declaration over
    /// an import of the same name (see [`crate::symbol::relevance_key`]) so a
    /// class and an import of that class don't show up as two suggestions.
    pub fn completions(&self, prefix: &str) -> (r: Vec<&SymbolInfo>)
        requires
            self.wf(),
        ensures
            completes(
                symbol_ref_views(r@),
                prefix@,
                |n: Seq<char>| lookup_in(self@, n),
            ),
    {
        let r = self.complete(prefix, None);
        assert(choices(self@, None) =~= (|n: Seq<char>| lookup_in(self@, n)));
        r
    }

    /// One entry per distinct matching name of a member declared on `owner`.
    pub fn completions_by_owner(&self, prefix: &str, owner: &str) -> (r: Vec<&SymbolInfo>)
        requires
            self.wf(),
        ensures
            completes(
                symbol_ref_views(r@),
                prefix@,
                |n: Seq<char>| members_in(self@, owner@, n),
            ),
    {
        let r = self.complete(prefix, Some(owner));
        assert(choices(self@, Some(owner@)) =~= (|n: Seq<char>| members_in(self@, owner@, n)));
        r
    }

    fn complete(&self, prefix: &str, owner: Option<&str>) -> (r: Vec<&SymbolInfo>)
        requires
            self.wf(),
        ensures
            completes(symbol_ref_views(r@), prefix@, choices(self@, opt_str(owner))),
    {
        let ghost b = bucket_views(self.buckets@);
        let ghost f = choices(self@, opt_str(owner));
        let first: usize = find_place(&self.buckets, prefix);
        let mut out: Vec<&SymbolInfo> = Vec::new();
        let mut i: usize = first;
        let mut more = true;
        proof {
            assert forall|k: int| 0 <= k < first implies !prefix@.is_prefix_of(
                (#[trigger] b[k]).0,
            ) by {
                assert(b[k].0 == self.buckets@[k].name@);
                lemma_prefix_order(prefix@, b[k].0, b[k].0);
            }
        }
        while more && i < self.buckets.len()
            invariant
                first <= i <= self.buckets.len(),
                self.wf(),
                b == bucket_views(self.buckets@),
                f == choices(self@, opt_str(owner)),
                forall|k: int|
                    first <= k < self.buckets@.len() ==> !text_lt(
                        #[trigger] self.buckets@[k].name@,
                        prefix@,
                    ),
                forall|k: int| 0 <= k < first ==> !prefix@.is_prefix_of((#[trigger] b[k]).0),
                !more ==> forall|k: int| i <= k < b.len() ==> !prefix@.is_prefix_of(
                    (#[trigger] b[k]).0,
                ),
                chosen(symbol_ref_views(out@), prefix@, f, b, i as int),
            decreases
                    (if more {
                        1int
                    } else {
                        0
                    }),
                    self.buckets.len() - i,
        {
            let name = self.buckets[i].name.as_str();
            assert(b[i as int].0 == name@);
            if starts_with(name, prefix) {
                let candidates = candidates_of(&self.buckets[i].symbols, owner);
                let ghost before = symbol_ref_views(out@);
                let ghost views = symbol_ref_views(candidates@);
                proof {
                    lemma_distinct(b);
                    lemma_place(b, i as int);
                    lemma_bucket_symbols(self.buckets@[i as int]);
                    assert(views == f(name@));
                    assert(views.len() == candidates@.len());
                }
                match best_match(&candidates) {
                    Some(best) => {
                        out.push(best);
                        proof {
                            let k = choose|k: int|
                                is_best(views, k) && *best == *#[trigger] candidates@[k];
                            assert(views[k] == best@);
                            assert(symbol_ref_views(out@) =~= before.push(best@));
                            lemma_choice_is_named(b, i as int, owner, views, k);
                            lemma_chosen_push(before, best@, prefix@, f, b, i as int, k);
                        }
                    },
                    None => {
                        proof {
                            lemma_chosen_skip(before, prefix@, f, b, i as int);
                        }
                    },
                }
                i += 1;
            } else {
                more = false;
                proof {
                    assert forall|k: int| i <= k < b.len() implies !prefix@.is_prefix_of(
                        (#[trigger] b[k]).0,
                    ) by {
                        assert(b[k].0 == self.buckets@[k].name@);
                        if k > i {
                            assert(text_lt(b[i as int].0, b[k].0));
                            lemma_prefix_order(prefix@, b[i as int].0, b[k].0);
                        }
                    }
                }
            }
        }
        proof {
            let r = symbol_ref_views(out@);
            assert forall|n: Seq<char>| prefix@.is_prefix_of(n) && (#[trigger] f(n)).len()
                > 0 implies names_symbol(r, n) by {
                lemma_choice_has_name(b, owner, n, self@);
                let k = place(b, n);
                assert(b[k].0 == n);
            }
        }
        out
    }
}

/// What a document is to be indexed with: found out beforehand, so that the
/// index itself need be held no longer than it takes to apply it.
pub struct FileUpdate {
    pub uri: Uri,
    pub generation: u64,
    pub version: i32,
    pub symbols: Vec<SymbolInfo>,
}

/// What a [`FileUpdate`] says, as mathematical values.
pub struct UpdateView {
    pub uri: Seq<char>,
    pub generation: u64,
    pub version: i32,
    pub symbols: Seq<SymbolView>,
}

impl View for FileUpdate {
    type V = UpdateView;

    open spec fn view(&self) -> UpdateView {
        UpdateView {
            uri: self.uri@,
            generation: self.generation,
            version: self.version,
            symbols: symbol_views(self.symbols@),
        }
    }
}

/// The index behind an update.
pub open spec fn applied_update(index: IndexView, update: UpdateView) -> IndexView {
    after_update(index, update.uri, update.generation, update.version, update.symbols)
}

impl FileUpdate {
    /// Applies the update; `false` where the index already holds something
    /// newer of the document.
    pub fn apply(self, index: &mut WorkspaceIndex) -> (r: bool)
        requires
            old(index).wf(),
        ensures
            final(index).wf(),
            final(index)@ == applied_update(old(index)@, self@),
            r == !is_stale(old(index)@, self@.uri, self.generation, self.version),
    {
        index.update_file(self.uri, self.generation, self.version, self.symbols)
    }
}

/// The candidates for a name: all of its symbols, or those of an owner.
spec fn choices(index: IndexView, owner: Option<Seq<char>>) -> spec_fn(Seq<char>) -> Seq<
    SymbolView,
> {
    |n: Seq<char>|
        match owner {
            Some(o) => members_in(index, o, n),
            None => lookup_in(index, n),
        }
}

/// Whether a list holds the choice of every name with the prefix among the
/// first `n` buckets.
spec fn chosen(
    result: Seq<SymbolView>,
    prefix: Seq<char>,
    f: spec_fn(Seq<char>) -> Seq<SymbolView>,
    b: Buckets,
    n: int,
) -> bool {
    &&& forall|i: int, j: int|
        0 <= i < j < result.len() ==> text_lt(
            (#[trigger] result[i]).name,
            (#[trigger] result[j]).name,
        )
    &&& forall|i: int|
        0 <= i < result.len() ==> prefix.is_prefix_of((#[trigger] result[i]).name) && exists|k: int|
            is_best(f(result[i].name), k) && result[i] == #[trigger] f(result[i].name)[k]
    &&& forall|i: int|
        0 <= i < result.len() ==> exists|k: int|
            0 <= k < n && (#[trigger] b[k]).0 == (#[trigger] result[i]).name
    &&& forall|k: int|
        0 <= k < n && prefix.is_prefix_of((#[trigger] b[k]).0) && f(b[k].0).len() > 0
            ==> names_symbol(result, b[k].0)
}

proof fn lemma_chosen_push(
    result: Seq<SymbolView>,
    best: SymbolView,
    prefix: Seq<char>,
    f: spec_fn(Seq<char>) -> Seq<SymbolView>,
    b: Buckets,
    n: int,
    k: int,
)
    requires
        0 <= n < b.len(),
        well_sorted(b),
        chosen(result, prefix, f, b, n),
        prefix.is_prefix_of(b[n].0),
        is_best(f(b[n].0), k),
        best == f(b[n].0)[k],
        best.name == b[n].0,
    ensures
        chosen(result.push(best), prefix, f, b, n + 1),
{
    let now = result.push(best);
    assert forall|i: int, j: int| 0 <= i < j < now.len() implies text_lt(
        (#[trigger] now[i]).name,
        (#[trigger] now[j]).name,
    ) by {
        if j == result.len() {
            assert(now[i] == result[i]);
            let m = choose|m: int| 0 <= m < n && (#[trigger] b[m]).0 == result[i].name;
            assert(text_lt(b[m].0, b[n].0));
        } else {
            assert(now[i] == result[i] && now[j] == result[j]);
        }
    }
    assert forall|i: int| 0 <= i < now.len() implies prefix.is_prefix_of((#[trigger] now[i]).name)
        && exists|k: int| is_best(f(now[i].name), k) && now[i] == #[trigger] f(now[i].name)[k] by {
        if i < result.len() {
            assert(now[i] == result[i]);
        } else {
            assert(now[i] == f(now[i].name)[k]);
        }
    }
    assert forall|i: int| 0 <= i < now.len() implies exists|k: int|
        0 <= k < n + 1 && (#[trigger] b[k]).0 == (#[trigger] now[i]).name by {
        if i < result.len() {
            assert(now[i] == result[i]);
            let m = choose|m: int| 0 <= m < n && (#[trigger] b[m]).0 == result[i].name;
            assert(b[m].0 == now[i].name);
        } else {
            assert(b[n].0 == now[i].name);
        }
    }
    assert forall|m: int|
        0 <= m < n + 1 && prefix.is_prefix_of((#[trigger] b[m]).0) && f(b[m].0).len()
            > 0 implies names_symbol(now, b[m].0) by {
        if m < n {
            let i = choose|i: int| 0 <= i < result.len() && (#[trigger] result[i]).name == b[m].0;
            assert(now[i].name == b[m].0);
        } else {
            assert(now[now.len() - 1].name == b[m].0);
        }
    }
}

proof fn lemma_chosen_skip(
    result: Seq<SymbolView>,
    prefix: Seq<char>,
    f: spec_fn(Seq<char>) -> Seq<SymbolView>,
    b: Buckets,
    n: int,
)
    requires
        0 <= n < b.len(),
        chosen(result, prefix, f, b, n),
        f(b[n].0).len() == 0,
    ensures
        chosen(result, prefix, f, b, n + 1),
{
    assert forall|i: int| 0 <= i < result.len() implies exists|k: int|
        0 <= k < n + 1 && (#[trigger] b[k]).0 == (#[trigger] result[i]).name by {
        let m = choose|m: int| 0 <= m < n && (#[trigger] b[m]).0 == result[i].name;
        assert(b[m].0 == result[i].name);
    }
}

proof fn lemma_choice_is_named(
    b: Buckets,
    i: int,
    owner: Option<&str>,
    views: Seq<SymbolView>,
    k: int,
)
    requires
        well_sorted(b),
        0 <= i < b.len(),
        0 <= k < views.len(),
        views == match owner {
            Some(o) => symbols_of(b[i].1).filter(|s: SymbolView| owned_by(s, o@)),
            None => symbols_of(b[i].1),
        },
    ensures
        views[k].name == b[i].0,
{
    let all = symbols_of(b[i].1);
    assert forall|m: int| 0 <= m < all.len() implies (#[trigger] all[m]).name == b[i].0 by {
        assert(b[i].1[m].symbol.name == b[i].0);
    }
    if let Some(o) = owner {
        let pred = |s: SymbolView| owned_by(s, o@);
        all.lemma_filter_pred(pred, k);
        all.lemma_filter_contains_rev(pred, views[k]);
    }
}

proof fn lemma_choice_has_name(b: Buckets, owner: Option<&str>, n: Seq<char>, index: IndexView)
    requires
        index.names == by_key(b),
        choices(index, opt_str(owner))(n).len() > 0,
    ensures
        has_key(b, n),
{
    if !has_key(b, n) {
        assert(lookup_in(index, n) =~= Seq::empty());
        if let Some(o) = owner {
            lookup_in(index, n).lemma_filter_len(|s: SymbolView| owned_by(s, o@));
        }
    }
}

proof fn lemma_bucket_symbols(b: Bucket)
    ensures
        symbols_of(bucket_entries(b)) == symbol_views(b.symbols@),
{
    assert(symbols_of(bucket_entries(b)) =~= symbol_views(b.symbols@));
}

/// The candidates among one name's symbols: all, or those of an owner.
fn candidates_of<'a>(symbols: &'a Vec<SymbolInfo>, owner: Option<&str>) -> (r: Vec<&'a SymbolInfo>)
    ensures
        symbol_ref_views(r@) == match owner {
            Some(o) => symbol_views(symbols@).filter(|s: SymbolView| owned_by(s, o@)),
            None => symbol_views(symbols@),
        },
{
    let ghost views = symbol_views(symbols@);
    let ghost pred = |s: SymbolView| owner is Some ==> owned_by(s, owner->0@);
    let mut out: Vec<&'a SymbolInfo> = Vec::new();
    let mut i: usize = 0;
    proof {
        assert(views.take(0) =~= Seq::empty());
        lemma_filter_none(Seq::<SymbolView>::empty(), pred);
        assert(symbol_ref_views(out@) =~= Seq::empty());
    }
    while i < symbols.len()
        invariant
            i <= symbols.len(),
            views == symbol_views(symbols@),
            pred == (|s: SymbolView| owner is Some ==> owned_by(s, owner->0@)),
            symbol_ref_views(out@) == views.take(i as int).filter(pred),
        decreases symbols.len() - i,
    {
        let ghost before = out@;
        proof {
            assert(views.take(i + 1) =~= views.take(i as int).push(views[i as int]));
            views.take(i as int).lemma_filter_push(views[i as int], pred);
        }
        let take = match owner {
            Some(o) => is_owned_by(&symbols[i], o),
            None => true,
        };
        if take {
            out.push(&symbols[i]);
            assert(symbol_ref_views(out@) =~= symbol_ref_views(before).push(views[i as int]));
        }
        i += 1;
    }
    proof {
        assert(views.take(i as int) =~= views);
        match owner {
            Some(o) => {
                assert(pred =~= (|s: SymbolView| owned_by(s, o@)));
            },
            None => {
                lemma_filter_every(views, pred);
            },
        }
    }
    out
}

// ---------------------------------------------------------------------------
// Laws
// ---------------------------------------------------------------------------

/// Whether what a document gave to a name is, for every name, the document's
/// symbols of that name: the two sides of the index agree.
pub open spec fn consistent(index: IndexView) -> bool {
    forall|n: Seq<char>, u: Seq<char>|
        #![trigger entries_in(index, n), file_in(index, u)]
        entries_in(index, n).filter(|e: GivenSymbol| e.from == u) == given(
            u,
            file_in(index, u).filter(|s: SymbolView| s.name == n),
        )
}

proof fn lemma_filter_and<T>(
    s: Seq<T>,
    p: spec_fn(T) -> bool,
    q: spec_fn(T) -> bool,
    both: spec_fn(T) -> bool,
)
    requires
        forall|i: int| 0 <= i < s.len() ==> both(s[i]) == (p(s[i]) && q(s[i])),
    ensures
        s.filter(p).filter(q) == s.filter(both),
    decreases s.len(),
{
    reveal(Seq::filter);
    if s.len() > 0 {
        lemma_filter_and(s.drop_last(), p, q, both);
        assert(both(s[s.len() - 1]) == (p(s.last()) && q(s.last())));
        let kept = s.drop_last().filter(p);
        if p(s.last()) {
            kept.lemma_filter_push(s.last(), q);
        }
    } else {
        assert(s.filter(p).filter(q) =~= s.filter(both));
    }
}

proof fn lemma_filter_none<T>(s: Seq<T>, p: spec_fn(T) -> bool)
    requires
        forall|i: int| 0 <= i < s.len() ==> !p(#[trigger] s[i]),
    ensures
        s.filter(p) == Seq::<T>::empty(),
    decreases s.len(),
{
    reveal(Seq::filter);
    if s.len() > 0 {
        lemma_filter_none(s.drop_last(), p);
        assert(!p(s[s.len() - 1]));
    } else {
        assert(s.filter(p) =~= Seq::empty());
    }
}

proof fn lemma_filter_every<T>(s: Seq<T>, p: spec_fn(T) -> bool)
    requires
        forall|i: int| 0 <= i < s.len() ==> p(#[trigger] s[i]),
    ensures
        s.filter(p) == s,
    decreases s.len(),
{
    reveal(Seq::filter);
    if s.len() > 0 {
        lemma_filter_every(s.drop_last(), p);
        assert(p(s[s.len() - 1]));
        assert(s.drop_last().push(s.last()) =~= s);
    } else {
        assert(s.filter(p) =~= s);
    }
}

proof fn lemma_updated_bucket_of(
    index: IndexView,
    uri: Seq<char>,
    symbols: Seq<SymbolView>,
    n: Seq<char>,
    u: Seq<char>,
)
    ensures
        updated_bucket(index, uri, symbols, n).filter(|e: GivenSymbol| e.from == u) == if u == uri {
            given(uri, symbols.filter(|s: SymbolView| s.name == n))
        } else {
            entries_in(index, n).filter(|e: GivenSymbol| e.from == u)
        },
{
    let is_u = |e: GivenSymbol| e.from == u;
    let not_uri = |e: GivenSymbol| e.from != uri;
    let entries = entries_in(index, n);
    let left = not_from(entries, uri);
    let new = given(uri, symbols.filter(|s: SymbolView| s.name == n));
    Seq::filter_distributes_over_add(left, new, is_u);
    if u == uri {
        lemma_filter_every(new, is_u);
        lemma_filter_and(entries, not_uri, is_u, |e: GivenSymbol| false);
        lemma_filter_none(entries, |e: GivenSymbol| false);
        assert(Seq::<GivenSymbol>::empty() + new =~= new);
    } else {
        lemma_filter_none(new, is_u);
        lemma_filter_and(entries, not_uri, is_u, is_u);
        assert(entries.filter(is_u) + Seq::<GivenSymbol>::empty() =~= entries.filter(is_u));
    }
}

/// The empty index is consistent.
pub proof fn law_empty_index_is_consistent()
    ensures
        consistent(empty_index()),
{
    let index = empty_index();
    assert forall|n: Seq<char>, u: Seq<char>|
        #![trigger entries_in(index, n), file_in(index, u)]
        entries_in(index, n).filter(|e: GivenSymbol| e.from == u) == given(
            u,
            file_in(index, u).filter(|s: SymbolView| s.name == n),
        ) by {
        lemma_filter_none(entries_in(index, n), |e: GivenSymbol| e.from == u);
        lemma_filter_none(file_in(index, u), |s: SymbolView| s.name == n);
        assert(given(u, Seq::empty()) =~= Seq::empty());
    }
}

/// An update keeps the index consistent: a name holds of each document just
/// what the document was last indexed with.
pub proof fn law_update_keeps_the_index_consistent(
    index: IndexView,
    uri: Seq<char>,
    generation: u64,
    version: i32,
    symbols: Seq<SymbolView>,
)
    requires
        consistent(index),
    ensures
        consistent(after_update(index, uri, generation, version, symbols)),
{
    if !is_stale(index, uri, generation, version) {
        let now = updated(index, uri, generation, version, symbols);
        assert forall|n: Seq<char>, u: Seq<char>|
            #![trigger entries_in(now, n), file_in(now, u)]
            entries_in(now, n).filter(|e: GivenSymbol| e.from == u) == given(
                u,
                file_in(now, u).filter(|s: SymbolView| s.name == n),
            ) by {
            lemma_entries_updated(index, uri, generation, version, symbols, n);
            lemma_updated_bucket_of(index, uri, symbols, n, u);
            if u != uri {
                assert(file_in(now, u) == file_in(index, u));
                assert(entries_in(index, n).filter(|e: GivenSymbol| e.from == u) == given(
                    u,
                    file_in(index, u).filter(|s: SymbolView| s.name == n),
                ));
            }
        }
    }
}

/// An update replaces what its document gave, wherever that stands, and nothing
/// else: of every name there is left what other documents gave, and behind it
/// come the new symbols of that name.
pub proof fn law_an_update_replaces_what_its_document_gave(
    index: IndexView,
    uri: Seq<char>,
    generation: u64,
    version: i32,
    symbols: Seq<SymbolView>,
    n: Seq<char>,
    other: Seq<char>,
)
    requires
        !is_stale(index, uri, generation, version),
        other != uri,
    ensures
        ({
            let now = after_update(index, uri, generation, version, symbols);
            let new = symbols.filter(|s: SymbolView| s.name == n);
            &&& entries_in(now, n) == not_from(entries_in(index, n), uri) + given(uri, new)
            &&& lookup_in(now, n) == symbols_of(not_from(entries_in(index, n), uri)) + new
            &&& entries_in(now, n).filter(|e: GivenSymbol| e.from == uri) == given(uri, new)
            &&& entries_in(now, n).filter(|e: GivenSymbol| e.from == other) == entries_in(
                index,
                n,
            ).filter(|e: GivenSymbol| e.from == other)
        }),
{
    lemma_entries_updated(index, uri, generation, version, symbols, n);
    lemma_updated_bucket_of(index, uri, symbols, n, uri);
    lemma_updated_bucket_of(index, uri, symbols, n, other);
    lemma_symbols_of_given(
        not_from(entries_in(index, n), uri),
        uri,
        symbols.filter(|s: SymbolView| s.name == n),
    );
}

proof fn lemma_symbols_of_given(
    entries: Seq<GivenSymbol>,
    uri: Seq<char>,
    symbols: Seq<SymbolView>,
)
    ensures
        symbols_of(entries + given(uri, symbols)) == symbols_of(entries) + symbols,
{
    assert(symbols_of(entries + given(uri, symbols)) =~= symbols_of(entries) + symbols);
}

proof fn lemma_entries_updated(
    index: IndexView,
    uri: Seq<char>,
    generation: u64,
    version: i32,
    symbols: Seq<SymbolView>,
    n: Seq<char>,
)
    ensures
        entries_in(updated(index, uri, generation, version, symbols), n) == updated_bucket(
            index,
            uri,
            symbols,
            n,
        ),
{
    let bucket = updated_bucket(index, uri, symbols, n);
    if bucket.len() == 0 {
        assert(bucket =~= Seq::empty());
    }
}

/// A stale update changes nothing, and every other leaves what it was given.
pub proof fn law_the_newest_update_stays(
    index: IndexView,
    uri: Seq<char>,
    generation: u64,
    version: i32,
    symbols: Seq<SymbolView>,
    late_generation: u64,
    late_version: i32,
    late_symbols: Seq<SymbolView>,
)
    requires
        !is_stale(index, uri, generation, version),
        late_generation < generation || (late_generation == generation && late_version < version),
    ensures
        ({
            let now = after_update(index, uri, generation, version, symbols);
            &&& after_update(now, uri, late_generation, late_version, late_symbols) == now
            &&& file_in(now, uri) == symbols
        }),
{
}

/// Whichever of two updates of a document arrives first, the newer one stays:
/// the index ends up the same as if the older one had never come.
pub proof fn law_arrival_order_does_not_matter(
    index: IndexView,
    uri: Seq<char>,
    generation: u64,
    version: i32,
    symbols: Seq<SymbolView>,
    older_generation: u64,
    older_version: i32,
    older_symbols: Seq<SymbolView>,
)
    requires
        !is_stale(index, uri, generation, version),
        older_generation < generation || (older_generation == generation && older_version
            < version),
    ensures
        ({
            let newer = after_update(index, uri, generation, version, symbols);
            let older = after_update(index, uri, older_generation, older_version, older_symbols);
            &&& after_update(newer, uri, older_generation, older_version, older_symbols) == newer
            &&& after_update(older, uri, generation, version, symbols) == newer
        }),
{
    let newer = after_update(index, uri, generation, version, symbols);
    let older = after_update(index, uri, older_generation, older_version, older_symbols);
    if !is_stale(index, uri, older_generation, older_version) {
        let both = after_update(older, uri, generation, version, symbols);
        assert(!is_stale(older, uri, generation, version));
        assert forall|n: Seq<char>| updated_bucket(older, uri, symbols, n)
            == #[trigger] updated_bucket(index, uri, symbols, n) by {
            let not_uri = |e: GivenSymbol| e.from != uri;
            let entries = entries_in(index, n);
            let left = not_from(entries, uri);
            let new = given(uri, older_symbols.filter(|s: SymbolView| s.name == n));
            lemma_entries_updated(
                index,
                uri,
                older_generation,
                older_version,
                older_symbols,
                n,
            );
            lemma_filter_and(entries, not_uri, not_uri, not_uri);
            lemma_filter_none(new, not_uri);
            Seq::filter_distributes_over_add(left, new, not_uri);
            assert(left + Seq::<GivenSymbol>::empty() =~= left);
            assert(not_from(entries_in(older, n), uri) == left);
        }
        assert(both.names =~= newer.names);
        assert(both.files =~= newer.files);
        assert(both.applied =~= newer.applied);
    }
}

/// A completion is determined: two lists that complete the same prefix by the
/// same candidates are the same.
pub proof fn law_completions_are_determined(
    a: Seq<SymbolView>,
    b: Seq<SymbolView>,
    prefix: Seq<char>,
    candidates: spec_fn(Seq<char>) -> Seq<SymbolView>,
)
    requires
        completes(a, prefix, candidates),
        completes(b, prefix, candidates),
    ensures
        a == b,
{
    lemma_completion_names(a, b, prefix, candidates, a.len() as int);
    lemma_completion_names(b, a, prefix, candidates, b.len() as int);
    assert forall|i: int| 0 <= i < a.len() implies a[i] == b[i] by {
        let n = a[i].name;
        let j = choose|j: int| is_best(candidates(n), j) && a[i] == #[trigger] candidates(n)[j];
        let k = choose|k: int| is_best(candidates(n), k) && b[i] == #[trigger] candidates(n)[k];
        lemma_best_is_unique(candidates(n), j, k);
    }
    assert(a =~= b);
}

pub proof fn lemma_best_is_unique(s: Seq<SymbolView>, j: int, k: int)
    requires
        is_best(s, j),
        is_best(s, k),
    ensures
        j == k,
{
    if j < k {
        assert(more_relevant(s[k], s[j]));
    } else if k < j {
        assert(more_relevant(s[j], s[k]));
    }
}

proof fn lemma_completion_names(
    a: Seq<SymbolView>,
    b: Seq<SymbolView>,
    prefix: Seq<char>,
    candidates: spec_fn(Seq<char>) -> Seq<SymbolView>,
    n: int,
)
    requires
        completes(a, prefix, candidates),
        completes(b, prefix, candidates),
        0 <= n <= a.len(),
    ensures
        n <= b.len(),
        forall|i: int| 0 <= i < n ==> (#[trigger] a[i]).name == b[i].name,
    decreases n,
{
    if n > 0 {
        lemma_completion_names(a, b, prefix, candidates, n - 1);
        let x = a[n - 1].name;
        assert(candidates(x).len() > 0);
        assert(names_symbol(b, x));
        let j = choose|j: int| 0 <= j < b.len() && (#[trigger] b[j]).name == x;
        lemma_text_lt_total(x, x);
        if j < n - 1 {
            assert(a[j].name == b[j].name);
            assert(text_lt(a[j].name, a[n - 1].name));
        }
        if j > n - 1 {
            let y = b[n - 1].name;
            assert(text_lt(y, x));
            assert(candidates(y).len() > 0);
            assert(names_symbol(a, y));
            let k = choose|k: int| 0 <= k < a.len() && (#[trigger] a[k]).name == y;
            lemma_text_lt_total(x, y);
            if k < n - 1 {
                assert(a[k].name == b[k].name);
                assert(text_lt(b[k].name, b[n - 1].name));
                lemma_text_lt_total(y, y);
            } else if k > n - 1 {
                assert(text_lt(a[n - 1].name, a[k].name));
            }
        }
    }
}

/// A name that something declares is never offered as an import.
pub proof fn law_completion_prefers_a_declaration(
    result: Seq<SymbolView>,
    prefix: Seq<char>,
    candidates: spec_fn(Seq<char>) -> Seq<SymbolView>,
    i: int,
    j: int,
)
    requires
        completes(result, prefix, candidates),
        0 <= i < result.len(),
        0 <= j < candidates(result[i].name).len(),
        candidates(result[i].name)[j].kind != SymbolKind::Import,
    ensures
        result[i].kind != SymbolKind::Import,
{
    let n = result[i].name;
    let k = choose|k: int| is_best(candidates(n), k) && result[i] == #[trigger] candidates(n)[k];
    assert(!more_relevant(candidates(n)[j], candidates(n)[k]));
}

/// Behind an update an older one of the same document is stale, and no other:
/// by generation first, then by version. What is known of other documents stays,
/// and of an empty index nothing is stale.
pub proof fn law_only_an_older_update_is_stale(
    index: IndexView,
    uri: Seq<char>,
    generation: u64,
    version: i32,
    symbols: Seq<SymbolView>,
    late_generation: u64,
    late_version: i32,
    other: Seq<char>,
)
    requires
        !is_stale(index, uri, generation, version),
        other != uri,
    ensures
        ({
            let now = after_update(index, uri, generation, version, symbols);
            &&& is_stale(now, uri, late_generation, late_version) <==> late_generation < generation
                || (late_generation == generation && late_version < version)
            &&& is_stale(now, other, late_generation, late_version) == is_stale(
                index,
                other,
                late_generation,
                late_version,
            )
            &&& file_in(now, other) == file_in(index, other)
        }),
        !is_stale(empty_index(), uri, generation, version),
        lookup_in(empty_index(), uri).len() == 0,
{
}

} // verus!
