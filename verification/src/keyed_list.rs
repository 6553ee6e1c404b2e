//! Lists of keys with their values, and the maps that they stand for.

use vstd::prelude::*;

verus! {

/// Whether no key occurs twice.
pub open spec fn distinct<V>(d: Seq<(Seq<char>, V)>) -> bool {
    forall|i: int, j: int| 0 <= i < j < d.len() ==> (#[trigger] d[i]).0 != (#[trigger] d[j]).0
}

pub open spec fn has_key<V>(d: Seq<(Seq<char>, V)>, key: Seq<char>) -> bool {
    exists|i: int| 0 <= i < d.len() && (#[trigger] d[i]).0 == key
}

/// Where a key stands in a list that has it.
pub open spec fn place<V>(d: Seq<(Seq<char>, V)>, key: Seq<char>) -> int {
    choose|i: int| 0 <= i < d.len() && (#[trigger] d[i]).0 == key
}

/// The map from each key to its value.
pub open spec fn by_key<V>(d: Seq<(Seq<char>, V)>) -> Map<Seq<char>, V> {
    Map::new(|k: Seq<char>| has_key(d, k), |k: Seq<char>| d[place(d, k)].1)
}

pub proof fn lemma_place<V>(d: Seq<(Seq<char>, V)>, i: int)
    requires
        distinct(d),
        0 <= i < d.len(),
    ensures
        has_key(d, d[i].0),
        place(d, d[i].0) == i,
        by_key(d).contains_key(d[i].0),
        by_key(d)[d[i].0] == d[i].1,
{
    let p = place(d, d[i].0);
    assert(d[p].0 == d[i].0);
}

/// An entry more, wherever it is put in, is a key more.
pub proof fn lemma_insert<V>(d: Seq<(Seq<char>, V)>, at: int, key: Seq<char>, value: V)
    requires
        distinct(d),
        !has_key(d, key),
        0 <= at <= d.len(),
    ensures
        distinct(d.insert(at, (key, value))),
        by_key(d.insert(at, (key, value))) == by_key(d).insert(key, value),
{
    let e = d.insert(at, (key, value));
    assert forall|i: int, j: int| 0 <= i < j < e.len() implies (#[trigger] e[i]).0
        != (#[trigger] e[j]).0 by {
        if i != at {
            let x = if i < at { i } else { i - 1 };
            assert(d[x] == e[i]);
        }
        if j != at {
            let y = if j < at { j } else { j - 1 };
            assert(d[y] == e[j]);
        }
    }
    let left = by_key(e);
    let right = by_key(d).insert(key, value);
    assert forall|k: Seq<char>|
        #![trigger left.dom().contains(k)]
        #![trigger right.dom().contains(k)]
        #![trigger left[k]]
        left.dom().contains(k) == right.dom().contains(k) && (left.dom().contains(k) ==> left[k]
            == right[k]) by {
        lemma_place(e, at);
        if has_key(e, k) {
            let i = place(e, k);
            if i != at {
                let x = if i < at { i } else { i - 1 };
                assert(d[x] == e[i]);
                lemma_place(d, x);
            }
        }
        if has_key(d, k) {
            let x = place(d, k);
            let i = if x < at { x } else { x + 1 };
            assert(d[x] == e[i]);
            lemma_place(d, x);
            lemma_place(e, i);
        }
    }
    assert(left =~= right);
}

/// Another value in a key's entry is another value of the key.
pub proof fn lemma_set<V>(d: Seq<(Seq<char>, V)>, at: int, value: V)
    requires
        distinct(d),
        0 <= at < d.len(),
    ensures
        distinct(d.update(at, (d[at].0, value))),
        by_key(d.update(at, (d[at].0, value))) == by_key(d).insert(d[at].0, value),
{
    let e = d.update(at, (d[at].0, value));
    assert forall|i: int, j: int| 0 <= i < j < e.len() implies (#[trigger] e[i]).0
        != (#[trigger] e[j]).0 by {
        assert(d[i].0 == e[i].0 && d[j].0 == e[j].0);
    }
    let left = by_key(e);
    let right = by_key(d).insert(d[at].0, value);
    assert forall|k: Seq<char>|
        #![trigger left.dom().contains(k)]
        #![trigger right.dom().contains(k)]
        #![trigger left[k]]
        left.dom().contains(k) == right.dom().contains(k) && (left.dom().contains(k) ==> left[k]
            == right[k]) by {
        lemma_place(e, at);
        if has_key(e, k) {
            let i = place(e, k);
            assert(d[i].0 == e[i].0);
            lemma_place(d, i);
            lemma_place(e, i);
        }
        if has_key(d, k) {
            let i = place(d, k);
            assert(d[i].0 == e[i].0);
            lemma_place(d, i);
            lemma_place(e, i);
        }
    }
    assert(left =~= right);
}

/// An entry less is a key less.
pub proof fn lemma_remove<V>(d: Seq<(Seq<char>, V)>, at: int)
    requires
        distinct(d),
        0 <= at < d.len(),
    ensures
        distinct(d.remove(at)),
        by_key(d.remove(at)) == by_key(d).remove(d[at].0),
{
    let e = d.remove(at);
    assert forall|i: int, j: int| 0 <= i < j < e.len() implies (#[trigger] e[i]).0
        != (#[trigger] e[j]).0 by {
        let x = if i < at { i } else { i + 1 };
        let y = if j < at { j } else { j + 1 };
        assert(d[x] == e[i] && d[y] == e[j]);
    }
    let left = by_key(e);
    let right = by_key(d).remove(d[at].0);
    assert forall|k: Seq<char>|
        #![trigger left.dom().contains(k)]
        #![trigger right.dom().contains(k)]
        #![trigger left[k]]
        left.dom().contains(k) == right.dom().contains(k) && (left.dom().contains(k) ==> left[k]
            == right[k]) by {
        lemma_place(d, at);
        if has_key(e, k) {
            let i = place(e, k);
            let x = if i < at { i } else { i + 1 };
            assert(d[x] == e[i]);
            lemma_place(d, x);
            lemma_place(e, i);
        }
        if has_key(d, k) && k != d[at].0 {
            let x = place(d, k);
            let i = if x < at { x } else { x - 1 };
            assert(d[x] == e[i]);
            lemma_place(d, x);
            lemma_place(e, i);
        }
    }
    assert(left =~= right);
}

} // verus!
