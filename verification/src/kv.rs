//! Association lists with string keys, and their mapping-level model.
//!
//! Several of the library's collections are vectors of key/value pairs whose
//! keys are pairwise distinct. This module gives such a pair sequence its
//! meaning as a `Map` from key views to (a function of) the values, and proves
//! the facts about that model that the collection operations need.

use vstd::prelude::*;

verus! {

/// The keys of the pair sequence are pairwise distinct.
pub open spec fn keys_distinct<V>(es: Seq<(String, V)>) -> bool {
    forall|p: int, q: int| 0 <= p < q < es.len() ==> es[p].0@ != es[q].0@
}

/// The mapping denoted by a pair sequence, with each value translated by `f`.
/// A later pair with the same key wins, as it does in a map built by repeated
/// insertion.
pub open spec fn kv_map<V, W>(es: Seq<(String, V)>, f: spec_fn(V) -> W) -> Map<Seq<char>, W>
    decreases es.len(),
{
    if es.len() == 0 {
        Map::empty()
    } else {
        kv_map(es.drop_last(), f).insert(es.last().0@, f(es.last().1))
    }
}

/// A key is in the mapping exactly when some pair carries it.
pub proof fn lemma_kv_map_dom<V, W>(es: Seq<(String, V)>, f: spec_fn(V) -> W)
    ensures
        forall|k: Seq<char>|
            kv_map(es, f).contains_key(k) <==> exists|i: int| 0 <= i < es.len() && es[i].0@ == k,
    decreases es.len(),
{
    if es.len() > 0 {
        lemma_kv_map_dom(es.drop_last(), f);
        assert forall|k: Seq<char>| kv_map(es, f).contains_key(k) implies exists|i: int|
            0 <= i < es.len() && es[i].0@ == k by {
            if es.last().0@ == k {
                assert(es[es.len() - 1].0@ == k);
            } else {
                assert(kv_map(es.drop_last(), f).contains_key(k));
                let i = choose|i: int|
                    0 <= i < es.drop_last().len() && es.drop_last()[i].0@ == k;
                assert(es.drop_last()[i] == es[i]);
                assert(es[i].0@ == k);
            }
        }
        assert forall|k: Seq<char>|
            (exists|i: int| 0 <= i < es.len() && es[i].0@ == k) implies kv_map(
            es,
            f,
        ).contains_key(k) by {
            let i = choose|i: int| 0 <= i < es.len() && es[i].0@ == k;
            if i < es.len() - 1 {
                assert(es.drop_last()[i].0@ == k);
                assert(kv_map(es.drop_last(), f).contains_key(k));
            } else {
                assert(es.last().0@ == k);
            }
        }
    }
}

/// With distinct keys, the pair at position `i` gives the mapping's value at
/// its key.
pub proof fn lemma_kv_map_index<V, W>(es: Seq<(String, V)>, f: spec_fn(V) -> W, i: int)
    requires
        keys_distinct(es),
        0 <= i < es.len(),
    ensures
        kv_map(es, f).contains_key(es[i].0@),
        kv_map(es, f)[es[i].0@] == f(es[i].1),
    decreases es.len(),
{
    if i == es.len() - 1 {
    } else {
        assert(keys_distinct(es.drop_last())) by {
            assert(forall|p: int, q: int|
                0 <= p < q < es.len() - 1 ==> es.drop_last()[p].0@ != es.drop_last()[q].0@);
        }
        lemma_kv_map_index(es.drop_last(), f, i);
        assert(es.drop_last()[i] == es[i]);
        assert(es[i].0@ != es.last().0@);
    }
}

/// Dropping the last pair keeps the keys distinct.
pub proof fn lemma_keys_distinct_drop_last<V>(es: Seq<(String, V)>)
    requires
        keys_distinct(es),
        es.len() > 0,
    ensures
        keys_distinct(es.drop_last()),
{
    assert(forall|p: int, q: int|
        0 <= p < q < es.len() - 1 ==> es.drop_last()[p].0@ != es.drop_last()[q].0@);
}

/// With distinct keys, removing the pair at position `i` removes exactly its
/// key from the mapping.
pub proof fn lemma_kv_map_remove<V, W>(es: Seq<(String, V)>, f: spec_fn(V) -> W, i: int)
    requires
        keys_distinct(es),
        0 <= i < es.len(),
    ensures
        kv_map(es.remove(i), f) == kv_map(es, f).remove(es[i].0@),
    decreases es.len(),
{
    if i == es.len() - 1 {
        assert(es.remove(i) =~= es.drop_last());
        lemma_kv_map_dom(es.drop_last(), f);
        assert(!kv_map(es.drop_last(), f).contains_key(es[i].0@));
        assert(kv_map(es.drop_last(), f) =~= kv_map(es, f).remove(es[i].0@));
    } else {
        lemma_keys_distinct_drop_last(es);
        lemma_kv_map_remove(es.drop_last(), f, i);
        assert(es.remove(i).drop_last() =~= es.drop_last().remove(i));
        assert(es.remove(i).last() == es.last());
        assert(kv_map(es.remove(i), f) == kv_map(es.drop_last().remove(i), f).insert(
            es.last().0@,
            f(es.last().1),
        ));
        assert(es[i].0@ != es.last().0@);
        assert(kv_map(es.drop_last(), f).remove(es[i].0@).insert(es.last().0@, f(es.last().1))
            =~= kv_map(es.drop_last(), f).insert(es.last().0@, f(es.last().1)).remove(es[i].0@));
    }
}

/// With distinct keys, a mapping's value is witnessed by exactly one pair, so
/// a key that no pair carries is outside the mapping.
pub proof fn lemma_kv_map_absent<V, W>(es: Seq<(String, V)>, f: spec_fn(V) -> W, k: Seq<char>)
    requires
        forall|i: int| 0 <= i < es.len() ==> es[i].0@ != k,
    ensures
        !kv_map(es, f).contains_key(k),
{
    lemma_kv_map_dom(es, f);
}

} // verus!
