//! Tag mappings: string tag keys to string tag values.

use crate::kv::keys_distinct;
use crate::kv::kv_map;
use crate::kv::lemma_keys_distinct_drop_last;
use crate::kv::lemma_kv_map_absent;
use crate::kv::lemma_kv_map_index;
use crate::kv::lemma_kv_map_remove;
use vstd::prelude::*;

verus! {

/// A mapping from tag keys to tag values, backed by a vector of key/value
/// pairs with pairwise-distinct keys. It stands in for a hash map keyed by
/// strings, so that lookup and iteration over the entries both have exact
/// contracts.
#[derive(Clone)]
pub struct TagMap {
    pairs: Vec<(String, String)>,
}

impl View for TagMap {
    type V = Map<Seq<char>, Seq<char>>;

    open spec fn view(&self) -> Map<Seq<char>, Seq<char>> {
        kv_map(self.entries(), |v: String| v@)
    }
}

impl TagMap {
    /// The stored key/value pairs, in insertion order.
    pub closed spec fn entries(&self) -> Seq<(String, String)> {
        self.pairs@
    }

    /// The stored keys are pairwise distinct.
    pub open spec fn wf(&self) -> bool {
        keys_distinct(self.entries())
    }

    /// An empty tag mapping.
    pub fn new() -> (r: TagMap)
        ensures
            r.wf(),
            r@ == Map::<Seq<char>, Seq<char>>::empty(),
            r.entries().len() == 0,
    {
        TagMap { pairs: Vec::new() }
    }

    /// The number of stored pairs.
    pub fn num_entries(&self) -> (n: usize)
        ensures
            n == self.entries().len(),
    {
        self.pairs.len()
    }

    /// The pair at a position.
    pub fn entry(&self, i: usize) -> (e: &(String, String))
        requires
            i < self.entries().len(),
        ensures
            *e == self.entries()[i as int],
    {
        &self.pairs[i]
    }

    /// Inserts a value under a key, replacing any value the key had.
    pub fn insert(&mut self, k: String, v: String)
        requires
            old(self).wf(),
        ensures
            final(self).wf(),
            final(self)@ == old(self)@.insert(k@, v@),
    {
        let mut i: usize = 0;
        while i < self.pairs.len()
            invariant
                self == old(self),
                old(self).wf(),
                i <= self.pairs@.len(),
                forall|j: int| 0 <= j < i ==> self.pairs@[j].0@ != k@,
            decreases self.pairs@.len() - i,
        {
            if self.pairs[i].0 == k {
                let ghost before = self.pairs@;
                proof {
                    lemma_kv_map_remove(before, |v0: String| v0@, i as int);
                    before.remove_ensures(i as int);
                }
                self.pairs.remove(i);
                proof {
                    assert forall|j: int|
                        0 <= j < self.pairs@.len() implies self.pairs@[j].0@ != k@ by {
                        if j < i {
                            assert(self.pairs@[j] == before[j]);
                        } else {
                            assert(self.pairs@[j] == before[j + 1]);
                        }
                    }
                    assert(keys_distinct(self.pairs@)) by {
                        assert forall|p: int, q: int|
                            0 <= p < q < self.pairs@.len() implies self.pairs@[p].0@
                            != self.pairs@[q].0@ by {
                            let p0: int = if p < i { p } else { p + 1 };
                            let q0: int = if q < i { q } else { q + 1 };
                            assert(self.pairs@[p] == before[p0]);
                            assert(self.pairs@[q] == before[q0]);
                        }
                    }
                    lemma_kv_map_absent(self.pairs@, |v0: String| v0@, k@);
                }
                let ghost shortened = self.pairs@;
                self.pairs.push((k, v));
                proof {
                    assert(self.pairs@.drop_last() =~= shortened);
                    assert(self.wf());
                    assert(self@ =~= old(self)@.insert(k@, v@));
                }
                return ;
            }
            i += 1;
        }
        let ghost before = self.pairs@;
        proof {
            lemma_kv_map_absent(before, |v0: String| v0@, k@);
        }
        self.pairs.push((k, v));
        proof {
            assert(self.pairs@.drop_last() =~= before);
            assert(self@ =~= old(self)@.insert(k@, v@));
        }
    }

    /// Looks a key up.
    pub fn get<'a>(&'a self, k: &String) -> (r: Option<&'a String>)
        requires
            self.wf(),
        ensures
            match r {
                Some(v) => self@.contains_key(k@) && self@[k@] == v@,
                None => !self@.contains_key(k@),
            },
    {
        let mut i: usize = 0;
        while i < self.pairs.len()
            invariant
                self.wf(),
                i <= self.pairs@.len(),
                forall|j: int| 0 <= j < i ==> self.pairs@[j].0@ != k@,
            decreases self.pairs@.len() - i,
        {
            if self.pairs[i].0 == *k {
                proof {
                    lemma_kv_map_index(self.pairs@, |v0: String| v0@, i as int);
                }
                return Some(&self.pairs[i].1);
            }
            i += 1;
        }
        proof {
            lemma_kv_map_absent(self.pairs@, |v0: String| v0@, k@);
        }
        None
    }
}

/// The mapping with `v` counted once more, counted from zero if unseen.
pub open spec fn bump(m: Map<Seq<char>, i64>, v: Seq<char>) -> Map<Seq<char>, i64> {
    m.insert(
        v,
        if m.contains_key(v) {
            (m[v] + 1) as i64
        } else {
            1i64
        },
    )
}

/// The value/count pairs whose count reaches the threshold.
pub open spec fn filter_counts(m: Map<Seq<char>, i64>, t: i64) -> Map<Seq<char>, i64> {
    Map::new(|v: Seq<char>| m.contains_key(v) && m[v] >= t, |v: Seq<char>| m[v])
}

/// Occurrence counts of the values seen under one tag key, backed by a
/// vector of value/count pairs with pairwise-distinct values.
pub struct ValueCounts {
    pairs: Vec<(String, i64)>,
}

impl View for ValueCounts {
    type V = Map<Seq<char>, i64>;

    open spec fn view(&self) -> Map<Seq<char>, i64> {
        kv_map(self.entries(), |c: i64| c)
    }
}

impl ValueCounts {
    /// The stored value/count pairs, in insertion order.
    pub closed spec fn entries(&self) -> Seq<(String, i64)> {
        self.pairs@
    }

    /// The stored values are pairwise distinct.
    pub open spec fn wf(&self) -> bool {
        keys_distinct(self.entries())
    }

    /// Each entry's value and count belong to the mapping.
    pub proof fn lemma_entry_in_view(&self, i: int)
        requires
            self.wf(),
            0 <= i < self.entries().len(),
        ensures
            self@.contains_key(self.entries()[i].0@),
            self@[self.entries()[i].0@] == self.entries()[i].1,
    {
        lemma_kv_map_index(self.pairs@, |c: i64| c, i);
    }

    /// An empty count mapping.
    pub fn new() -> (r: ValueCounts)
        ensures
            r.wf(),
            r@ == Map::<Seq<char>, i64>::empty(),
            r.entries().len() == 0,
    {
        ValueCounts { pairs: Vec::new() }
    }

    /// The number of stored pairs.
    pub fn num_entries(&self) -> (n: usize)
        ensures
            n == self.entries().len(),
    {
        self.pairs.len()
    }

    /// The pair at a position.
    pub fn entry(&self, i: usize) -> (e: &(String, i64))
        requires
            i < self.entries().len(),
        ensures
            *e == self.entries()[i as int],
    {
        &self.pairs[i]
    }

    /// Looks a value's count up.
    pub fn get(&self, v: &String) -> (r: Option<i64>)
        requires
            self.wf(),
        ensures
            match r {
                Some(c) => self@.contains_key(v@) && self@[v@] == c,
                None => !self@.contains_key(v@),
            },
    {
        let mut i: usize = 0;
        while i < self.pairs.len()
            invariant
                self.wf(),
                i <= self.pairs@.len(),
                forall|j: int| 0 <= j < i ==> self.pairs@[j].0@ != v@,
            decreases self.pairs@.len() - i,
        {
            if self.pairs[i].0 == *v {
                proof {
                    lemma_kv_map_index(self.pairs@, |c: i64| c, i as int);
                }
                return Some(self.pairs[i].1);
            }
            i += 1;
        }
        proof {
            lemma_kv_map_absent(self.pairs@, |c: i64| c, v@);
        }
        None
    }

    /// Counts a value once more, counting it from zero if unseen.
    pub fn increment(&mut self, v: String)
        requires
            old(self).wf(),
            old(self)@.contains_key(v@) ==> old(self)@[v@] < i64::MAX,
        ensures
            final(self).wf(),
            final(self)@ == bump(old(self)@, v@),
    {
        let mut i: usize = 0;
        while i < self.pairs.len()
            invariant
                self == old(self),
                old(self).wf(),
                old(self)@.contains_key(v@) ==> old(self)@[v@] < i64::MAX,
                i <= self.pairs@.len(),
                forall|j: int| 0 <= j < i ==> self.pairs@[j].0@ != v@,
            decreases self.pairs@.len() - i,
        {
            if self.pairs[i].0 == v {
                let ghost before = self.pairs@;
                proof {
                    lemma_kv_map_index(before, |c: i64| c, i as int);
                    lemma_kv_map_remove(before, |c: i64| c, i as int);
                    before.remove_ensures(i as int);
                }
                let c = self.pairs[i].1;
                self.pairs.remove(i);
                proof {
                    assert forall|j: int|
                        0 <= j < self.pairs@.len() implies self.pairs@[j].0@ != v@ by {
                        if j < i {
                            assert(self.pairs@[j] == before[j]);
                        } else {
                            assert(self.pairs@[j] == before[j + 1]);
                        }
                    }
                    assert(keys_distinct(self.pairs@)) by {
                        assert forall|p: int, q: int|
                            0 <= p < q < self.pairs@.len() implies self.pairs@[p].0@
                            != self.pairs@[q].0@ by {
                            let p0: int = if p < i { p } else { p + 1 };
                            let q0: int = if q < i { q } else { q + 1 };
                            assert(self.pairs@[p] == before[p0]);
                            assert(self.pairs@[q] == before[q0]);
                        }
                    }
                    lemma_kv_map_absent(self.pairs@, |c0: i64| c0, v@);
                }
                let ghost shortened = self.pairs@;
                self.pairs.push((v, c + 1));
                proof {
                    assert(self.pairs@.drop_last() =~= shortened);
                    assert(self.wf());
                    assert(self@ =~= bump(old(self)@, v@));
                }
                return ;
            }
            i += 1;
        }
        let ghost before = self.pairs@;
        proof {
            lemma_kv_map_absent(before, |c: i64| c, v@);
        }
        self.pairs.push((v, 1));
        proof {
            assert(self.pairs@.drop_last() =~= before);
            assert(self@ =~= bump(old(self)@, v@));
        }
    }

    /// The value/count pairs whose count reaches the threshold.
    pub fn filtered(&self, t: i64) -> (r: ValueCounts)
        requires
            self.wf(),
        ensures
            r.wf(),
            r@ == filter_counts(self@, t),
    {
        let ghost es = self.pairs@;
        let ghost fc = |c: i64| c;
        let mut r = ValueCounts { pairs: Vec::new() };
        let mut j: usize = 0;
        proof {
            assert(es.take(0) =~= Seq::<(String, i64)>::empty());
            assert(r@ =~= filter_counts(kv_map(es.take(0), fc), t));
        }
        while j < self.pairs.len()
            invariant
                self.wf(),
                es == self.pairs@,
                fc == (|c: i64| c),
                j <= es.len(),
                r.wf(),
                r@ == filter_counts(kv_map(es.take(j as int), fc), t),
            decreases es.len() - j,
        {
            let ghost m_j = kv_map(es.take(j as int), fc);
            proof {
                assert(es.take(j as int + 1).drop_last() =~= es.take(j as int));
                assert(es.take(j as int + 1).last() == es[j as int]);
                assert forall|p: int| 0 <= p < j implies es.take(j as int)[p].0@ != es[
                    j as int
                ].0@ by {
                    assert(es.take(j as int)[p] == es[p]);
                }
                lemma_kv_map_absent(es.take(j as int), fc, es[j as int].0@);
            }
            let c = self.pairs[j].1;
            if c >= t {
                let key = self.pairs[j].0.clone();
                proof {
                    assert forall|p: int|
                        0 <= p < r.entries().len() implies r.entries()[p].0@ != es[
                        j as int
                    ].0@ by {
                        r.lemma_entry_in_view(p);
                    }
                }
                let ghost r_before = r.pairs@;
                r.pairs.push((key, c));
                proof {
                    assert(r.pairs@.drop_last() =~= r_before);
                    assert(r.wf());
                    assert(r@ =~= filter_counts(kv_map(es.take(j as int + 1), fc), t));
                }
            } else {
                proof {
                    assert(r@ =~= filter_counts(kv_map(es.take(j as int + 1), fc), t));
                }
            }
            j += 1;
        }
        proof {
            assert(es.take(es.len() as int) =~= es);
        }
        r
    }
}

/// A table's counts for one key: its value counts if the key occurs, and no
/// counts otherwise.
pub open spec fn inner_of(
    tbl: Map<Seq<char>, Map<Seq<char>, i64>>,
    k: Seq<char>,
) -> Map<Seq<char>, i64> {
    if tbl.contains_key(k) {
        tbl[k]
    } else {
        Map::empty()
    }
}

/// Retains the key/value pairs whose count reaches the threshold; keys left
/// with no surviving value are removed entirely.
pub open spec fn filter_table(tbl: Map<Seq<char>, Map<Seq<char>, i64>>, t: i64) -> Map<
    Seq<char>,
    Map<Seq<char>, i64>,
> {
    Map::new(
        |k: Seq<char>|
            tbl.contains_key(k) && exists|v: Seq<char>|
                #[trigger] tbl[k].contains_key(v) && tbl[k][v] >= t,
        |k: Seq<char>| filter_counts(tbl[k], t),
    )
}

/// Filtering distributes over adding a fresh key: the new key's counts are
/// filtered on their own, and the key survives exactly when some value
/// reaches the threshold.
pub proof fn lemma_filter_table_insert_fresh(
    tbl: Map<Seq<char>, Map<Seq<char>, i64>>,
    k: Seq<char>,
    inner: Map<Seq<char>, i64>,
    t: i64,
)
    requires
        !tbl.contains_key(k),
    ensures
        filter_table(tbl.insert(k, inner), t) == (if exists|v: Seq<char>|
            #[trigger] inner.contains_key(v) && inner[v] >= t {
            filter_table(tbl, t).insert(k, filter_counts(inner, t))
        } else {
            filter_table(tbl, t)
        }),
{
    let tbl2 = tbl.insert(k, inner);
    assert forall|k2: Seq<char>| tbl.contains_key(k2) && k2 != k implies ((exists|v: Seq<char>|
        #[trigger] tbl2[k2].contains_key(v) && tbl2[k2][v] >= t) <==> (exists|v: Seq<char>|
        #[trigger] tbl[k2].contains_key(v) && tbl[k2][v] >= t)) by {
        assert(tbl2[k2] == tbl[k2]);
        if exists|v: Seq<char>| #[trigger] tbl2[k2].contains_key(v) && tbl2[k2][v] >= t {
            let v0 = choose|v: Seq<char>| #[trigger] tbl2[k2].contains_key(v) && tbl2[k2][v] >= t;
            assert(tbl[k2].contains_key(v0) && tbl[k2][v0] >= t);
        }
        if exists|v: Seq<char>| #[trigger] tbl[k2].contains_key(v) && tbl[k2][v] >= t {
            let v0 = choose|v: Seq<char>| #[trigger] tbl[k2].contains_key(v) && tbl[k2][v] >= t;
            assert(tbl2[k2].contains_key(v0) && tbl2[k2][v0] >= t);
        }
    }
    assert(tbl2[k] == inner);
    if exists|v: Seq<char>| #[trigger] inner.contains_key(v) && inner[v] >= t {
        let w = choose|v: Seq<char>| #[trigger] inner.contains_key(v) && inner[v] >= t;
        assert(tbl2[k].contains_key(w) && tbl2[k][w] >= t);
        assert(filter_table(tbl2, t) =~= filter_table(tbl, t).insert(k, filter_counts(inner, t)));
    } else {
        assert forall|v: Seq<char>| !(#[trigger] tbl2[k].contains_key(v) && tbl2[k][v] >= t) by {
            if tbl2[k].contains_key(v) && tbl2[k][v] >= t {
                assert(inner.contains_key(v) && inner[v] >= t);
            }
        }
        assert(filter_table(tbl2, t) =~= filter_table(tbl, t));
    }
}

/// A frequency table of tag keys to the counts of the values seen under
/// them, backed by a vector of rows with pairwise-distinct keys.
pub struct TagTable {
    rows: Vec<(String, ValueCounts)>,
}

impl View for TagTable {
    type V = Map<Seq<char>, Map<Seq<char>, i64>>;

    open spec fn view(&self) -> Map<Seq<char>, Map<Seq<char>, i64>> {
        kv_map(self.entries(), |vc: ValueCounts| vc@)
    }
}

impl TagTable {
    /// The stored rows, in insertion order.
    pub closed spec fn entries(&self) -> Seq<(String, ValueCounts)> {
        self.rows@
    }

    /// The stored keys are pairwise distinct, and each row's counts are well
    /// formed.
    pub open spec fn wf(&self) -> bool {
        &&& keys_distinct(self.entries())
        &&& forall|i: int| 0 <= i < self.entries().len() ==> (#[trigger] self.entries()[i]).1.wf()
    }

    /// Each row's key and counts belong to the table.
    pub proof fn lemma_entry_in_view(&self, i: int)
        requires
            self.wf(),
            0 <= i < self.entries().len(),
        ensures
            self@.contains_key(self.entries()[i].0@),
            self@[self.entries()[i].0@] == self.entries()[i].1@,
    {
        lemma_kv_map_index(self.rows@, |vc: ValueCounts| vc@, i);
    }

    /// An empty table.
    pub fn new() -> (r: TagTable)
        ensures
            r.wf(),
            r@ == Map::<Seq<char>, Map<Seq<char>, i64>>::empty(),
            r.entries().len() == 0,
    {
        TagTable { rows: Vec::new() }
    }

    /// The number of stored rows.
    pub fn num_entries(&self) -> (n: usize)
        ensures
            n == self.entries().len(),
    {
        self.rows.len()
    }

    /// The row at a position.
    pub fn entry(&self, i: usize) -> (e: &(String, ValueCounts))
        requires
            i < self.entries().len(),
        ensures
            *e == self.entries()[i as int],
    {
        &self.rows[i]
    }

    /// Looks a key's value counts up.
    pub fn get<'a>(&'a self, k: &String) -> (r: Option<&'a ValueCounts>)
        requires
            self.wf(),
        ensures
            match r {
                Some(vc) => self@.contains_key(k@) && self@[k@] == vc@ && vc.wf(),
                None => !self@.contains_key(k@),
            },
    {
        let mut i: usize = 0;
        while i < self.rows.len()
            invariant
                self.wf(),
                i <= self.rows@.len(),
                forall|j: int| 0 <= j < i ==> self.rows@[j].0@ != k@,
            decreases self.rows@.len() - i,
        {
            if self.rows[i].0 == *k {
                proof {
                    lemma_kv_map_index(self.rows@, |vc: ValueCounts| vc@, i as int);
                }
                return Some(&self.rows[i].1);
            }
            i += 1;
        }
        proof {
            lemma_kv_map_absent(self.rows@, |vc: ValueCounts| vc@, k@);
        }
        None
    }

    /// Counts the pair of a key and a value once more.
    fn increment(&mut self, k: String, v: String)
        requires
            old(self).wf(),
            inner_of(old(self)@, k@).contains_key(v@) ==> inner_of(old(self)@, k@)[v@]
                < i64::MAX,
        ensures
            final(self).wf(),
            final(self)@ == old(self)@.insert(k@, bump(inner_of(old(self)@, k@), v@)),
    {
        let mut i: usize = 0;
        while i < self.rows.len()
            invariant
                self == old(self),
                old(self).wf(),
                inner_of(old(self)@, k@).contains_key(v@) ==> inner_of(old(self)@, k@)[v@]
                    < i64::MAX,
                i <= self.rows@.len(),
                forall|j: int| 0 <= j < i ==> self.rows@[j].0@ != k@,
            decreases self.rows@.len() - i,
        {
            if self.rows[i].0 == k {
                let ghost before = self.rows@;
                proof {
                    lemma_kv_map_index(before, |vc: ValueCounts| vc@, i as int);
                    lemma_kv_map_remove(before, |vc: ValueCounts| vc@, i as int);
                    before.remove_ensures(i as int);
                }
                let (k0, mut vc) = self.rows.remove(i);
                proof {
                    assert(vc@ == inner_of(old(self)@, k@));
                    assert forall|j: int|
                        0 <= j < self.rows@.len() implies self.rows@[j].0@ != k@ by {
                        if j < i {
                            assert(self.rows@[j] == before[j]);
                        } else {
                            assert(self.rows@[j] == before[j + 1]);
                        }
                    }
                    assert(keys_distinct(self.rows@)) by {
                        assert forall|p: int, q: int|
                            0 <= p < q < self.rows@.len() implies self.rows@[p].0@
                            != self.rows@[q].0@ by {
                            let p0: int = if p < i { p } else { p + 1 };
                            let q0: int = if q < i { q } else { q + 1 };
                            assert(self.rows@[p] == before[p0]);
                            assert(self.rows@[q] == before[q0]);
                        }
                    }
                    assert forall|j: int|
                        0 <= j < self.rows@.len() implies (#[trigger] self.rows@[j]).1.wf() by {
                        if j < i {
                            assert(self.rows@[j] == before[j]);
                        } else {
                            assert(self.rows@[j] == before[j + 1]);
                        }
                    }
                    lemma_kv_map_absent(self.rows@, |vc0: ValueCounts| vc0@, k@);
                }
                vc.increment(v);
                let ghost shortened = self.rows@;
                self.rows.push((k0, vc));
                proof {
                    assert(self.rows@.drop_last() =~= shortened);
                    assert(self.wf());
                    assert(self@ =~= old(self)@.insert(k@, bump(inner_of(old(self)@, k@), v@)));
                }
                return ;
            }
            i += 1;
        }
        let ghost before = self.rows@;
        proof {
            lemma_kv_map_absent(before, |vc: ValueCounts| vc@, k@);
            assert(inner_of(old(self)@, k@) =~= Map::<Seq<char>, i64>::empty());
        }
        let mut vc = ValueCounts::new();
        vc.increment(v);
        self.rows.push((k, vc));
        proof {
            assert(self.rows@.drop_last() =~= before);
            assert(self.wf());
            assert(self@ =~= old(self)@.insert(k@, bump(inner_of(old(self)@, k@), v@)));
        }
    }

    /// The table's rows with each row's counts filtered to the threshold,
    /// dropping rows left with no values.
    pub fn pruned(&self, t: i64) -> (r: TagTable)
        requires
            self.wf(),
        ensures
            r.wf(),
            r@ == filter_table(self@, t),
    {
        let ghost es = self.rows@;
        let ghost g = |vc: ValueCounts| vc@;
        let mut r = TagTable { rows: Vec::new() };
        let mut j: usize = 0;
        proof {
            assert(es.take(0) =~= Seq::<(String, ValueCounts)>::empty());
            assert(r@ =~= filter_table(kv_map(es.take(0), g), t));
        }
        while j < self.rows.len()
            invariant
                self.wf(),
                es == self.rows@,
                g == (|vc: ValueCounts| vc@),
                j <= es.len(),
                r.wf(),
                r@ == filter_table(kv_map(es.take(j as int), g), t),
            decreases es.len() - j,
        {
            let ghost m_j = kv_map(es.take(j as int), g);
            let ghost inner = es[j as int].1@;
            proof {
                assert(es.take(j as int + 1).drop_last() =~= es.take(j as int));
                assert(es.take(j as int + 1).last() == es[j as int]);
                assert forall|p: int| 0 <= p < j implies es.take(j as int)[p].0@ != es[
                    j as int
                ].0@ by {
                    assert(es.take(j as int)[p] == es[p]);
                }
                lemma_kv_map_absent(es.take(j as int), g, es[j as int].0@);
                assert(kv_map(es.take(j as int + 1), g) == m_j.insert(es[j as int].0@, inner));
                lemma_filter_table_insert_fresh(m_j, es[j as int].0@, inner, t);
            }
            let fc = self.rows[j].1.filtered(t);
            if fc.num_entries() > 0 {
                let key = self.rows[j].0.clone();
                proof {
                    fc.lemma_entry_in_view(0);
                    let w = fc.entries()[0].0@;
                    assert(inner.contains_key(w) && inner[w] >= t);
                    assert forall|p: int|
                        0 <= p < r.entries().len() implies r.entries()[p].0@ != es[
                        j as int
                    ].0@ by {
                        r.lemma_entry_in_view(p);
                    }
                }
                let ghost r_before = r.rows@;
                r.rows.push((key, fc));
                proof {
                    assert(r.rows@.drop_last() =~= r_before);
                    assert(r.wf());
                    assert(r@ =~= filter_table(kv_map(es.take(j as int + 1), g), t));
                }
            } else {
                proof {
                    assert(fc.entries() =~= Seq::<(String, i64)>::empty());
                    assert(fc@ =~= Map::<Seq<char>, i64>::empty());
                    assert forall|w: Seq<char>| !(#[trigger] inner.contains_key(w) && inner[w]
                        >= t) by {
                        if inner.contains_key(w) && inner[w] >= t {
                            assert(filter_counts(inner, t).contains_key(w));
                        }
                    }
                    assert(r@ =~= filter_table(kv_map(es.take(j as int + 1), g), t));
                }
            }
            j += 1;
        }
        proof {
            assert(es.take(es.len() as int) =~= es);
        }
        r
    }
}

/// Whether a tag mapping maps `k` to `v`.
pub open spec fn has_kv(tags: Map<Seq<char>, Seq<char>>, k: Seq<char>, v: Seq<char>) -> bool {
    tags.contains_key(k) && tags[k] == v
}

/// How many of the tag mappings map `k` to `v`. Each element contributes at
/// most once per key, since its tags form a mapping.
pub open spec fn kv_count(
    tms: Seq<Map<Seq<char>, Seq<char>>>,
    k: Seq<char>,
    v: Seq<char>,
) -> nat
    decreases tms.len(),
{
    if tms.len() == 0 {
        0
    } else {
        kv_count(tms.drop_last(), k, v) + (if has_kv(tms.last(), k, v) {
            1nat
        } else {
            0nat
        })
    }
}

/// How many of the entries carry key `k` with value `v`.
pub open spec fn entry_count(es: Seq<(String, String)>, k: Seq<char>, v: Seq<char>) -> nat
    decreases es.len(),
{
    if es.len() == 0 {
        0
    } else {
        entry_count(es.drop_last(), k, v) + (if es.last().0@ == k && es.last().1@ == v {
            1nat
        } else {
            0nat
        })
    }
}

/// The number of occurrences of the pair `k`/`v` over whole tag mappings plus
/// the entries of one partially processed mapping.
pub open spec fn agg_count(
    tms: Seq<Map<Seq<char>, Seq<char>>>,
    es: Seq<(String, String)>,
    k: Seq<char>,
    v: Seq<char>,
) -> nat {
    kv_count(tms, k, v) + entry_count(es, k, v)
}

/// A table holds exactly the pairs counted at all, each with its count.
pub open spec fn counts_table(
    tbl: Map<Seq<char>, Map<Seq<char>, i64>>,
    tms: Seq<Map<Seq<char>, Seq<char>>>,
    es: Seq<(String, String)>,
) -> bool {
    &&& forall|k: Seq<char>, v: Seq<char>|
        #[trigger] agg_count(tms, es, k, v) > 0 ==> tbl.contains_key(k) && tbl[k].contains_key(v)
    &&& forall|k: Seq<char>, v: Seq<char>|
        tbl.contains_key(k) && #[trigger] tbl[k].contains_key(v) ==> agg_count(tms, es, k, v) > 0
            && agg_count(tms, es, k, v) <= i64::MAX && tbl[k][v] == agg_count(tms, es, k, v) as i64
    &&& forall|k: Seq<char>|
        #[trigger] tbl.contains_key(k) ==> exists|v: Seq<char>| tbl[k].contains_key(v)
}

/// The full frequency table of the tag mappings: for every key that occurs,
/// for every value it takes, the number of mappings carrying that pair.
pub open spec fn spec_tag_table(tms: Seq<Map<Seq<char>, Seq<char>>>) -> Map<
    Seq<char>,
    Map<Seq<char>, i64>,
> {
    Map::new(
        |k: Seq<char>| exists|v: Seq<char>| #[trigger] kv_count(tms, k, v) > 0,
        |k: Seq<char>|
            Map::new(
                |v: Seq<char>| kv_count(tms, k, v) > 0,
                |v: Seq<char>| kv_count(tms, k, v) as i64,
            ),
    )
}

pub proof fn lemma_kv_count_le(tms: Seq<Map<Seq<char>, Seq<char>>>, k: Seq<char>, v: Seq<char>)
    ensures
        kv_count(tms, k, v) <= tms.len(),
    decreases tms.len(),
{
    if tms.len() > 0 {
        lemma_kv_count_le(tms.drop_last(), k, v);
    }
}

pub proof fn lemma_kv_count_take_succ(
    tms: Seq<Map<Seq<char>, Seq<char>>>,
    i: int,
    k: Seq<char>,
    v: Seq<char>,
)
    requires
        0 <= i < tms.len(),
    ensures
        kv_count(tms.take(i + 1), k, v) == kv_count(tms.take(i), k, v) + (if has_kv(
            tms[i],
            k,
            v,
        ) {
            1nat
        } else {
            0nat
        }),
{
    assert(tms.take(i + 1).drop_last() =~= tms.take(i));
    assert(tms.take(i + 1).last() == tms[i]);
}

pub proof fn lemma_entry_count_take_succ(
    es: Seq<(String, String)>,
    j: int,
    k: Seq<char>,
    v: Seq<char>,
)
    requires
        0 <= j < es.len(),
    ensures
        entry_count(es.take(j + 1), k, v) == entry_count(es.take(j), k, v) + (if es[j].0@ == k
            && es[j].1@ == v {
            1nat
        } else {
            0nat
        }),
{
    assert(es.take(j + 1).drop_last() =~= es.take(j));
    assert(es.take(j + 1).last() == es[j]);
}

/// Entries that never carry key `k` count nothing for it.
pub proof fn lemma_entry_count_absent(es: Seq<(String, String)>, k: Seq<char>, v: Seq<char>)
    requires
        forall|i: int| 0 <= i < es.len() ==> (#[trigger] es[i]).0@ != k,
    ensures
        entry_count(es, k, v) == 0,
    decreases es.len(),
{
    if es.len() > 0 {
        assert(es.last() == es[es.len() - 1]);
        assert forall|i: int| 0 <= i < es.drop_last().len() implies (#[trigger] es.drop_last()[i]).0@
            != k by {
            assert(es.drop_last()[i] == es[i]);
        }
        lemma_entry_count_absent(es.drop_last(), k, v);
    }
}

/// With distinct keys, the entries carry a pair exactly when the mapping they
/// denote does.
pub proof fn lemma_entry_count_of_map(es: Seq<(String, String)>, k: Seq<char>, v: Seq<char>)
    requires
        keys_distinct(es),
    ensures
        entry_count(es, k, v) == (if has_kv(kv_map(es, |s: String| s@), k, v) {
            1nat
        } else {
            0nat
        }),
    decreases es.len(),
{
    if es.len() > 0 {
        lemma_keys_distinct_drop_last(es);
        lemma_entry_count_of_map(es.drop_last(), k, v);
        let m0 = kv_map(es.drop_last(), |s: String| s@);
        if es.last().0@ == k {
            assert forall|i: int|
                0 <= i < es.drop_last().len() implies (#[trigger] es.drop_last()[i]).0@ != k by {
                assert(es.drop_last()[i] == es[i]);
                assert(es[i].0@ != es[es.len() - 1].0@);
            }
            lemma_kv_map_absent(es.drop_last(), |s: String| s@, k);
            assert(!has_kv(m0, k, v));
            lemma_entry_count_absent(es.drop_last(), k, v);
        }
    }
}

proof fn lemma_counts_table_step(
    tbl: Map<Seq<char>, Map<Seq<char>, i64>>,
    tms: Seq<Map<Seq<char>, Seq<char>>>,
    es: Seq<(String, String)>,
    j: int,
)
    requires
        counts_table(tbl, tms, es.take(j)),
        0 <= j < es.len(),
        entry_count(es.take(j), es[j].0@, es[j].1@) == 0,
        kv_count(tms, es[j].0@, es[j].1@) < i64::MAX,
    ensures
        counts_table(
            tbl.insert(es[j].0@, bump(inner_of(tbl, es[j].0@), es[j].1@)),
            tms,
            es.take(j + 1),
        ),
{
    let k0 = es[j].0@;
    let v0 = es[j].1@;
    let inner = inner_of(tbl, k0);
    let tbl2 = tbl.insert(k0, bump(inner, v0));
    assert(agg_count(tms, es.take(j), k0, v0) == kv_count(tms, k0, v0));
    assert(agg_count(tms, es.take(j), k0, v0) < i64::MAX);
    assert forall|k: Seq<char>, v: Seq<char>| #[trigger] agg_count(tms, es.take(j + 1), k, v)
        == agg_count(tms, es.take(j), k, v) + (if k == k0 && v == v0 {
        1nat
    } else {
        0nat
    }) by {
        lemma_entry_count_take_succ(es, j, k, v);
    }
    assert forall|k: Seq<char>, v: Seq<char>| #[trigger] agg_count(tms, es.take(j + 1), k, v)
        > 0 implies tbl2.contains_key(k) && tbl2[k].contains_key(v) by {
        if k == k0 && v == v0 {
            assert(tbl2[k0] == bump(inner, v0));
        } else {
            assert(agg_count(tms, es.take(j), k, v) > 0);
            assert(tbl.contains_key(k) && tbl[k].contains_key(v));
            if k == k0 {
                assert(inner == tbl[k0]);
                assert(tbl2[k0] == bump(inner, v0));
            }
        }
    }
    assert forall|k: Seq<char>, v: Seq<char>|
        tbl2.contains_key(k) && #[trigger] tbl2[k].contains_key(v) implies agg_count(
        tms,
        es.take(j + 1),
        k,
        v,
    ) > 0 && tbl2[k][v] == agg_count(tms, es.take(j + 1), k, v) as i64 by {
        if k == k0 {
            assert(tbl2[k0] == bump(inner, v0));
            if v == v0 {
                if inner.contains_key(v0) {
                    assert(tbl.contains_key(k0));
                    assert(tbl[k0].contains_key(v0));
                    assert(tbl[k0][v0] == agg_count(tms, es.take(j), k0, v0) as i64);
                } else {
                    if agg_count(tms, es.take(j), k0, v0) > 0 {
                        assert(tbl.contains_key(k0) && tbl[k0].contains_key(v0));
                        assert(inner == tbl[k0]);
                    }
                    assert(agg_count(tms, es.take(j), k0, v0) == 0);
                }
            } else {
                assert(bump(inner, v0).contains_key(v) == inner.contains_key(v));
                assert(inner.contains_key(v));
                assert(tbl.contains_key(k0));
                assert(tbl[k0].contains_key(v));
            }
        } else {
            assert(tbl2[k] == tbl[k]);
            assert(tbl.contains_key(k) && tbl[k].contains_key(v));
        }
    }
    assert forall|k: Seq<char>| #[trigger] tbl2.contains_key(k) implies exists|v: Seq<char>|
        tbl2[k].contains_key(v) by {
        if k == k0 {
            assert(tbl2[k0] == bump(inner, v0));
            assert(tbl2[k0].contains_key(v0));
        } else {
            assert(tbl.contains_key(k));
            let w = choose|v: Seq<char>| tbl[k].contains_key(v);
            assert(tbl2[k].contains_key(w));
        }
    }
}

proof fn lemma_counts_table_element(
    tbl: Map<Seq<char>, Map<Seq<char>, i64>>,
    tms: Seq<Map<Seq<char>, Seq<char>>>,
    es: Seq<(String, String)>,
    i: int,
)
    requires
        counts_table(tbl, tms.take(i), es),
        0 <= i < tms.len(),
        keys_distinct(es),
        kv_map(es, |s: String| s@) == tms[i],
    ensures
        counts_table(tbl, tms.take(i + 1), Seq::<(String, String)>::empty()),
{
    let empty = Seq::<(String, String)>::empty();
    assert forall|k: Seq<char>, v: Seq<char>| #[trigger] agg_count(tms.take(i + 1), empty, k, v)
        == agg_count(tms.take(i), es, k, v) by {
        lemma_entry_count_of_map(es, k, v);
        lemma_kv_count_take_succ(tms, i, k, v);
    }
}

proof fn lemma_counts_table_finish(
    tbl: Map<Seq<char>, Map<Seq<char>, i64>>,
    tms: Seq<Map<Seq<char>, Seq<char>>>,
)
    requires
        counts_table(tbl, tms, Seq::<(String, String)>::empty()),
    ensures
        tbl == spec_tag_table(tms),
{
    let empty = Seq::<(String, String)>::empty();
    assert forall|k: Seq<char>, v: Seq<char>| #[trigger] agg_count(tms, empty, k, v) == kv_count(
        tms,
        k,
        v,
    ) by {}
    let spec = spec_tag_table(tms);
    assert(tbl.dom() =~= spec.dom()) by {
        assert forall|k: Seq<char>| #[trigger] tbl.dom().contains(k) implies spec.dom().contains(
            k,
        ) by {
            assert(tbl.contains_key(k));
            let w = choose|v: Seq<char>| tbl[k].contains_key(v);
            assert(agg_count(tms, empty, k, w) > 0);
            assert(kv_count(tms, k, w) > 0);
        }
        assert forall|k: Seq<char>| #[trigger] spec.dom().contains(k) implies tbl.dom().contains(
            k,
        ) by {
            assert(spec.contains_key(k));
            let w = choose|v: Seq<char>| #[trigger] kv_count(tms, k, v) > 0;
            assert(agg_count(tms, empty, k, w) > 0);
            assert(tbl.contains_key(k));
        }
    }
    assert forall|k: Seq<char>| #[trigger] tbl.dom().contains(k) implies tbl[k] == spec[k] by {
        assert(tbl.contains_key(k));
        assert(spec.contains_key(k));
        assert(spec[k] == Map::new(
            |v: Seq<char>| kv_count(tms, k, v) > 0,
            |v: Seq<char>| kv_count(tms, k, v) as i64,
        ));
        assert(tbl[k].dom() =~= spec[k].dom()) by {
            assert forall|v: Seq<char>| #[trigger] tbl[k].dom().contains(v) implies spec[
                k
            ].dom().contains(v) by {
                assert(tbl[k].contains_key(v));
                assert(agg_count(tms, empty, k, v) > 0);
                assert(kv_count(tms, k, v) > 0);
                assert(spec[k].contains_key(v));
            }
            assert forall|v: Seq<char>| #[trigger] spec[k].dom().contains(v) implies tbl[
                k
            ].dom().contains(v) by {
                assert(spec[k].contains_key(v));
                assert(kv_count(tms, k, v) > 0);
                assert(agg_count(tms, empty, k, v) > 0);
                assert(tbl[k].contains_key(v));
            }
        }
        assert forall|v: Seq<char>| #[trigger] tbl[k].dom().contains(v) implies tbl[k][v]
            == spec[k][v] by {
            assert(tbl[k].contains_key(v));
            assert(tbl[k][v] == agg_count(tms, empty, k, v) as i64);
            assert(spec[k].contains_key(v));
            assert(spec[k][v] == kv_count(tms, k, v) as i64);
        }
        assert(tbl[k] =~= spec[k]);
    }
    assert(tbl =~= spec);
}

/// An element that carries a tag mapping.
///
/// An implementation written outside the verifier keeps the ghost members'
/// defaults, under which `tags` promises nothing.
pub trait HasTags {
    /// The mapping the element's tags denote.
    open spec fn spec_tags(&self) -> Map<Seq<char>, Seq<char>> {
        Map::empty()
    }

    /// The element's tag mapping is well formed.
    open spec fn tags_wf(&self) -> bool {
        false
    }

    /// The element's tags.
    fn tags(&self) -> (t: &TagMap)
        requires
            self.tags_wf(),
        ensures
            t.wf(),
            t@ == self.spec_tags(),
    ;
}

/// The tag mappings of the elements, in order.
pub open spec fn tag_maps_of<T: HasTags>(elements: Seq<T>) -> Seq<Map<Seq<char>, Seq<char>>> {
    elements.map_values(|e: T| e.spec_tags())
}

/// Builds the frequency table of all of the elements' tags: for every tag key
/// and every value it takes, the number of elements carrying that pair. With
/// a threshold, only the key/value pairs whose count reaches it are kept, and
/// keys left with no values are removed entirely; the threshold applies after
/// all counts are final.
pub fn get_used_tags<T: HasTags>(elements: &Vec<T>, threshold: Option<i64>) -> (r: TagTable)
    requires
        elements@.len() <= i64::MAX,
        forall|x: int| 0 <= x < elements@.len() ==> (#[trigger] elements@[x]).tags_wf(),
    ensures
        r.wf(),
        match threshold {
            None => r@ == spec_tag_table(tag_maps_of(elements@)),
            Some(t) => r@ == filter_table(spec_tag_table(tag_maps_of(elements@)), t),
        },
{
    let ghost tms = tag_maps_of(elements@);
    let ghost empty_es = Seq::<(String, String)>::empty();
    let mut table = TagTable::new();
    let mut i: usize = 0;
    proof {
        assert(tms.take(0) =~= Seq::<Map<Seq<char>, Seq<char>>>::empty());
        assert(counts_table(table@, tms.take(0), empty_es));
    }
    while i < elements.len()
        invariant
            tms == tag_maps_of(elements@),
            empty_es == Seq::<(String, String)>::empty(),
            elements@.len() <= i64::MAX,
            forall|x: int| 0 <= x < elements@.len() ==> (#[trigger] elements@[x]).tags_wf(),
            i <= elements@.len(),
            tms.len() == elements@.len(),
            table.wf(),
            counts_table(table@, tms.take(i as int), empty_es),
        decreases elements@.len() - i,
    {
        let tm = elements[i].tags();
        let ghost es = tm.entries();
        proof {
            assert(tms[i as int] == elements@[i as int].spec_tags());
            assert(kv_map(es, |s: String| s@) == tms[i as int]);
            assert(es.take(0) =~= empty_es);
        }
        let mut j: usize = 0;
        let n = tm.num_entries();
        while j < n
            invariant
                tms == tag_maps_of(elements@),
                elements@.len() <= i64::MAX,
                i < elements@.len(),
                tms.len() == elements@.len(),
                es == tm.entries(),
                tm.wf(),
                kv_map(es, |s: String| s@) == tms[i as int],
                n == es.len(),
                j <= es.len(),
                table.wf(),
                counts_table(table@, tms.take(i as int), es.take(j as int)),
            decreases es.len() - j,
        {
            let e = tm.entry(j);
            let key = e.0.clone();
            let value = e.1.clone();
            proof {
                let k0 = es[j as int].0@;
                let v0 = es[j as int].1@;
                lemma_kv_count_le(tms.take(i as int), k0, v0);
                assert forall|p: int| 0 <= p < j implies (#[trigger] es.take(j as int)[p]).0@
                    != k0 by {
                    assert(es.take(j as int)[p] == es[p]);
                }
                lemma_entry_count_absent(es.take(j as int), k0, v0);
                assert(tms.take(i as int).len() == i);
                assert(kv_count(tms.take(i as int), k0, v0) < i64::MAX);
                if inner_of(table@, k0).contains_key(v0) {
                    assert(table@.contains_key(k0));
                    assert(table@[k0].contains_key(v0));
                    assert(agg_count(tms.take(i as int), es.take(j as int), k0, v0) == kv_count(
                        tms.take(i as int),
                        k0,
                        v0,
                    ));
                    assert(table@[k0][v0] == agg_count(tms.take(i as int), es.take(j as int), k0, v0) as i64);
                    assert(table@[k0][v0] < i64::MAX);
                }
                lemma_counts_table_step(table@, tms.take(i as int), es, j as int);
            }
            table.increment(key, value);
            j += 1;
        }
        proof {
            assert(es.take(es.len() as int) =~= es);
            lemma_counts_table_element(table@, tms, es, i as int);
        }
        i += 1;
    }
    proof {
        assert(tms.take(tms.len() as int) =~= tms);
        lemma_counts_table_finish(table@, tms);
    }
    match threshold {
        None => table,
        Some(t) => table.pruned(t),
    }
}

/// Tag filter idempotence: filtering a table a second time with the same
/// threshold changes nothing, so re-filtering an already filtered table is
/// stable.
pub proof fn lemma_filter_idempotent(tbl: Map<Seq<char>, Map<Seq<char>, i64>>, t: i64)
    ensures
        filter_table(filter_table(tbl, t), t) == filter_table(tbl, t),
{
    let f1 = filter_table(tbl, t);
    let f2 = filter_table(f1, t);
    assert forall|k: Seq<char>| #[trigger] f1.contains_key(k) implies f2.contains_key(k)
        && f2[k] == f1[k] by {
        let w = choose|v: Seq<char>| #[trigger] tbl[k].contains_key(v) && tbl[k][v] >= t;
        assert(f1[k] == filter_counts(tbl[k], t));
        assert(f1[k].contains_key(w) && f1[k][w] >= t);
        assert(f2[k] == filter_counts(f1[k], t));
        assert(f2[k] =~= f1[k]);
    }
    assert forall|k: Seq<char>| #[trigger] f2.contains_key(k) implies f1.contains_key(k) by {}
    assert(f2 =~= f1);
}

} // verus!
