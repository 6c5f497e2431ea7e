//! Node usage counts across the way collection, and the junction
//! classification they induce.
//!
//! The usage count of a node identifier is the number of times it appears
//! across the node sequences of all ways combined; a node used twice within a
//! single way counts twice, so a loop's repeated node is classified as a
//! junction even with no other way involved. A junction is an identifier with
//! usage count greater than one. The classification depends only on these
//! counts, never on geometry.

use crate::railway::OsmRailway;
use std::collections::HashMap;
use vstd::prelude::*;

verus! {

/// How many positions of `nodes` hold `id`.
pub open spec fn count_id(nodes: Seq<i64>, id: i64) -> nat
    decreases nodes.len(),
{
    if nodes.len() == 0 {
        0
    } else {
        count_id(nodes.drop_last(), id) + (if nodes.last() == id {
            1nat
        } else {
            0nat
        })
    }
}

/// The node sequences of a way collection, in order.
pub open spec fn node_lists(ways: Seq<OsmRailway>) -> Seq<Seq<i64>> {
    ways.map_values(|w: OsmRailway| w.node_ids@)
}

/// The total usage count of `id` across all node sequences.
pub open spec fn usage_count(lists: Seq<Seq<i64>>, id: i64) -> nat
    decreases lists.len(),
{
    if lists.len() == 0 {
        0
    } else {
        usage_count(lists.drop_last(), id) + count_id(lists.last(), id)
    }
}

/// A junction: an identifier whose total usage count exceeds one.
pub open spec fn is_junction(lists: Seq<Seq<i64>>, id: i64) -> bool {
    usage_count(lists, id) > 1
}

/// The set of all junction identifiers of a way collection.
pub open spec fn junction_set(lists: Seq<Seq<i64>>) -> Set<i64> {
    Set::new(|id: i64| is_junction(lists, id))
}

/// The total number of node references across all node sequences.
pub open spec fn total_refs(lists: Seq<Seq<i64>>) -> nat
    decreases lists.len(),
{
    if lists.len() == 0 {
        0
    } else {
        total_refs(lists.drop_last()) + lists.last().len()
    }
}

pub proof fn lemma_count_id_le(nodes: Seq<i64>, id: i64)
    ensures
        count_id(nodes, id) <= nodes.len(),
    decreases nodes.len(),
{
    if nodes.len() > 0 {
        lemma_count_id_le(nodes.drop_last(), id);
    }
}

/// Counting over a prefix never counts more.
pub proof fn lemma_count_id_take_le(nodes: Seq<i64>, j: int, id: i64)
    requires
        0 <= j <= nodes.len(),
    ensures
        count_id(nodes.take(j), id) <= count_id(nodes, id),
    decreases nodes.len(),
{
    if j == nodes.len() {
        assert(nodes.take(j) =~= nodes);
    } else {
        assert(nodes.drop_last().take(j) =~= nodes.take(j));
        lemma_count_id_take_le(nodes.drop_last(), j, id);
    }
}

/// Extending a prefix by one position counts that position.
pub proof fn lemma_count_id_take_succ(nodes: Seq<i64>, j: int, id: i64)
    requires
        0 <= j < nodes.len(),
    ensures
        count_id(nodes.take(j + 1), id) == count_id(nodes.take(j), id) + (if nodes[j] == id {
            1nat
        } else {
            0nat
        }),
{
    assert(nodes.take(j + 1).drop_last() =~= nodes.take(j));
    assert(nodes.take(j + 1).last() == nodes[j]);
}

/// Extending a way-list prefix by one way adds that way's count.
pub proof fn lemma_usage_take_succ(lists: Seq<Seq<i64>>, i: int, id: i64)
    requires
        0 <= i < lists.len(),
    ensures
        usage_count(lists.take(i + 1), id) == usage_count(lists.take(i), id) + count_id(
            lists[i],
            id,
        ),
{
    assert(lists.take(i + 1).drop_last() =~= lists.take(i));
    assert(lists.take(i + 1).last() == lists[i]);
}

/// Counting over a way-list prefix never counts more.
pub proof fn lemma_usage_take_le(lists: Seq<Seq<i64>>, i: int, id: i64)
    requires
        0 <= i <= lists.len(),
    ensures
        usage_count(lists.take(i), id) <= usage_count(lists, id),
    decreases lists.len(),
{
    if i == lists.len() {
        assert(lists.take(i) =~= lists);
    } else {
        assert(lists.drop_last().take(i) =~= lists.take(i));
        lemma_usage_take_le(lists.drop_last(), i, id);
    }
}

/// No identifier is used more often than there are references in all.
pub proof fn lemma_usage_le_total(lists: Seq<Seq<i64>>, id: i64)
    ensures
        usage_count(lists, id) <= total_refs(lists),
    decreases lists.len(),
{
    if lists.len() > 0 {
        lemma_usage_le_total(lists.drop_last(), id);
        lemma_count_id_le(lists.last(), id);
    }
}

/// If no node sequence uses `id`, its total usage count is zero.
pub proof fn lemma_usage_zero(lists: Seq<Seq<i64>>, id: i64)
    requires
        forall|m: int| 0 <= m < lists.len() ==> count_id(#[trigger] lists[m], id) == 0,
    ensures
        usage_count(lists, id) == 0,
    decreases lists.len(),
{
    if lists.len() > 0 {
        assert(lists.last() == lists[lists.len() - 1]);
        assert forall|m: int| 0 <= m < lists.drop_last().len() implies count_id(
            #[trigger] lists.drop_last()[m],
            id,
        ) == 0 by {
            assert(lists.drop_last()[m] == lists[m]);
        }
        lemma_usage_zero(lists.drop_last(), id);
    }
}

/// If only the node sequence at `w` uses `id`, the total usage count is that
/// sequence's own count.
pub proof fn lemma_usage_only(lists: Seq<Seq<i64>>, w: int, id: i64)
    requires
        0 <= w < lists.len(),
        forall|m: int|
            0 <= m < lists.len() && m != w ==> count_id(#[trigger] lists[m], id) == 0,
    ensures
        usage_count(lists, id) == count_id(lists[w], id),
    decreases lists.len(),
{
    assert(lists.last() == lists[lists.len() - 1]);
    if w == lists.len() - 1 {
        assert forall|m: int| 0 <= m < lists.drop_last().len() implies count_id(
            #[trigger] lists.drop_last()[m],
            id,
        ) == 0 by {
            assert(lists.drop_last()[m] == lists[m]);
        }
        lemma_usage_zero(lists.drop_last(), id);
    } else {
        assert forall|m: int|
            0 <= m < lists.drop_last().len() && m != w implies count_id(
            #[trigger] lists.drop_last()[m],
            id,
        ) == 0 by {
            assert(lists.drop_last()[m] == lists[m]);
        }
        lemma_usage_only(lists.drop_last(), w, id);
        assert(lists.drop_last()[w] == lists[w]);
    }
}

/// A counted identifier occurs at some position.
pub proof fn lemma_count_id_pos(nodes: Seq<i64>, id: i64)
    requires
        count_id(nodes, id) > 0,
    ensures
        exists|j: int| 0 <= j < nodes.len() && nodes[j] == id,
    decreases nodes.len(),
{
    if nodes.last() == id {
        assert(nodes[nodes.len() - 1] == id);
    } else {
        lemma_count_id_pos(nodes.drop_last(), id);
        let j = choose|j: int| 0 <= j < nodes.drop_last().len() && nodes.drop_last()[j] == id;
        assert(nodes[j] == id);
    }
}

/// A used identifier occurs at some position of some way.
pub proof fn lemma_usage_pos(lists: Seq<Seq<i64>>, id: i64)
    requires
        usage_count(lists, id) > 0,
    ensures
        exists|i: int, j: int|
            0 <= i < lists.len() && 0 <= j < lists[i].len() && #[trigger] lists[i][j] == id,
    decreases lists.len(),
{
    if count_id(lists.last(), id) > 0 {
        lemma_count_id_pos(lists.last(), id);
        let j = choose|j: int| 0 <= j < lists.last().len() && lists.last()[j] == id;
        assert(lists[lists.len() - 1][j] == id);
    } else {
        lemma_usage_pos(lists.drop_last(), id);
        let (i, j) = choose|i: int, j: int|
            0 <= i < lists.drop_last().len() && 0 <= j < lists.drop_last()[i].len()
                && #[trigger] lists.drop_last()[i][j] == id;
        assert(lists[i][j] == id);
    }
}

impl OsmRailway {
    /// Counts, for every node identifier, how many times it is used across
    /// the node sequences of all the given ways combined.
    ///
    /// The returned map holds exactly the identifiers that are used at all,
    /// each with its total usage count.
    pub fn get_used_node_counts(railways: &Vec<OsmRailway>) -> (r: HashMap<i64, i64>)
        requires
            total_refs(node_lists(railways@)) <= i64::MAX,
        ensures
            forall|id: i64|
                #[trigger] r@.contains_key(id) <==> usage_count(node_lists(railways@), id) > 0,
            forall|id: i64|
                #[trigger] r@.contains_key(id) ==> r@[id] == usage_count(
                    node_lists(railways@),
                    id,
                ) as i64,
    {
        let ghost lists = node_lists(railways@);
        let mut counts: HashMap<i64, i64> = HashMap::new();
        let mut i: usize = 0;
        proof {
            assert(lists.take(0) =~= Seq::<Seq<i64>>::empty());
        }
        while i < railways.len()
            invariant
                lists == node_lists(railways@),
                total_refs(lists) <= i64::MAX,
                i <= railways@.len(),
                lists.len() == railways@.len(),
                forall|id: i64|
                    #[trigger] counts@.contains_key(id) <==> usage_count(
                        lists.take(i as int),
                        id,
                    ) > 0,
                forall|id: i64|
                    #[trigger] counts@.contains_key(id) ==> counts@[id] == usage_count(
                        lists.take(i as int),
                        id,
                    ) as i64,
            decreases railways@.len() - i,
        {
            let way_nodes = &railways[i].node_ids;
            let ghost nodes = lists[i as int];
            proof {
                assert(nodes == way_nodes@);
                assert(nodes.take(0) =~= Seq::<i64>::empty());
            }
            let mut j: usize = 0;
            while j < way_nodes.len()
                invariant
                    lists == node_lists(railways@),
                    total_refs(lists) <= i64::MAX,
                    i < railways@.len(),
                    lists.len() == railways@.len(),
                    nodes == lists[i as int],
                    nodes == way_nodes@,
                    way_nodes == &railways@[i as int].node_ids,
                    j <= nodes.len(),
                    forall|id: i64|
                        #[trigger] counts@.contains_key(id) <==> usage_count(
                            lists.take(i as int),
                            id,
                        ) + count_id(nodes.take(j as int), id) > 0,
                    forall|id: i64|
                        #[trigger] counts@.contains_key(id) ==> counts@[id] == (usage_count(
                            lists.take(i as int),
                            id,
                        ) + count_id(nodes.take(j as int), id)) as i64,
                decreases nodes.len() - j,
            {
                let id = way_nodes[j];
                let c: i64 = match counts.get(&id) {
                    Some(c) => *c,
                    None => 0,
                };
                proof {
                    assert forall|idx: i64| #[trigger] count_id(nodes.take(j as int + 1), idx)
                        == count_id(nodes.take(j as int), idx) + (if nodes[j as int] == idx {
                        1nat
                    } else {
                        0nat
                    }) by {
                        lemma_count_id_take_succ(nodes, j as int, idx);
                    }
                    lemma_count_id_take_le(nodes, j as int + 1, id);
                    lemma_usage_take_succ(lists, i as int, id);
                    lemma_usage_take_le(lists, i as int + 1, id);
                    lemma_usage_le_total(lists, id);
                }
                counts.insert(id, c + 1);
                j += 1;
            }
            proof {
                assert(nodes.take(nodes.len() as int) =~= nodes);
                assert forall|idx: i64| #[trigger] usage_count(lists.take(i as int + 1), idx)
                    == usage_count(lists.take(i as int), idx) + count_id(nodes, idx) by {
                    lemma_usage_take_succ(lists, i as int, idx);
                }
            }
            i += 1;
        }
        proof {
            assert(lists.take(lists.len() as int) =~= lists);
        }
        counts
    }
}

} // verus!
