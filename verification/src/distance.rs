//! Resolving a segment's node identifiers against a node store.
//!
//! A segment's length is the sum of the great-circle distances between the
//! coordinates of consecutive *resolved* nodes: identifiers absent from the
//! node store are silently dropped from the polyline, they neither terminate
//! the computation nor count as zero-length. This module carries the
//! resolution itself; with fewer than two resolved nodes the polyline has no
//! pair to measure and its length is zero.

use crate::railway::RailwaySegment;
use std::collections::HashSet;
use vstd::prelude::*;

verus! {

/// The subsequence of `nodes` whose identifiers the store knows, in order.
pub open spec fn resolved(nodes: Seq<i64>, known: Set<i64>) -> Seq<i64>
    decreases nodes.len(),
{
    if nodes.len() == 0 {
        Seq::empty()
    } else if known.contains(nodes.last()) {
        resolved(nodes.drop_last(), known).push(nodes.last())
    } else {
        resolved(nodes.drop_last(), known)
    }
}

/// Extending the node list by one position resolves that position's
/// identifier exactly when the store knows it.
pub proof fn lemma_resolved_take_succ(nodes: Seq<i64>, known: Set<i64>, j: int)
    requires
        0 <= j < nodes.len(),
    ensures
        resolved(nodes.take(j + 1), known) == if known.contains(nodes[j]) {
            resolved(nodes.take(j), known).push(nodes[j])
        } else {
            resolved(nodes.take(j), known)
        },
{
    assert(nodes.take(j + 1).drop_last() =~= nodes.take(j));
    assert(nodes.take(j + 1).last() == nodes[j]);
}

/// Resolution refinement: resolving against a store is the same as resolving
/// against a larger store first and then dropping the identifiers that only
/// the larger store knows. In particular, the polyline a segment yields
/// before a node's coordinate is added to the store is a subsequence of the
/// polyline it yields afterwards.
pub proof fn lemma_resolution_refines(nodes: Seq<i64>, known: Set<i64>, larger: Set<i64>)
    requires
        known.subset_of(larger),
    ensures
        resolved(nodes, known) == resolved(resolved(nodes, larger), known),
    decreases nodes.len(),
{
    if nodes.len() > 0 {
        lemma_resolution_refines(nodes.drop_last(), known, larger);
        let x = nodes.last();
        let r = resolved(nodes.drop_last(), larger);
        if larger.contains(x) {
            assert(r.push(x).drop_last() =~= r);
            assert(r.push(x).last() == x);
        }
    }
}

impl RailwaySegment {
    /// The node identifiers of this segment that the node store knows, in
    /// sequence order, given the set of identifiers the store covers: the
    /// polyline whose consecutive coordinate pairs make up the segment's
    /// length.
    pub fn resolved_node_ids(&self, known: &HashSet<i64>) -> (r: Vec<i64>)
        ensures
            r@ == resolved(self.node_ids@, known@),
    {
        let ghost nodes = self.node_ids@;
        let mut r: Vec<i64> = Vec::new();
        let mut j: usize = 0;
        proof {
            assert(nodes.take(0) =~= Seq::<i64>::empty());
        }
        while j < self.node_ids.len()
            invariant
                nodes == self.node_ids@,
                j <= nodes.len(),
                r@ == resolved(nodes.take(j as int), known@),
            decreases nodes.len() - j,
        {
            let id = self.node_ids[j];
            proof {
                lemma_resolved_take_succ(nodes, known@, j as int);
            }
            if known.contains(&id) {
                r.push(id);
            }
            j += 1;
        }
        proof {
            assert(nodes.take(nodes.len() as int) =~= nodes);
        }
        r
    }
}

} // verus!
