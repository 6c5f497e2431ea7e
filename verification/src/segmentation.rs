//! Splitting a way's ordered node list into connectivity-preserving segments
//! at junction boundaries.
//!
//! A split boundary sits immediately after every node that is a junction and
//! is neither the first node of the sequence (splitting there would yield a
//! useless length-1 leading segment) nor the last (the run ends there anyway).
//! Each run after the first is prefixed with the last node of the preceding
//! run, so adjacent segments overlap by exactly one node at the cut point and
//! each segment is self-contained.

use crate::counts::count_id;
use crate::counts::is_junction;
use crate::counts::junction_set;
use crate::counts::lemma_count_id_take_le;
use crate::counts::lemma_count_id_take_succ;
use crate::counts::lemma_usage_le_total;
use crate::counts::lemma_usage_only;
use crate::counts::lemma_usage_pos;
use crate::counts::lemma_usage_take_le;
use crate::counts::lemma_usage_take_succ;
use crate::counts::node_lists;
use crate::counts::total_refs;
use crate::counts::usage_count;
use crate::railway::OsmRailway;
use crate::railway::RailwaySegment;
use std::collections::HashSet;
use vstd::prelude::*;

verus! {

/// The positions of all split boundaries at or after position `i`, in
/// increasing order: positions `c` with `i <= c <= nodes.len() - 2` holding a
/// junction node.
pub open spec fn cut_list_from(nodes: Seq<i64>, junctions: Set<i64>, i: int) -> Seq<int>
    decreases nodes.len() - i,
{
    if i >= nodes.len() - 1 {
        Seq::empty()
    } else if junctions.contains(nodes[i]) {
        seq![i] + cut_list_from(nodes, junctions, i + 1)
    } else {
        cut_list_from(nodes, junctions, i + 1)
    }
}

/// The positions of all split boundaries of a way: junction positions other
/// than the first and the last position of the node list.
pub open spec fn cut_list(nodes: Seq<i64>, junctions: Set<i64>) -> Seq<int> {
    cut_list_from(nodes, junctions, 1)
}

/// The boundary positions lie between `lo` and the second-to-last position,
/// and increase strictly.
pub open spec fn cuts_ok(nodes: Seq<i64>, cuts: Seq<int>, lo: int) -> bool {
    &&& forall|j: int| 0 <= j < cuts.len() ==> lo <= #[trigger] cuts[j] <= nodes.len() - 2
    &&& forall|p: int, q: int| 0 <= p < q < cuts.len() ==> #[trigger] cuts[p] < #[trigger] cuts[q]
}

pub proof fn lemma_cut_list_from_ok(nodes: Seq<i64>, junctions: Set<i64>, i: int)
    ensures
        cuts_ok(nodes, cut_list_from(nodes, junctions, i), i),
    decreases nodes.len() - i,
{
    if i >= nodes.len() - 1 {
    } else {
        lemma_cut_list_from_ok(nodes, junctions, i + 1);
    }
}

/// Every split boundary holds a junction node.
pub proof fn lemma_cut_list_from_junctions(nodes: Seq<i64>, junctions: Set<i64>, i: int)
    ensures
        forall|j: int|
            0 <= j < cut_list_from(nodes, junctions, i).len() ==> junctions.contains(
                nodes[#[trigger] cut_list_from(nodes, junctions, i)[j]],
            ),
    decreases nodes.len() - i,
{
    if i >= nodes.len() - 1 {
    } else {
        lemma_cut_list_from_junctions(nodes, junctions, i + 1);
        let c = cut_list_from(nodes, junctions, i);
        let rest = cut_list_from(nodes, junctions, i + 1);
        assert forall|j: int| 0 <= j < c.len() implies junctions.contains(
            nodes[#[trigger] c[j]],
        ) by {
            if junctions.contains(nodes[i]) {
                if j > 0 {
                    assert(c[j] == rest[j - 1]);
                }
            } else {
                assert(c[j] == rest[j]);
            }
        }
    }
}

/// The node list of the `j`-th segment, for the given boundary positions:
/// from the previous boundary (or the start) through the next boundary (or
/// the end), inclusive on both sides of each boundary.
pub open spec fn segment_at(nodes: Seq<i64>, cuts: Seq<int>, j: int) -> Seq<i64> {
    nodes.subrange(
        if j == 0 {
            0
        } else {
            cuts[j - 1]
        },
        if j == cuts.len() {
            nodes.len() as int
        } else {
            cuts[j] + 1
        },
    )
}

/// The node lists of a way's segments, in order: one more segment than there
/// are split boundaries, adjacent segments sharing the boundary node.
pub open spec fn way_segments(nodes: Seq<i64>, junctions: Set<i64>) -> Seq<Seq<i64>> {
    let cuts = cut_list(nodes, junctions);
    Seq::new((cuts.len() + 1) as nat, |j: int| segment_at(nodes, cuts, j))
}

/// Copies the node identifiers in positions `from .. to`.
fn copy_range(v: &Vec<i64>, from: usize, to: usize) -> (r: Vec<i64>)
    requires
        from <= to <= v@.len(),
    ensures
        r@ == v@.subrange(from as int, to as int),
{
    let mut r: Vec<i64> = Vec::new();
    let mut j: usize = from;
    while j < to
        invariant
            from <= j <= to <= v@.len(),
            r@ == v@.subrange(from as int, j as int),
        decreases to - j,
    {
        r.push(v[j]);
        proof {
            assert(r@ =~= v@.subrange(from as int, j as int + 1));
        }
        j += 1;
    }
    r
}

impl OsmRailway {
    /// Splits this way into segments at the given junction set, consuming it.
    ///
    /// Every segment inherits the way's identifier and name, and its node
    /// list is the corresponding member of `way_segments`: the runs between
    /// split boundaries, each run after the first prefixed with the boundary
    /// node it shares with its predecessor. A way with no nodes yields one
    /// segment with an empty node list.
    pub fn to_railway_segments(self, intersections: &HashSet<i64>) -> (r: Vec<RailwaySegment>)
        ensures
            r@.len() == way_segments(self.node_ids@, intersections@).len(),
            forall|j: int|
                0 <= j < r@.len() ==> {
                    &&& (#[trigger] r@[j]).node_ids@ == way_segments(
                        self.node_ids@,
                        intersections@,
                    )[j]
                    &&& r@[j].name@ == self.name@
                    &&& r@[j].way_id == self.way_id
                },
    {
        let ghost nodes = self.node_ids@;
        let ghost junctions = intersections@;
        let ghost cuts = cut_list(nodes, junctions);
        proof {
            lemma_cut_list_from_ok(nodes, junctions, 1);
        }
        let n = self.node_ids.len();
        let mut segments: Vec<RailwaySegment> = Vec::new();
        if n == 0 {
            segments.push(
                RailwaySegment { name: self.name, way_id: self.way_id, node_ids: Vec::new() },
            );
            proof {
                assert(cuts =~= Seq::<int>::empty());
                assert(segments@[0].node_ids@ =~= segment_at(nodes, cuts, 0));
            }
            return segments;
        }
        let mut start: usize = 0;
        let mut i: usize = 1;
        while i < n - 1
            invariant
                n == nodes.len(),
                nodes == self.node_ids@,
                junctions == intersections@,
                n >= 1,
                1 <= i <= n,
                cuts == cut_list(nodes, junctions),
                cuts_ok(nodes, cuts, 1),
                segments@.len() <= cuts.len(),
                cuts.skip(segments@.len() as int) == cut_list_from(nodes, junctions, i as int),
                start as int == (if segments@.len() == 0 {
                    0int
                } else {
                    cuts[segments@.len() - 1]
                }),
                start < i,
                forall|j: int|
                    0 <= j < segments@.len() ==> {
                        &&& (#[trigger] segments@[j]).node_ids@ == segment_at(nodes, cuts, j)
                        &&& segments@[j].name@ == self.name@
                        &&& segments@[j].way_id == self.way_id
                    },
            decreases n - i,
        {
            if intersections.contains(&self.node_ids[i]) {
                let ghost k = segments@.len() as int;
                proof {
                    assert(junctions.contains(nodes[i as int]));
                    assert((i as int) < nodes.len() - 1);
                    assert(cut_list_from(nodes, junctions, i as int) =~= seq![i as int]
                        + cut_list_from(nodes, junctions, i as int + 1));
                    assert(cuts.skip(k).len() >= 1);
                    assert(k < cuts.len());
                    assert(cuts.skip(k)[0] == cuts[k]);
                    assert(cuts[k] == i as int);
                }
                let run = copy_range(&self.node_ids, start, i + 1);
                proof {
                    assert(run@ == segment_at(nodes, cuts, k));
                }
                segments.push(
                    RailwaySegment { name: self.name.clone(), way_id: self.way_id, node_ids: run },
                );
                start = i;
                proof {
                    let rest = cut_list_from(nodes, junctions, i as int + 1);
                    assert(cuts.skip(k + 1).len() == rest.len());
                    assert forall|j: int| 0 <= j < rest.len() implies cuts.skip(k + 1)[j]
                        == rest[j] by {
                        assert(cuts.skip(k + 1)[j] == cuts[k + 1 + j]);
                        assert(cuts.skip(k)[j + 1] == cuts[k + 1 + j]);
                        assert(cuts.skip(k)[j + 1] == (seq![i as int] + rest)[j + 1]);
                    }
                    assert(cuts.skip(k + 1) =~= rest);
                }
            }
            i += 1;
        }
        let ghost k = segments@.len() as int;
        proof {
            assert(cut_list_from(nodes, junctions, i as int) =~= Seq::<int>::empty());
            assert(cuts.skip(k).len() == 0);
            assert(k == cuts.len());
        }
        let run = copy_range(&self.node_ids, start, n);
        proof {
            assert(run@ == segment_at(nodes, cuts, k));
        }
        segments.push(RailwaySegment { name: self.name, way_id: self.way_id, node_ids: run });
        segments
    }
}

/// The number of positions at or after position `i`, other than the first
/// position, that hold a junction node.
pub open spec fn split_positions_from(nodes: Seq<i64>, junctions: Set<i64>, i: int) -> nat
    decreases nodes.len() - i,
{
    if i >= nodes.len() {
        0
    } else if i >= 1 && junctions.contains(nodes[i]) {
        1 + split_positions_from(nodes, junctions, i + 1)
    } else {
        split_positions_from(nodes, junctions, i + 1)
    }
}

/// The number of positions after the first that hold a junction node.
pub open spec fn num_split_positions(nodes: Seq<i64>, junctions: Set<i64>) -> nat {
    split_positions_from(nodes, junctions, 1)
}

proof fn lemma_cuts_count_from(nodes: Seq<i64>, junctions: Set<i64>, i: int)
    requires
        1 <= i,
        nodes.len() < 2 || !junctions.contains(nodes[nodes.len() - 1]),
    ensures
        cut_list_from(nodes, junctions, i).len() == split_positions_from(nodes, junctions, i),
    decreases nodes.len() - i,
{
    if i >= nodes.len() - 1 {
        if i < nodes.len() {
            assert(i == nodes.len() - 1 && i >= 1);
            assert(split_positions_from(nodes, junctions, i + 1) == 0);
        }
    } else {
        lemma_cuts_count_from(nodes, junctions, i + 1);
    }
}

/// Split count: a way produces exactly one more segment than it has junction
/// positions after its first node.
///
/// This requires that the way's last node is not itself a junction: a
/// junction in the last position closes the final run exactly where it would
/// have ended anyway, so it adds no segment.
pub proof fn lemma_split_count(nodes: Seq<i64>, junctions: Set<i64>)
    requires
        nodes.len() < 2 || !junctions.contains(nodes[nodes.len() - 1]),
    ensures
        way_segments(nodes, junctions).len() == 1 + num_split_positions(nodes, junctions),
{
    lemma_cuts_count_from(nodes, junctions, 1);
}

/// The segments' node lists from segment `j` on, each stripped of its first
/// node, concatenated.
pub open spec fn glue_from(segs: Seq<Seq<i64>>, j: int) -> Seq<i64>
    decreases segs.len() - j,
{
    if j >= segs.len() {
        Seq::empty()
    } else {
        segs[j].skip(1) + glue_from(segs, j + 1)
    }
}

/// The segments' node lists concatenated, dropping the duplicated boundary
/// node at the head of every segment but the first.
pub open spec fn glue(segs: Seq<Seq<i64>>) -> Seq<i64> {
    if segs.len() == 0 {
        Seq::empty()
    } else {
        segs[0] + glue_from(segs, 1)
    }
}

proof fn lemma_glue_from(nodes: Seq<i64>, junctions: Set<i64>, j: int)
    requires
        1 <= j <= way_segments(nodes, junctions).len(),
    ensures
        glue_from(way_segments(nodes, junctions), j) == nodes.subrange(
            if j == way_segments(nodes, junctions).len() {
                nodes.len() as int
            } else {
                cut_list(nodes, junctions)[j - 1] + 1
            },
            nodes.len() as int,
        ),
    decreases way_segments(nodes, junctions).len() - j,
{
    let segs = way_segments(nodes, junctions);
    let cuts = cut_list(nodes, junctions);
    lemma_cut_list_from_ok(nodes, junctions, 1);
    if j == segs.len() {
        assert(nodes.subrange(nodes.len() as int, nodes.len() as int) =~= Seq::<i64>::empty());
    } else {
        lemma_glue_from(nodes, junctions, j + 1);
        let lo = cuts[j - 1];
        let hi: int = if j == cuts.len() {
            nodes.len() as int
        } else {
            cuts[j] + 1
        };
        assert(segs[j] == segment_at(nodes, cuts, j));
        assert(segs[j].skip(1) =~= nodes.subrange(lo + 1, hi));
        assert(glue_from(segs, j + 1) == nodes.subrange(hi, nodes.len() as int));
        assert(nodes.subrange(lo + 1, hi) + nodes.subrange(hi, nodes.len() as int) =~= nodes
            .subrange(lo + 1, nodes.len() as int));
    }
}

/// Reconstruction: concatenating a way's segments' node lists, after dropping
/// the first node of every segment except the first, yields exactly the way's
/// original node list.
pub proof fn lemma_reconstruction(nodes: Seq<i64>, junctions: Set<i64>)
    ensures
        glue(way_segments(nodes, junctions)) == nodes,
{
    let segs = way_segments(nodes, junctions);
    let cuts = cut_list(nodes, junctions);
    lemma_cut_list_from_ok(nodes, junctions, 1);
    lemma_glue_from(nodes, junctions, 1);
    assert(segs[0] == segment_at(nodes, cuts, 0));
    assert(glue(segs) =~= nodes);
}

proof fn lemma_cut_list_from_empty(nodes: Seq<i64>, junctions: Set<i64>, i: int)
    requires
        1 <= i,
        forall|c: int| 1 <= c < nodes.len() ==> !junctions.contains(#[trigger] nodes[c]),
    ensures
        cut_list_from(nodes, junctions, i).len() == 0,
    decreases nodes.len() - i,
{
    if i < nodes.len() - 1 {
        lemma_cut_list_from_empty(nodes, junctions, i + 1);
    }
}

/// No-junction pass-through: a way that shares no node identifier with any
/// other way of the collection and repeats none of its own nodes is
/// segmented, at the collection's own junction set, into exactly one segment
/// identical to the way itself.
pub proof fn lemma_no_junction_pass_through(ways: Seq<OsmRailway>, w: int)
    requires
        0 <= w < ways.len(),
        forall|m: int, q: int|
            0 <= m < ways.len() && m != w && 0 <= q < node_lists(ways)[w].len() ==> count_id(
                #[trigger] node_lists(ways)[m],
                #[trigger] node_lists(ways)[w][q],
            ) == 0,
        forall|q: int|
            0 <= q < node_lists(ways)[w].len() ==> count_id(
                node_lists(ways)[w],
                #[trigger] node_lists(ways)[w][q],
            ) == 1,
    ensures
        way_segments(ways[w].node_ids@, junction_set(node_lists(ways))).len() == 1,
        way_segments(ways[w].node_ids@, junction_set(node_lists(ways)))[0] == ways[w].node_ids@,
{
    let lists = node_lists(ways);
    let nodes = lists[w];
    let junctions = junction_set(lists);
    assert(nodes == ways[w].node_ids@);
    assert forall|c: int| 1 <= c < nodes.len() implies !junctions.contains(
        #[trigger] nodes[c],
    ) by {
        assert forall|m: int| 0 <= m < lists.len() && m != w implies count_id(
            #[trigger] lists[m],
            nodes[c],
        ) == 0 by {
            assert(count_id(lists[m], lists[w][c]) == 0);
        }
        lemma_usage_only(lists, w, nodes[c]);
        assert(usage_count(lists, nodes[c]) == 1);
    }
    lemma_cut_list_from_empty(nodes, junctions, 1);
    assert(way_segments(nodes, junctions)[0] =~= nodes);
}

/// Segments introduce no new identifiers: every node of every segment stands
/// in the parent way's node list.
pub proof fn lemma_segments_no_new_ids(nodes: Seq<i64>, junctions: Set<i64>, j: int, p: int)
    requires
        0 <= j < way_segments(nodes, junctions).len(),
        0 <= p < way_segments(nodes, junctions)[j].len(),
    ensures
        nodes.contains(way_segments(nodes, junctions)[j][p]),
{
    lemma_cut_list_from_ok(nodes, junctions, 1);
    let segs = way_segments(nodes, junctions);
    let cuts = cut_list(nodes, junctions);
    let start: int = if j == 0 {
        0
    } else {
        cuts[j - 1]
    };
    assert(segs[j] == segment_at(nodes, cuts, j));
    assert(segs[j][p] == nodes[start + p]);
    assert(nodes.contains(segs[j][p])) by {
        assert(nodes[start + p] == segs[j][p]);
    }
}

/// Connectivity is preserved across every cut: at each split boundary the
/// junction node is the last node of one segment and the first node of the
/// next.
pub proof fn lemma_adjacent_overlap(nodes: Seq<i64>, junctions: Set<i64>, j: int)
    requires
        0 <= j < way_segments(nodes, junctions).len() - 1,
    ensures
        way_segments(nodes, junctions)[j].len() >= 2,
        way_segments(nodes, junctions)[j].last() == way_segments(nodes, junctions)[j + 1][0],
        junctions.contains(way_segments(nodes, junctions)[j].last()),
{
    lemma_cut_list_from_ok(nodes, junctions, 1);
    lemma_cut_list_from_junctions(nodes, junctions, 1);
    let segs = way_segments(nodes, junctions);
    let cuts = cut_list(nodes, junctions);
    assert(segs[j] == segment_at(nodes, cuts, j));
    assert(segs[j + 1] == segment_at(nodes, cuts, j + 1));
    assert(segs[j].last() == nodes[cuts[j]]);
    assert(segs[j + 1][0] == nodes[cuts[j]]);
}

/// The records of one way's segments: the way's identifier and name beside
/// each segment's node list.
pub open spec fn way_records(w: OsmRailway, junctions: Set<i64>) -> Seq<(i64, Seq<char>, Seq<i64>)> {
    way_segments(w.node_ids@, junctions).map_values(|ns: Seq<i64>| (w.way_id, w.name@, ns))
}

/// The records of all ways' segments, way by way in order.
pub open spec fn segment_records(ways: Seq<OsmRailway>, junctions: Set<i64>) -> Seq<
    (i64, Seq<char>, Seq<i64>),
>
    decreases ways.len(),
{
    if ways.len() == 0 {
        Seq::empty()
    } else {
        segment_records(ways.drop_last(), junctions) + way_records(ways.last(), junctions)
    }
}

pub proof fn lemma_segment_records_take_succ(ways: Seq<OsmRailway>, junctions: Set<i64>, i: int)
    requires
        0 <= i < ways.len(),
    ensures
        segment_records(ways.take(i + 1), junctions) == segment_records(ways.take(i), junctions)
            + way_records(ways[i], junctions),
{
    assert(ways.take(i + 1).drop_last() =~= ways.take(i));
    assert(ways.take(i + 1).last() == ways[i]);
}

/// Segments the whole way collection, consuming it.
///
/// The junction set is derived from the collection's own usage counts, and
/// every way is split at it; the result lists each way's segments in order,
/// way by way. The bound on the total number of node references lets the
/// usage counts be held in 64-bit signed counters.
pub fn segment_railways(railways: Vec<OsmRailway>) -> (r: Vec<RailwaySegment>)
    requires
        total_refs(node_lists(railways@)) <= i64::MAX,
    ensures
        r@.len() == segment_records(railways@, junction_set(node_lists(railways@))).len(),
        forall|x: int|
            0 <= x < r@.len() ==> {
                let rec = segment_records(railways@, junction_set(node_lists(railways@)))[x];
                &&& (#[trigger] r@[x]).way_id == rec.0
                &&& r@[x].name@ == rec.1
                &&& r@[x].node_ids@ == rec.2
            },
{
    let ghost ways0 = railways@;
    let ghost lists = node_lists(railways@);
    let ghost junctions = junction_set(lists);
    let counts = OsmRailway::get_used_node_counts(&railways);
    let mut intersections: HashSet<i64> = HashSet::new();
    let mut i: usize = 0;
    while i < railways.len()
        invariant
            lists == node_lists(railways@),
            total_refs(lists) <= i64::MAX,
            i <= railways@.len(),
            lists.len() == railways@.len(),
            forall|id: i64| #[trigger] counts@.contains_key(id) <==> usage_count(lists, id) > 0,
            forall|id: i64|
                #[trigger] counts@.contains_key(id) ==> counts@[id] == usage_count(
                    lists,
                    id,
                ) as i64,
            forall|id: i64| intersections@.contains(id) ==> is_junction(lists, id),
            forall|i0: int, j0: int|
                0 <= i0 < i && 0 <= j0 < lists[i0].len() && is_junction(
                    lists,
                    #[trigger] lists[i0][j0],
                ) ==> intersections@.contains(lists[i0][j0]),
        decreases railways@.len() - i,
    {
        let way_nodes = &railways[i].node_ids;
        let ghost nodes = lists[i as int];
        let mut j: usize = 0;
        while j < way_nodes.len()
            invariant
                lists == node_lists(railways@),
                total_refs(lists) <= i64::MAX,
                i < railways@.len(),
                lists.len() == railways@.len(),
                nodes == lists[i as int],
                nodes == way_nodes@,
                way_nodes == &railways@[i as int].node_ids,
                j <= nodes.len(),
                forall|id: i64| #[trigger] counts@.contains_key(id) <==> usage_count(lists, id) > 0,
                forall|id: i64|
                    #[trigger] counts@.contains_key(id) ==> counts@[id] == usage_count(
                        lists,
                        id,
                    ) as i64,
                forall|id: i64| intersections@.contains(id) ==> is_junction(lists, id),
                forall|i0: int, j0: int|
                    0 <= i0 < lists.len() && 0 <= j0 < lists[i0].len() && (i0 < i || (i0 == i && j0
                        < j)) && is_junction(lists, #[trigger] lists[i0][j0])
                        ==> intersections@.contains(lists[i0][j0]),
            decreases nodes.len() - j,
        {
            let id = way_nodes[j];
            proof {
                lemma_count_id_take_succ(nodes, j as int, id);
                lemma_count_id_take_le(nodes, j as int + 1, id);
                lemma_usage_take_succ(lists, i as int, id);
                lemma_usage_take_le(lists, i as int + 1, id);
                lemma_usage_le_total(lists, id);
            }
            let c: i64 = match counts.get(&id) {
                Some(c) => *c,
                None => 0,
            };
            if c > 1 {
                intersections.insert(id);
            }
            j += 1;
        }
        i += 1;
    }
    proof {
        assert forall|id: i64| junctions.contains(id) implies intersections@.contains(id) by {
            lemma_usage_pos(lists, id);
            let (i0, j0) = choose|i0: int, j0: int|
                0 <= i0 < lists.len() && 0 <= j0 < lists[i0].len() && #[trigger] lists[i0][j0]
                    == id;
            assert(is_junction(lists, lists[i0][j0]));
        }
        assert forall|id: i64| intersections@.contains(id) implies junctions.contains(id) by {
            assert(is_junction(lists, id));
        }
        assert(intersections@ =~= junctions);
    }
    let mut remaining = railways;
    let mut segments: Vec<RailwaySegment> = Vec::new();
    let ghost mut k: int = 0;
    proof {
        assert(remaining@ =~= ways0.skip(0));
    }
    while remaining.len() > 0
        invariant
            intersections@ == junctions,
            0 <= k <= ways0.len(),
            remaining@ == ways0.skip(k),
            segments@.len() == segment_records(ways0.take(k), junctions).len(),
            forall|x: int|
                0 <= x < segments@.len() ==> {
                    let rec = segment_records(ways0.take(k), junctions)[x];
                    &&& (#[trigger] segments@[x]).way_id == rec.0
                    &&& segments@[x].name@ == rec.1
                    &&& segments@[x].node_ids@ == rec.2
                },
        decreases remaining@.len(),
    {
        let way = remaining.remove(0);
        proof {
            assert(ways0.skip(k)[0] == ways0[k]);
            assert(remaining@ =~= ways0.skip(k + 1));
        }
        let mut segs = way.to_railway_segments(&intersections);
        proof {
            lemma_segment_records_take_succ(ways0, junctions, k);
        }
        segments.append(&mut segs);
        proof {
            k = k + 1;
        }
    }
    proof {
        assert(ways0.take(k) =~= ways0);
    }
    segments
}

} // verus!
