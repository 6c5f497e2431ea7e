//! The railway data model: ways as recorded in the source map data, and the
//! segments they are split into.

use crate::tags::HasTags;
use crate::tags::TagMap;
use vstd::prelude::*;

verus! {

/// A railway way as recorded in the source map data: a named, ordered path
/// through a sequence of node identifiers, with its descriptive tags.
pub struct OsmRailway {
    /// Display name; the stringified way identifier when no name tag exists.
    pub name: String,
    /// The way's identifier in the source data.
    pub way_id: i64,
    /// The ordered node identifiers that make up this way.
    pub node_ids: Vec<i64>,
    /// Descriptive tags.
    pub tags: TagMap,
}

/// A piece of a way after segmentation: a contiguous run of the parent way's
/// node sequence between junction boundaries, inheriting the parent's
/// identifier and name.
#[derive(Debug)]
pub struct RailwaySegment {
    /// Name inherited from the parent way.
    pub name: String,
    /// Identifier inherited from the parent way.
    pub way_id: i64,
    /// The ordered node identifiers of this segment.
    pub node_ids: Vec<i64>,
}

impl HasTags for OsmRailway {
    open spec fn spec_tags(&self) -> Map<Seq<char>, Seq<char>> {
        self.tags@
    }

    open spec fn tags_wf(&self) -> bool {
        self.tags.wf()
    }

    fn tags(&self) -> (t: &TagMap) {
        &self.tags
    }
}

/// The sum of the first `i` deltas: the node identifier that the `i`-th
/// delta-encoded reference denotes (counting from 1).
pub open spec fn delta_sum(deltas: Seq<i64>, i: int) -> int
    decreases i,
{
    if i <= 0 {
        0
    } else {
        delta_sum(deltas, i - 1) + deltas[i - 1]
    }
}

/// Decodes a way's delta-encoded node references: each node identifier is the
/// sum of all deltas up to and including its own. Returns `None` when some
/// partial sum leaves the 64-bit signed range, which well-formed source data
/// never produces.
pub fn decode_node_refs(deltas: &Vec<i64>) -> (r: Option<Vec<i64>>)
    ensures
        match r {
            Some(ids) => {
                &&& forall|i: int|
                    1 <= i <= deltas@.len() ==> i64::MIN <= #[trigger] delta_sum(deltas@, i)
                        <= i64::MAX
                &&& ids@.len() == deltas@.len()
                &&& forall|i: int| 0 <= i < ids@.len() ==> ids@[i] == delta_sum(deltas@, i + 1)
            },
            None => exists|i: int|
                1 <= i <= deltas@.len() && !(i64::MIN <= #[trigger] delta_sum(deltas@, i)
                    <= i64::MAX),
        },
{
    let mut ids: Vec<i64> = Vec::new();
    let mut acc: i64 = 0;
    let mut i: usize = 0;
    while i < deltas.len()
        invariant
            i <= deltas@.len(),
            ids@.len() == i,
            acc == delta_sum(deltas@, i as int),
            forall|j: int| 0 <= j < i ==> ids@[j] == delta_sum(deltas@, j + 1),
            forall|j: int|
                1 <= j <= i ==> i64::MIN <= #[trigger] delta_sum(deltas@, j) <= i64::MAX,
        decreases deltas@.len() - i,
    {
        match acc.checked_add(deltas[i]) {
            Some(next) => {
                acc = next;
                ids.push(next);
                i += 1;
            },
            None => {
                assert(delta_sum(deltas@, i + 1) == acc + deltas@[i as int]);
                return None;
            },
        }
    }
    Some(ids)
}

} // verus!
