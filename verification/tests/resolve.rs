use osm2rail::RailwaySegment;
use std::collections::HashSet;

fn segment(node_ids: Vec<i64>) -> RailwaySegment {
    RailwaySegment { name: "seg".to_string(), way_id: 1, node_ids }
}

#[test]
fn unresolved_trailing_node_leaves_one_point() {
    // A segment [1, 2] where node 2 is absent from the node store and node 1
    // is present: only one resolved node, so the polyline has no pair and
    // its distance is zero.
    let seg = segment(vec![1, 2]);
    let known: HashSet<i64> = HashSet::from([1]);
    let resolved = seg.resolved_node_ids(&known);
    assert_eq!(resolved, vec![1]);
    assert!(resolved.len() < 2);
}

#[test]
fn unresolved_interior_node_is_dropped_silently() {
    let seg = segment(vec![1, 2, 3, 4]);
    let known: HashSet<i64> = HashSet::from([1, 3, 4]);
    assert_eq!(seg.resolved_node_ids(&known), vec![1, 3, 4]);
}

#[test]
fn nothing_resolved() {
    let seg = segment(vec![1, 2]);
    let known: HashSet<i64> = HashSet::new();
    assert_eq!(seg.resolved_node_ids(&known), Vec::<i64>::new());
}

#[test]
fn growing_the_store_refines_the_polyline() {
    // The polyline under the smaller store is the larger store's polyline
    // with the still-unknown identifiers dropped.
    let seg = segment(vec![1, 2, 3, 2]);
    let small: HashSet<i64> = HashSet::from([1, 2]);
    let large: HashSet<i64> = HashSet::from([1, 2, 3]);
    let coarse = seg.resolved_node_ids(&small);
    let fine = seg.resolved_node_ids(&large);
    assert_eq!(coarse, vec![1, 2, 2]);
    assert_eq!(fine, vec![1, 2, 3, 2]);
    let refined: Vec<i64> = fine.iter().copied().filter(|id| small.contains(id)).collect();
    assert_eq!(refined, coarse);
}
