use osm2rail::segment_railways;
use osm2rail::OsmRailway;
use osm2rail::TagMap;

fn railway(name: &str, way_id: i64, node_ids: Vec<i64>) -> OsmRailway {
    OsmRailway { name: name.to_string(), way_id, node_ids, tags: TagMap::new() }
}

#[test]
fn test_segment_railways() {
    // Given a simple vec of railways, break it up
    let railways = Vec::from([
        OsmRailway {
            name: "way 1".to_string(),
            way_id: 1,
            node_ids: Vec::from([1, 2, 3, 6, 8, 9]),
            tags: TagMap::new(),
        },
        OsmRailway {
            name: "way 2".to_string(),
            way_id: 2,
            node_ids: [2, 3].to_vec(),
            tags: TagMap::new(),
        },
        OsmRailway {
            name: "way 3".to_string(),
            way_id: 3,
            node_ids: [4, 5, 6, 7].to_vec(),
            tags: TagMap::new(),
        },
    ]);

    let segmented_railways = segment_railways(railways);

    assert_eq!(7, segmented_railways.len(), "{:?}", segmented_railways);
}

#[test]
fn segment_node_lists_and_inheritance() {
    let railways = vec![
        railway("way 1", 1, vec![1, 2, 3, 6, 8, 9]),
        railway("way 2", 2, vec![2, 3]),
        railway("way 3", 3, vec![4, 5, 6, 7]),
    ];

    let segments = segment_railways(railways);

    let expected: Vec<(i64, &str, Vec<i64>)> = vec![
        (1, "way 1", vec![1, 2]),
        (1, "way 1", vec![2, 3]),
        (1, "way 1", vec![3, 6]),
        (1, "way 1", vec![6, 8, 9]),
        (2, "way 2", vec![2, 3]),
        (3, "way 3", vec![4, 5, 6]),
        (3, "way 3", vec![6, 7]),
    ];
    assert_eq!(segments.len(), expected.len());
    for (seg, (way_id, name, node_ids)) in segments.iter().zip(expected.iter()) {
        assert_eq!(seg.way_id, *way_id);
        assert_eq!(seg.name, *name);
        assert_eq!(seg.node_ids, *node_ids);
    }
}

#[test]
fn lone_way_passes_through() {
    // No identifier shared with another way and no internal repeats: one
    // segment, identical to the way.
    let railways = vec![railway("lone", 10, vec![11, 12, 13, 14])];
    let segments = segment_railways(railways);
    assert_eq!(segments.len(), 1);
    assert_eq!(segments[0].node_ids, vec![11, 12, 13, 14]);
    assert_eq!(segments[0].way_id, 10);
    assert_eq!(segments[0].name, "lone");
}

#[test]
fn empty_way_yields_one_empty_segment() {
    let railways = vec![railway("empty", 5, vec![])];
    let segments = segment_railways(railways);
    assert_eq!(segments.len(), 1);
    assert_eq!(segments[0].node_ids, Vec::<i64>::new());
}

#[test]
fn single_node_way_yields_itself() {
    let railways = vec![railway("dot", 6, vec![42])];
    let segments = segment_railways(railways);
    assert_eq!(segments.len(), 1);
    assert_eq!(segments[0].node_ids, vec![42]);
}

#[test]
fn loop_node_forces_split() {
    // A node used twice within one way counts twice, so it is a junction
    // even with no other way involved.
    let railways = vec![railway("loop", 7, vec![1, 2, 1, 3])];
    let segments = segment_railways(railways);
    assert_eq!(segments.len(), 2);
    assert_eq!(segments[0].node_ids, vec![1, 2, 1]);
    assert_eq!(segments[1].node_ids, vec![1, 3]);
}

#[test]
fn trailing_junction_adds_no_segment() {
    // A junction in the last position closes the final run where it would
    // have ended anyway.
    let railways = vec![railway("a", 1, vec![1, 2]), railway("b", 2, vec![2, 3])];
    let segments = segment_railways(railways);
    assert_eq!(segments.len(), 2);
    assert_eq!(segments[0].node_ids, vec![1, 2]);
    assert_eq!(segments[1].node_ids, vec![2, 3]);
}

#[test]
fn reconstruction_after_dropping_overlap() {
    // Concatenating a way's segments, dropping the first node of every
    // segment but the first, yields the original node list.
    let original = vec![1, 2, 3, 6, 8, 9];
    let railways = vec![
        railway("way 1", 1, original.clone()),
        railway("way 2", 2, vec![2, 3]),
        railway("way 3", 3, vec![4, 5, 6, 7]),
    ];
    let segments = segment_railways(railways);
    let mut rebuilt: Vec<i64> = Vec::new();
    for seg in segments.iter().filter(|s| s.way_id == 1) {
        if rebuilt.is_empty() {
            rebuilt.extend_from_slice(&seg.node_ids);
        } else {
            rebuilt.extend_from_slice(&seg.node_ids[1..]);
        }
    }
    assert_eq!(rebuilt, original);
}

#[test]
fn split_count_matches_junction_positions() {
    // One more segment than junction positions after the first node, for a
    // way whose last node is not a junction.
    let railways = vec![
        railway("main", 1, vec![1, 2, 3, 6, 8, 9]),
        railway("side", 2, vec![2, 3, 6, 100]),
    ];
    let segments = segment_railways(railways);
    let main_count = segments.iter().filter(|s| s.way_id == 1).count();
    // positions 1, 2, 3 of way 1 hold junctions 2, 3, 6
    assert_eq!(main_count, 1 + 3);
}
