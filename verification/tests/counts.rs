use osm2rail::OsmRailway;
use osm2rail::TagMap;

fn railway(name: &str, way_id: i64, node_ids: Vec<i64>) -> OsmRailway {
    OsmRailway { name: name.to_string(), way_id, node_ids, tags: TagMap::new() }
}

#[test]
fn usage_counts_across_ways() {
    let railways = vec![
        railway("way 1", 1, vec![1, 2, 3, 6, 8, 9]),
        railway("way 2", 2, vec![2, 3]),
        railway("way 3", 3, vec![4, 5, 6, 7]),
    ];
    let counts = OsmRailway::get_used_node_counts(&railways);
    assert_eq!(counts.get(&2), Some(&2));
    assert_eq!(counts.get(&3), Some(&2));
    assert_eq!(counts.get(&6), Some(&2));
    for id in [1, 4, 5, 7, 8, 9] {
        assert_eq!(counts.get(&id), Some(&1), "node {id}");
    }
    assert_eq!(counts.get(&100), None);
    assert_eq!(counts.len(), 9);
}

#[test]
fn usage_counts_count_repeats_within_one_way() {
    let railways = vec![railway("loop", 1, vec![1, 2, 1])];
    let counts = OsmRailway::get_used_node_counts(&railways);
    assert_eq!(counts.get(&1), Some(&2));
    assert_eq!(counts.get(&2), Some(&1));
}

#[test]
fn usage_counts_of_nothing() {
    let railways: Vec<OsmRailway> = Vec::new();
    let counts = OsmRailway::get_used_node_counts(&railways);
    assert!(counts.is_empty());
}
