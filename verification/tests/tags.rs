use osm2rail::get_used_tags;
use osm2rail::OsmRailway;
use osm2rail::TagMap;
use osm2rail::TagTable;

fn tagged(way_id: i64, tags: &[(&str, &str)]) -> OsmRailway {
    let mut tm = TagMap::new();
    for (k, v) in tags {
        tm.insert(k.to_string(), v.to_string());
    }
    OsmRailway { name: format!("way {way_id}"), way_id, node_ids: Vec::new(), tags: tm }
}

fn count_of(table: &TagTable, k: &str, v: &str) -> Option<i64> {
    table.get(&k.to_string()).and_then(|vc| vc.get(&v.to_string()))
}

fn table_pairs(table: &TagTable) -> Vec<(String, String, i64)> {
    let mut out = Vec::new();
    for i in 0..table.num_entries() {
        let row = table.entry(i);
        for j in 0..row.1.num_entries() {
            let e = row.1.entry(j);
            out.push((row.0.clone(), e.0.clone(), e.1));
        }
    }
    out.sort();
    out
}

#[test]
fn counts_keys_and_values() {
    let railways = vec![
        tagged(1, &[("railway", "rail"), ("gauge", "1435")]),
        tagged(2, &[("railway", "rail")]),
        tagged(3, &[("railway", "abandoned"), ("gauge", "1435")]),
    ];
    let table = get_used_tags(&railways, None);
    assert_eq!(count_of(&table, "railway", "rail"), Some(2));
    assert_eq!(count_of(&table, "railway", "abandoned"), Some(1));
    assert_eq!(count_of(&table, "gauge", "1435"), Some(2));
    assert_eq!(count_of(&table, "gauge", "1000"), None);
    assert!(table.get(&"name".to_string()).is_none());
}

#[test]
fn later_tag_value_wins_within_one_element() {
    // A tag mapping holds one value per key, so re-inserting a key replaces
    // its value and the aggregator sees only the last one.
    let mut tm = TagMap::new();
    tm.insert("railway".to_string(), "rail".to_string());
    tm.insert("railway".to_string(), "tram".to_string());
    let railways =
        vec![OsmRailway { name: "w".to_string(), way_id: 1, node_ids: Vec::new(), tags: tm }];
    let table = get_used_tags(&railways, None);
    assert_eq!(count_of(&table, "railway", "tram"), Some(1));
    assert_eq!(count_of(&table, "railway", "rail"), None);
}

#[test]
fn threshold_prunes_rare_pairs_and_empty_keys() {
    let railways = vec![
        tagged(1, &[("railway", "rail"), ("electrified", "no")]),
        tagged(2, &[("railway", "rail")]),
        tagged(3, &[("railway", "rail")]),
    ];
    let table = get_used_tags(&railways, Some(2));
    assert_eq!(count_of(&table, "railway", "rail"), Some(3));
    // "electrified" had only one use, so the value and then the whole key
    // disappear.
    assert!(table.get(&"electrified".to_string()).is_none());
    assert_eq!(table.num_entries(), 1);
}

#[test]
fn threshold_of_zero_keeps_everything() {
    let railways = vec![tagged(1, &[("railway", "rail")])];
    let with = get_used_tags(&railways, Some(0));
    let without = get_used_tags(&railways, None);
    assert_eq!(table_pairs(&with), table_pairs(&without));
}

#[test]
fn filtering_twice_is_filtering_once() {
    // Re-running the filter over already filtered output with the same
    // threshold changes nothing.
    let railways = vec![
        tagged(1, &[("railway", "rail"), ("gauge", "1435")]),
        tagged(2, &[("railway", "rail"), ("gauge", "1000")]),
        tagged(3, &[("railway", "tram")]),
    ];
    let once = get_used_tags(&railways, Some(2));
    let twice = once.pruned(2);
    assert_eq!(table_pairs(&once), table_pairs(&twice));
    assert_eq!(count_of(&once, "railway", "rail"), Some(2));
    assert_eq!(count_of(&once, "railway", "tram"), None);
    assert!(once.get(&"gauge".to_string()).is_none());
}

#[test]
fn empty_elements_give_empty_table() {
    let railways: Vec<OsmRailway> = Vec::new();
    let table = get_used_tags(&railways, None);
    assert_eq!(table.num_entries(), 0);
}
