use osm2rail::decode_node_refs;

#[test]
fn decode_prefix_sums() {
    let deltas: Vec<i64> = vec![100, 1, 1, -2];
    assert_eq!(decode_node_refs(&deltas), Some(vec![100, 101, 102, 100]));
}

#[test]
fn decode_empty() {
    let deltas: Vec<i64> = Vec::new();
    assert_eq!(decode_node_refs(&deltas), Some(Vec::new()));
}

#[test]
fn decode_overflow_is_refused() {
    let deltas: Vec<i64> = vec![i64::MAX, 1];
    assert_eq!(decode_node_refs(&deltas), None);
}

#[test]
fn decode_underflow_is_refused() {
    let deltas: Vec<i64> = vec![i64::MIN, -1];
    assert_eq!(decode_node_refs(&deltas), None);
}
