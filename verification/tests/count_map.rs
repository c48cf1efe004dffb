use dataflow_progress::count_map::CountMap;

fn net(entries: &[(u64, i64)], time: u64) -> i64 {
    entries.iter().filter(|entry| entry.0 == time).map(|entry| entry.1).sum()
}

#[test]
fn new_map_is_empty() {
    let map: CountMap<u64> = CountMap::new();
    assert!(map.is_empty());
    assert_eq!(map.len(), 0);
}

#[test]
fn record_appends_in_order() {
    let mut map: CountMap<u64> = CountMap::new();
    map.record(5, 3);
    map.record(4, -1);
    map.record(5, 2);
    assert!(!map.is_empty());
    assert_eq!(map.len(), 3);
    assert_eq!(map.drain(), vec![(5, 3), (4, -1), (5, 2)]);
}

#[test]
fn drain_empties_the_map() {
    let mut map: CountMap<u64> = CountMap::new();
    map.record(1, 1);
    assert_eq!(map.drain(), vec![(1, 1)]);
    assert!(map.is_empty());
    assert_eq!(map.drain(), Vec::<(u64, i64)>::new());
}

#[test]
fn drain_into_appends_after_what_is_there() {
    let mut map: CountMap<u64> = CountMap::new();
    map.record(2, 7);
    map.record(3, 8);
    let mut out = vec![(9, 9)];
    map.drain_into(&mut out);
    assert_eq!(out, vec![(9, 9), (2, 7), (3, 8)]);
    assert!(map.is_empty());
    map.drain_into(&mut out);
    assert_eq!(out, vec![(9, 9), (2, 7), (3, 8)]);
}

#[test]
fn equal_timestamps_are_not_merged() {
    let mut map: CountMap<u64> = CountMap::new();
    map.record(6, 1);
    map.record(6, 1);
    assert_eq!(map.drain(), vec![(6, 1), (6, 1)]);
}

#[test]
fn plus_k_then_minus_k_cancels() {
    let mut map: CountMap<u64> = CountMap::new();
    map.record(3, 4);
    map.record(8, 5);
    map.record(8, -5);
    let drained = map.drain();
    assert_eq!(net(&drained, 8), 0);
    assert_eq!(net(&drained, 3), 4);
    assert_eq!(drained, vec![(3, 4), (8, 5), (8, -5)]);
}

#[test]
fn deltas_at_one_timestamp_add_up() {
    let mut map: CountMap<u64> = CountMap::new();
    map.record(1, 3);
    map.record(2, 10);
    map.record(1, 4);
    let drained = map.drain();
    assert_eq!(net(&drained, 1), 7);
    assert_eq!(net(&drained, 2), 10);
    assert_eq!(net(&drained, 3), 0);
}

#[test]
fn extreme_deltas_are_kept() {
    let mut map: CountMap<u64> = CountMap::new();
    map.record(u64::MAX, i64::MAX);
    map.record(0, i64::MIN);
    assert_eq!(map.drain(), vec![(u64::MAX, i64::MAX), (0, i64::MIN)]);
}
