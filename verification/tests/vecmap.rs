use ferrosearch::vecmap::VecMap;

#[test]
fn preserves_insertion_order_through_updates_and_removals() {
    let mut map: VecMap<u32, u32> = VecMap::default();
    *map.get_or_insert_with(3, || 0) += 1;
    *map.get_or_insert_with(1, || 0) += 1;
    *map.get_or_insert_with(3, || 0) += 1;
    map.insert(2, 10);
    assert_eq!(map.len(), 3);
    assert_eq!(map.get(3), Some(&2));

    map.insert(3, 5);
    let order: Vec<u32> = map.iter().map(|&(key, _)| key).collect();
    assert_eq!(order, vec![3, 1, 2], "replacement keeps position");

    assert_eq!(map.remove(1), Some(1));
    assert_eq!(map.remove(1), None);
    let order: Vec<u32> = map.iter().map(|&(key, _)| key).collect();
    assert_eq!(order, vec![3, 2], "removal preserves order");
    assert!(!map.is_empty());
}

#[test]
fn get_mut_changes_only_that_entry() {
    let mut map: VecMap<u32, u32> = VecMap::default();
    map.insert(7, 1);
    map.insert(8, 2);
    if let Some(value) = map.get_mut(8) {
        *value = 20;
    }
    assert!(map.get_mut(9).is_none());
    let entries: Vec<(u32, u32)> = map.iter().copied().collect();
    assert_eq!(entries, vec![(7, 1), (8, 20)]);
}

#[test]
fn empty_map() {
    let map: VecMap<u32, u32> = VecMap::default();
    assert!(map.is_empty());
    assert_eq!(map.len(), 0);
    assert_eq!(map.get(0), None);
}

#[test]
fn from_pairs_matches_sequential_insert() {
    let pairs = [(3u32, 1u32), (1, 2), (3, 5), (2, 10), (1, 7)];

    let mut sequential: VecMap<u32, u32> = VecMap::default();
    for &(key, value) in &pairs {
        sequential.insert(key, value);
    }
    let bulk = VecMap::from_pairs_last_wins(pairs.to_vec());

    let seq: Vec<(u32, u32)> = sequential.iter().copied().collect();
    let blk: Vec<(u32, u32)> = bulk.iter().copied().collect();
    assert_eq!(blk, seq, "first position, last value");
    assert_eq!(blk, vec![(3, 5), (1, 7), (2, 10)]);
}

#[test]
fn from_pairs_of_nothing_is_empty() {
    let bulk: VecMap<u32, u32> = VecMap::from_pairs_last_wins(Vec::new());
    assert!(bulk.is_empty());
}
