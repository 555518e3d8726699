use srb_tree::tree::map::SrbTreeMap;

#[test]
fn test_map_insert_get_remove_round_trip() {
    let mut map: SrbTreeMap<u32, &str> = SrbTreeMap::new();
    assert!(map.insert(7, "seven").is_none());
    assert_eq!(map.get(&7), Some((&7, &"seven")));
    assert_eq!(map.remove(&7), Some((7, "seven")));
    assert_eq!(map.get(&7), None);
}

#[test]
fn test_map_replace_keeps_one_entry() {
    let mut map: SrbTreeMap<u32, u32> = SrbTreeMap::new();
    assert_eq!(map.insert(5, 50), None);
    assert_eq!(map.insert(5, 55), Some((5, 50)));
    assert_eq!(map.get(&5), Some((&5, &55)));
    assert_eq!(map.remove(&5), Some((5, 55)));
    assert_eq!(map.remove(&5), None);
}

#[test]
fn test_map_first_last() {
    let mut map: SrbTreeMap<u64, char> = SrbTreeMap::new();
    assert_eq!(map.first(), None);
    assert_eq!(map.last(), None);
    map.insert(300, 'c');
    map.insert(2, 'a');
    map.insert(77, 'b');
    assert_eq!(map.first(), Some((&2, &'a')));
    assert_eq!(map.last(), Some((&300, &'c')));
    map.remove(&2);
    assert_eq!(map.first(), Some((&77, &'b')));
}

#[test]
fn test_map_singleton_first_equals_last() {
    let mut map: SrbTreeMap<u32, u8> = SrbTreeMap::new();
    map.insert(9000, 1);
    assert_eq!(map.first(), map.last());
    assert_eq!(map.first(), Some((&9000, &1)));
}

#[test]
fn test_map_distinct_keys_survive() {
    let mut map: SrbTreeMap<u16, u16> = SrbTreeMap::new();
    let keys = [0u16, 1, 31, 32, 33, 1023, 1024, 65535];
    for k in keys {
        assert!(map.insert(k, k.wrapping_mul(3)).is_none());
    }
    for k in keys {
        assert_eq!(map.get(&k), Some((&k, &k.wrapping_mul(3))));
    }
    for k in keys {
        assert_eq!(map.remove(&k), Some((k, k.wrapping_mul(3))));
        assert_eq!(map.get(&k), None);
    }
}

#[test]
fn test_map_extend_and_from_entries() {
    let mut map: SrbTreeMap<u32, u32> = SrbTreeMap::new();
    map.extend(vec![(1, 10), (2, 20), (1, 11)]);
    // the later pair for key 1 overwrote the earlier one
    assert_eq!(map.get(&1), Some((&1, &11)));
    assert_eq!(map.get(&2), Some((&2, &20)));

    let built = SrbTreeMap::from_entries(vec![(4u32, 40u32), (3, 30)]);
    assert_eq!(built.first(), Some((&3, &30)));
    assert_eq!(built.last(), Some((&4, &40)));
}
