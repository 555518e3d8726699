use srb_tree::tree::node::Node;
use srb_tree::tree::set::SrbTreeSet;

#[test]
fn test_set_insert_get_remove() {
    let mut set: SrbTreeSet<u64> = SrbTreeSet::new();
    assert_eq!(set.insert(1), None);
    assert_eq!(set.insert(32), None);
    assert_eq!(set.insert(2), None);
    assert_eq!(set.insert(7), None);
    assert_eq!(set.insert(1_128_369), None);

    // a member already present is replaced and handed back
    assert_eq!(set.insert(32), Some(32));

    assert_eq!(set.get(&32), Some(&32));
    assert_eq!(set.get(&6), None);

    // removing a value never inserted returns absent and leaves the
    // occupancy untouched
    let (_, occupied_before) = set.storage_util();
    assert_eq!(set.remove(&6), None);
    let (_, occupied_after) = set.storage_util();
    assert_eq!(occupied_before, occupied_after);
    assert_eq!(occupied_after, 5);

    assert_eq!(set.remove(&7), Some(7));
    let (_, occupied) = set.storage_util();
    assert_eq!(occupied, 4);
}

#[test]
fn test_set_occupancy_changes_by_one() {
    let mut set: SrbTreeSet<u32> = SrbTreeSet::new();
    assert_eq!(set.storage_util().1, 0);
    set.insert(10);
    assert_eq!(set.storage_util().1, 1);
    set.insert(11);
    assert_eq!(set.storage_util().1, 2);
    // replacing keeps the count
    set.insert(10);
    assert_eq!(set.storage_util().1, 2);
    set.remove(&10);
    assert_eq!(set.storage_util().1, 1);
}

#[test]
fn test_set_first_last() {
    let mut set: SrbTreeSet<u32> = SrbTreeSet::new();
    assert_eq!(set.first(), None);
    assert_eq!(set.last(), None);
    set.insert(500);
    set.insert(2);
    set.insert(100_000);
    assert_eq!(set.first(), Some(&2));
    assert_eq!(set.last(), Some(&100_000));
}

#[test]
fn test_set_storage_accounting() {
    let mut set: SrbTreeSet<u64> = SrbTreeSet::new();
    let empty_bytes = set.storage_bytes();
    for v in 0..64u64 {
        set.insert(v * 31);
    }
    // more structure was committed, and the load factor is sensible
    assert!(set.storage_bytes() > empty_bytes);
    let (capacity, occupied) = set.storage_util();
    assert_eq!(occupied, 64);
    assert!(capacity >= occupied);
}

#[test]
fn test_set_from_values() {
    let set = SrbTreeSet::from_values(vec![9u32, 1, 5]);
    assert_eq!(set.first(), Some(&1));
    assert_eq!(set.last(), Some(&9));
    assert_eq!(set.get(&5), Some(&5));
    assert_eq!(set.get(&2), None);
}

#[test]
fn test_storage_bytes_formula_empty() {
    // an empty set owns one internal node: its own footprint plus the
    // committed capacity of its child-slot array
    let set: SrbTreeSet<u64> = SrbTreeSet::new();
    let expected = core::mem::size_of::<Node<u64, (), 32>>()
        + 32 * core::mem::size_of::<Option<Node<u64, (), 32>>>();
    assert_eq!(set.storage_bytes(), expected);
}
