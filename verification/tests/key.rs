use srb_tree::key::Key;

#[test]
fn test_max_depth() {
    assert_eq!(u64::max_depth(2), 63);
    assert_eq!(u64::max_depth(16), 15);
    assert_eq!(u64::max_depth(32), 12);

    assert_eq!(u32::max_depth(2), 31);
    assert_eq!(u32::max_depth(16), 7);
    assert_eq!(u32::max_depth(32), 6);
}

#[test]
fn test_index_at() {
    assert_eq!(u32::index_at(&31, 16, 0), 0);
    assert_eq!(u32::index_at(&31, 16, 1), 0);
    assert_eq!(u32::index_at(&31, 16, 2), 0);
    assert_eq!(u32::index_at(&31, 16, 3), 0);
    assert_eq!(u32::index_at(&31, 16, 4), 0);
    assert_eq!(u32::index_at(&31, 16, 5), 0);
    assert_eq!(u32::index_at(&31, 16, 6), 1);
    assert_eq!(u32::index_at(&31, 16, 7), 15);
}

#[test]
fn test_index_at_reconstructs_key() {
    // reading every digit most-significant-first and writing them back
    // recovers the key, for a power-of-two and a general base alike
    for bf in [2usize, 16, 32, 10, 7] {
        let md = u32::max_depth(bf);
        for key in [0u32, 1, 31, 90, 1000, 65535, 123_456_789] {
            let mut acc: u64 = 0;
            for depth in 0..=md {
                acc = acc * bf as u64 + u32::index_at(&key, bf, depth) as u64;
            }
            assert_eq!(acc, key as u64);
        }
    }
}

#[test]
fn test_index_at_u16() {
    // 90 in base 16 is 0x5a: final digit 10, next 5
    assert_eq!(u16::index_at(&90, 16, 3), 10);
    assert_eq!(u16::index_at(&90, 16, 2), 5);
    assert_eq!(u16::index_at(&90, 16, 1), 0);
    assert_eq!(u16::index_at(&90, 16, 0), 0);
    assert_eq!(u16::max_depth(16), 3);
}
