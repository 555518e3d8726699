use srb_tree::tree::node::{Keys, Node};


fn iter() -> Keys<'static, u16, (), 16> {
    let node: &'static mut Node<u16, (), 16> = Box::leak(Box::new(Node::new_internal()));

    let mut val: u16 = 0;
    while val < 100 {
        node.insert(0, val, ());
        val += 10;
    }

    node.keys()
}

#[test]
fn test_interspersed() {
    let mut iter = iter();

    assert_eq!(iter.next(), Some(&0));
    assert_eq!(iter.next_back(), Some(&90));
    assert_eq!(iter.next(), Some(&10));
    assert_eq!(iter.next_back(), Some(&80));
    assert_eq!(iter.next(), Some(&20));

    assert_eq!(iter.next_back(), Some(&70));
    assert_eq!(iter.next(), Some(&30));
    assert_eq!(iter.next_back(), Some(&60));
    assert_eq!(iter.next(), Some(&40));
    assert_eq!(iter.next_back(), Some(&50));
    assert_eq!(iter.next(), None);
    assert_eq!(iter.next_back(), None);
}

#[test]
fn test_forward_ascending() {
    let node: &'static mut Node<u16, u32, 16> = Box::leak(Box::new(Node::new_internal()));
    for k in [500u16, 3, 77, 4096, 4, 1000] {
        node.insert(0, k, k as u32 * 2);
    }
    let mut pairs = node.pairs();
    let mut seen: Vec<u16> = Vec::new();
    while let Some((k, v)) = pairs.next() {
        assert_eq!(*v, *k as u32 * 2);
        seen.push(*k);
    }
    assert_eq!(seen, vec![3, 4, 77, 500, 1000, 4096]);
}

#[test]
fn test_backward_descending_is_reverse() {
    let node: &'static mut Node<u16, (), 16> = Box::leak(Box::new(Node::new_internal()));
    for k in [500u16, 3, 77, 4096, 4, 1000] {
        node.insert(0, k, ());
    }
    let mut forward: Vec<u16> = Vec::new();
    let mut it = node.keys();
    while let Some(k) = it.next() {
        forward.push(*k);
    }
    let mut backward: Vec<u16> = Vec::new();
    let mut it = node.keys();
    while let Some(k) = it.next_back() {
        backward.push(*k);
    }
    let mut reversed = backward.clone();
    reversed.reverse();
    assert_eq!(forward, reversed);
}

#[test]
fn test_interleaving_same_multiset() {
    // every interleaving of next/next_back yields each pair exactly once
    let node: &'static mut Node<u16, (), 16> = Box::leak(Box::new(Node::new_internal()));
    let keys = [500u16, 3, 77, 4096, 4, 1000, 65535, 0];
    for k in keys {
        node.insert(0, k, ());
    }
    // alternate front and back
    let mut collected: Vec<u16> = Vec::new();
    let mut it = node.keys();
    let mut from_front = true;
    loop {
        let step = if from_front { it.next() } else { it.next_back() };
        match step {
            Some(k) => collected.push(*k),
            None => break,
        }
        from_front = !from_front;
    }
    collected.sort();
    let mut expected = keys.to_vec();
    expected.sort();
    assert_eq!(collected, expected);
}

#[test]
fn test_iteration_skips_removed() {
    let node: &'static mut Node<u16, (), 16> = Box::leak(Box::new(Node::new_internal()));
    for k in [10u16, 20, 30, 40] {
        node.insert(0, k, ());
    }
    node.remove(0, &20);
    let mut seen: Vec<u16> = Vec::new();
    let mut it = node.keys();
    while let Some(k) = it.next() {
        seen.push(*k);
    }
    assert_eq!(seen, vec![10, 30, 40]);
}

#[test]
fn test_empty_and_singleton_iteration() {
    let node: &'static mut Node<u16, (), 16> = Box::leak(Box::new(Node::new_internal()));
    let mut it = node.keys();
    assert_eq!(it.next(), None);
    assert_eq!(it.next_back(), None);

    node.insert(0, 42u16, ());
    // exactly one of next / next_back succeeds on a singleton
    let mut it = node.keys();
    assert_eq!(it.next(), Some(&42));
    assert_eq!(it.next_back(), None);
    let mut it = node.keys();
    assert_eq!(it.next_back(), Some(&42));
    assert_eq!(it.next(), None);
}

#[test]
fn test_values_iteration() {
    let node: &'static mut Node<u16, u32, 16> = Box::leak(Box::new(Node::new_internal()));
    for k in [9u16, 1, 5] {
        node.insert(0, k, k as u32 + 100);
    }
    let mut values = node.values();
    assert_eq!(values.next(), Some(&101));
    assert_eq!(values.next_back(), Some(&109));
    assert_eq!(values.next(), Some(&105));
    assert_eq!(values.next(), None);
    assert_eq!(values.next_back(), None);
}
