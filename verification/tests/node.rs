use srb_tree::node::Node as GroupNode;
use srb_tree::tree::node::Node;

#[test]
fn test_node_insert_and_get() {
    let mut node: Node<u16, u32, 16> = Node::new_internal();
    assert_eq!(node.insert(0, 90, 900), None);
    assert_eq!(node.insert(0, 91, 910), None);
    assert_eq!(node.get(0, &90), Some((&90, &900)));
    assert_eq!(node.get(0, &91), Some((&91, &910)));
    assert_eq!(node.get(0, &92), None);
    // replacing hands the old pair back
    assert_eq!(node.insert(0, 90, 901), Some((90, 900)));
    assert_eq!(node.get(0, &90), Some((&90, &901)));
}

#[test]
fn test_node_remove_prunes_and_skips() {
    let mut node: Node<u16, (), 16> = Node::new_internal();
    for k in [0u16, 256, 512] {
        node.insert(0, k, ());
    }
    assert_eq!(node.remove(0, &256), Some((256, ())));
    assert_eq!(node.remove(0, &256), None);
    assert_eq!(node.get(0, &0), Some((&0, &())));
    assert_eq!(node.first(), Some((&0, &())));
    assert_eq!(node.last(), Some((&512, &())));
}

#[test]
fn test_node_replace_key_value_at() {
    let mut leaf: Node<u16, u8, 16> = Node::new_leaf();
    // slot 10 of a leaf at prefix 5 holds key 0x5a == 90
    assert_eq!(leaf.replace_key_value_at(10, Some((90, 7))), None);
    assert_eq!(leaf.replace_key_value_at(10, Some((90, 8))), Some((90, 7)));
    assert_eq!(leaf.replace_key_value_at(10, None), Some((90, 8)));
    assert_eq!(leaf.replace_key_value_at(10, None), None);
}

#[test]
fn test_node_replace_child_at() {
    let mut root: Node<u16, (), 16> = Node::new_internal();
    let mut child: Node<u16, (), 16> = Node::new_internal();
    child.insert(1, 90, ());
    assert!(root.replace_child_at(0, Some(child)).is_none());
    let evicted = root.replace_child_at(0, None);
    assert!(evicted.is_some());
}

#[test]
fn test_group_node_insert() {
    // the earlier single-pair-leaf node maps key groups: keys that agree
    // in all but the final digit share one slot
    let mut node: GroupNode<u16, u32, 16> = GroupNode::new_internal();
    assert_eq!(node.insert(0, 90, 900), None);
    // 91 is in the same group as 90 (they differ only in the last digit)
    assert_eq!(node.insert(0, 91, 910), Some((90, 900)));
    // 106 is in the next group
    assert_eq!(node.insert(0, 106, 1060), None);
    assert_eq!(node.insert(0, 106, 1061), Some((106, 1060)));
}

#[test]
fn test_stumps_are_skipped() {
    // a present child with no pairs is a stump: reads and traversal skip it
    let mut root: Node<u16, (), 16> = Node::new_internal();
    root.replace_child_at(0, Some(Node::new_internal()));
    assert_eq!(root.first(), None);
    assert_eq!(root.last(), None);
    assert_eq!(root.get(0, &0), None);
    let mut it = root.keys();
    assert_eq!(it.next(), None);

    root.insert(0, 4096, ());
    assert_eq!(root.first(), Some((&4096, &())));
    let mut it = root.keys();
    assert_eq!(it.next(), Some(&4096));
    assert_eq!(it.next(), None);
}
