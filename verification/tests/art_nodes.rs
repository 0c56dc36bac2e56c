use cds::art::node::{Node, Node16, Node256, Node4, Node48, NodeV};

fn leaf(byte: u8, value: u32) -> Node<u32> {
    Node::Value(Box::new(NodeV::new(vec![byte, 0xff], value)))
}

fn value_of(node: Option<&Node<u32>>) -> Option<u32> {
    match node {
        Some(Node::Value(l)) => Some(l.value),
        Some(_) => panic!("an inner node where a leaf was put"),
        None => None,
    }
}

#[test]
fn node4_keeps_children_by_byte() {
    let mut n: Node4<u32> = Node4::default();
    assert!(n.insert(30, leaf(30, 3)).is_ok());
    assert!(n.insert(10, leaf(10, 1)).is_ok());
    assert!(n.insert(20, leaf(20, 2)).is_ok());
    assert_eq!(n.keys, vec![10, 20, 30]);
    assert!(n.insert(20, leaf(20, 9)).is_err());
    assert_eq!(value_of(n.lookup(20)), Some(2));
    assert_eq!(value_of(n.lookup(40)), None);
    assert!(matches!(n.update(20, leaf(20, 7)), Ok(Node::Value(l)) if l.value == 2));
    assert_eq!(value_of(n.lookup(20)), Some(7));
    assert!(n.update(50, leaf(50, 5)).is_err());
    assert!(matches!(n.remove(10), Ok(Node::Value(l)) if l.value == 1));
    assert!(n.remove(10).is_err());
    assert_eq!(n.size(), 2);
    assert!(!n.is_full());
}

#[test]
fn nodes_grow_and_shrink_through_every_kind() {
    let mut n4: Node4<u32> = Node4::default();
    for b in 0..4u8 {
        assert!(n4.insert(b * 2, leaf(b * 2, b as u32)).is_ok());
    }
    assert!(n4.is_full());
    let mut n16 = Node16::from_node4(n4);
    for b in 4..16u8 {
        assert!(n16.insert(b * 2, leaf(b * 2, b as u32)).is_ok());
    }
    assert!(n16.is_full());
    let mut n48 = Node48::from_node16(n16);
    for b in 16..48u8 {
        assert!(n48.insert(b * 2, leaf(b * 2, b as u32)).is_ok());
    }
    assert!(n48.is_full());
    let mut n256 = Node256::from_node48(n48);
    assert_eq!(n256.size(), 48);
    assert!(n256.insert(255, leaf(255, 99)).is_ok());
    for b in 0..48u8 {
        assert_eq!(value_of(n256.lookup(b * 2)), Some(b as u32));
    }
    assert!(n256.remove(255).is_ok());
    assert!(n256.is_shrinkable());
    let mut n48 = Node48::from_node256(n256);
    for b in 16..48u8 {
        assert!(n48.remove(b * 2).is_ok());
    }
    assert!(n48.is_shrinkable());
    let mut n16 = Node16::from_node48(n48);
    assert_eq!(n16.keys, (0..16u8).map(|b| b * 2).collect::<Vec<u8>>());
    for b in 4..16u8 {
        assert!(n16.remove(b * 2).is_ok());
    }
    assert!(n16.is_shrinkable());
    let n4 = Node4::from_node16(n16);
    for b in 0..4u8 {
        assert_eq!(value_of(n4.lookup(b * 2)), Some(b as u32));
    }
}

#[test]
fn node48_reuses_free_slots() {
    let mut n: Node48<u32> = Node48::default();
    assert!(n.insert(7, leaf(7, 1)).is_ok());
    assert!(n.insert(9, leaf(9, 2)).is_ok());
    assert!(n.remove(7).is_ok());
    assert!(n.insert(200, leaf(200, 3)).is_ok());
    assert_eq!(n.keys[200], 0);
    assert_eq!(value_of(n.lookup(9)), Some(2));
    assert_eq!(value_of(n.lookup(200)), Some(3));
    assert!(matches!(n.update(9, leaf(9, 4)), Ok(Node::Value(l)) if l.value == 2));
    assert_eq!(value_of(n.lookup(9)), Some(4));
}
