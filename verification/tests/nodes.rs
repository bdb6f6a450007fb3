use arctic::raw::edge::le::Le;
use arctic::raw::edge::Edge;
use arctic::raw::node::{Kind, Node, Smo};

fn leaf(value: u64) -> Edge {
    Edge::new_value(Le::empty(), value)
}

#[test]
fn node_kinds_grow_in_order() {
    assert_eq!(Kind::Node3.capacity(), 3);
    assert!(Kind::Node3.grow() == Kind::Node15);
    assert!(Kind::Node15.grow() == Kind::Node47);
    assert!(Kind::Node47.grow() == Kind::Node256);
    assert!(Kind::Node256.grow() == Kind::Node256);
    assert!(Kind::for_len(2) == Kind::Node3);
    assert!(Kind::for_len(3) == Kind::Node15);
    assert!(Kind::for_len(46) == Kind::Node47);
    assert!(Kind::for_len(47) == Kind::Node256);
    assert!(Smo::ReplaceNode.is_allocate());
    assert!(!Smo::CompressEdge.is_allocate());
}

#[test]
fn node_get_or_insert_fills_then_reports_full() {
    let mut node = Node::new(Kind::Node3);
    assert_eq!(node.get_or_insert(b'a'), Some(0));
    assert_eq!(node.get_or_insert(b'b'), Some(1));
    assert_eq!(node.get_or_insert(b'a'), Some(0));
    assert_eq!(node.get_or_insert(b'c'), Some(2));
    assert_eq!(node.get_or_insert(b'd'), None);
    assert_eq!(node.get(b'b'), Some(1));
    assert_eq!(node.get(b'z'), None);
}

#[test]
fn node_entries_are_sorted_and_bounded() {
    let mut node = Node::new(Kind::Node15);
    for key in [b'm', b'c', b'x', b'a'] {
        let slot = node.get_or_insert(key).unwrap();
        node.put(slot, leaf(key as u64));
    }
    let keys: Vec<u8> = node.entries(0, 255).iter().map(|e| e.key).collect();
    assert_eq!(keys, vec![b'a', b'c', b'm', b'x']);
    let keys: Vec<u8> = node.entries(b'b', b'm').iter().map(|e| e.key).collect();
    assert_eq!(keys, vec![b'c', b'm']);
    assert_eq!(node.len(), 4);
}

#[test]
fn node_replace_grows_a_full_node() {
    let mut node = Node::new(Kind::Node3);
    for key in [1u8, 2, 3] {
        let slot = node.get_or_insert(key).unwrap();
        node.put(slot, leaf(key as u64));
    }
    let (smo, edge) = node.replace(Le::empty());
    assert!(smo == Smo::ReplaceNode);
    assert!(!edge.is_null());
}

#[test]
fn node_replace_compresses_a_single_child() {
    let mut node = Node::new(Kind::Node3);
    let slot = node.get_or_insert(b'c').unwrap();
    node.put(slot, Edge::new_value(Le::new(b"de", false, false), 7));
    let (smo, edge) = node.replace(Le::new(b"ab", false, false));
    assert!(smo == Smo::CompressEdge);
    assert_eq!(edge.meta.to_vec(), b"abcde".to_vec());
    assert_eq!(edge.as_value(), Some(7));
}

#[test]
fn node_replace_deletes_an_empty_node() {
    let node = Node::new(Kind::Node15);
    let (smo, edge) = node.replace(Le::new(b"ab", false, false));
    assert!(smo == Smo::DeleteNode);
    assert!(edge.is_null());
}
