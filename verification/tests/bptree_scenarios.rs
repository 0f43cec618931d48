use bptree::{BPlusTree, Node, NodeType};

fn record_of<T: Clone>(tree: &BPlusTree<T>, key: u64) -> Option<T> {
    match tree.search(key) {
        Some((node, i)) => match &node.node_type {
            NodeType::Leaf { data } => Some(data[i].clone()),
            NodeType::Internal { .. } => None,
        },
        None => None,
    }
}

#[test]
fn test_insert_search() {
    let mut tree: BPlusTree<String> = BPlusTree::new();

    assert!(tree.insert(10, "ten".to_string()));
    assert!(tree.insert(20, "twenty".to_string()));
    assert!(tree.insert(5, "five".to_string()));
    assert!(tree.search(10).is_some());
    assert!(tree.search(5).is_some());
    assert!(tree.search(20).is_some());

    assert!(tree.search(99).is_none());

    let dup = tree.insert(10, "ten-dup".to_string());
    assert!(!dup);
    assert_eq!(record_of(&tree, 10), Some("ten".to_string()));
}

#[test]
fn test_splits() {
    let mut tree: BPlusTree<u64> = BPlusTree::new();
    for i in 1..=200 {
        assert!(tree.insert(i, i));
    }
    for i in 1..=200 {
        assert_eq!(record_of(&tree, i), Some(i));
    }
    assert!(tree.search(0).is_none());
    assert!(tree.search(201).is_none());
}

#[test]
fn test_delete() {
    let mut tree: BPlusTree<u64> = BPlusTree::new();
    for i in 1..=50 {
        tree.insert(i, i);
    }

    tree.delete(25);
    assert!(tree.search(25).is_none());
    assert!(tree.search(24).is_some());
    assert!(tree.search(26).is_some());

    for i in 10..=20 {
        tree.delete(i);
    }
    for i in 10..=20 {
        assert!(tree.search(i).is_none());
    }
    for i in (1..=9).chain(21..=50) {
        if i == 25 {
            continue;
        }
        assert_eq!(record_of(&tree, i), Some(i));
    }

    tree.delete(999);
    assert!(tree.search(1).is_some());

    for i in (1..=50).filter(|x| *x != 25 && !((10..=20).contains(x))) {
        tree.delete(i);
    }
    assert!(tree.search(1).is_none());
    for i in 1..=50 {
        assert!(tree.search(i).is_none());
    }
}

#[test]
fn test_update() {
    let mut tree: BPlusTree<String> = BPlusTree::new();
    for i in 1..=30 {
        tree.insert(i, format!("v{}", i));
    }

    tree.update(15, "updated-15".to_string());
    assert_eq!(record_of(&tree, 15), Some("updated-15".to_string()));

    tree.update(999, "ghost".to_string());
    assert!(tree.search(999).is_none());

    assert_eq!(record_of(&tree, 14), Some("v14".to_string()));
}

#[test]
fn test_edge_cases() {
    let mut tree: BPlusTree<u64> = BPlusTree::new();

    assert!(tree.search(1).is_none());
    tree.delete(1);

    tree.insert(42, 42);
    assert!(tree.search(42).is_some());
    tree.delete(42);
    assert!(tree.search(42).is_none());

    let mut tree2: BPlusTree<u64> = BPlusTree::new();
    for i in (1..=100).rev() {
        tree2.insert(i, i);
    }
    for i in 1..=100 {
        assert!(tree2.search(i).is_some());
    }

    let mut tree3: BPlusTree<u64> = BPlusTree::new();
    for i in 1..=20 {
        tree3.insert(i, i);
    }
    for i in (1..=20).step_by(2) {
        tree3.delete(i);
    }
    assert!((2..=20).step_by(2).all(|i| tree3.search(i).is_some()));
    assert!((1..=20).step_by(2).all(|i| tree3.search(i).is_none()));
}

#[test]
fn new_node_is_empty() {
    let leaf: Node<u64> = Node::new_node(3, true);
    assert!(matches!(&leaf.node_type, NodeType::Leaf { data } if data.is_empty()));
    let inner: Node<u64> = Node::new_node(4, false);
    assert!(matches!(&inner.node_type, NodeType::Internal { children } if children.is_empty()));
}
