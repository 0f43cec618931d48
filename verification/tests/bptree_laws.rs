use bptree::{BPlusTree, Node, NodeType};

/// The records of the tree leaf by leaf, as a list of (key, record) pairs.
fn records(tree: &BPlusTree<u64>) -> Vec<(u64, u64)> {
    fn walk(node: &Node<u64>, out: &mut Vec<(u64, u64)>) {
        match &node.node_type {
            NodeType::Leaf { data } => {
                for (k, d) in node.keys().iter().zip(data.iter()) {
                    out.push((*k, *d));
                }
            }
            NodeType::Internal { children } => {
                for c in children {
                    walk(c, out);
                }
            }
        }
    }
    let mut out = Vec::new();
    if let Some(root) = tree.root() {
        walk(root, &mut out);
    }
    out
}

fn record_of(tree: &BPlusTree<u64>, key: u64) -> Option<u64> {
    match tree.search(key) {
        Some((node, i)) => match &node.node_type {
            NodeType::Leaf { data } => {
                assert_eq!(node.keys()[i], key);
                Some(data[i])
            }
            NodeType::Internal { .. } => panic!("search ended in an inner node"),
        },
        None => None,
    }
}

#[test]
fn records_stay_in_key_order() {
    let mut tree = BPlusTree::new();
    for k in [50u64, 3, 77, 12, 99, 1, 64, 33, 8, 41, 20, 90, 5, 70, 15] {
        assert!(tree.insert(k, k * 10));
    }
    let recs = records(&tree);
    assert_eq!(recs.len(), 15);
    for w in recs.windows(2) {
        assert!(w[0].0 < w[1].0);
    }
    for (k, d) in recs {
        assert_eq!(d, k * 10);
    }
}

#[test]
fn insert_then_search_finds_record_and_leaves_others() {
    let mut tree = BPlusTree::new();
    for k in 1..=40u64 {
        tree.insert(k, k + 1000);
    }
    assert!(tree.insert(100, 7));
    assert_eq!(record_of(&tree, 100), Some(7));
    for k in 1..=40u64 {
        assert_eq!(record_of(&tree, k), Some(k + 1000));
    }
}

#[test]
fn delete_then_search_finds_nothing() {
    let mut tree = BPlusTree::new();
    for k in 1..=60u64 {
        tree.insert(k, k);
    }
    tree.delete(30);
    assert_eq!(record_of(&tree, 30), None);
    for k in (1..=60u64).filter(|k| *k != 30) {
        assert_eq!(record_of(&tree, k), Some(k));
    }
}

#[test]
fn update_then_search_finds_new_record() {
    let mut tree = BPlusTree::new();
    for k in 1..=25u64 {
        tree.insert(k, k);
    }
    tree.update(7, 700);
    assert_eq!(record_of(&tree, 7), Some(700));
    tree.update(77, 1);
    assert_eq!(record_of(&tree, 77), None);
    for k in (1..=25u64).filter(|k| *k != 7) {
        assert_eq!(record_of(&tree, k), Some(k));
    }
}

#[test]
fn delete_undoes_insert() {
    let mut tree = BPlusTree::new();
    for k in (2..=80u64).step_by(2) {
        tree.insert(k, k);
    }
    let before = records(&tree);
    assert!(tree.insert(41, 4100));
    tree.delete(41);
    assert_eq!(records(&tree), before);
}

#[test]
fn duplicate_insert_refused_in_tree_built_by_insertions() {
    let mut tree = BPlusTree::new();
    for k in 1..=300u64 {
        assert!(tree.insert(k, k));
    }
    for k in 1..=300u64 {
        assert!(!tree.insert(k, 0));
        assert_eq!(record_of(&tree, k), Some(k));
    }
}

#[test]
fn duplicate_equal_to_new_separator_is_refused() {
    // Keys 1..=7 leave a root with key 3 over the leaves [1, 2] and [3, 4, 5, 6, 7]; inserting
    // 5 splits the full right leaf around 5 on the way down, and the insertion is refused.
    let mut tree = BPlusTree::new();
    for k in 1..=7u64 {
        assert!(tree.insert(k, k));
    }
    assert_eq!(tree.root().unwrap().keys().clone(), vec![3]);
    assert!(!tree.insert(5, 500));
    assert_eq!(record_of(&tree, 5), Some(5));
    assert_eq!(tree.root().unwrap().keys().clone(), vec![3, 5]);
    assert_eq!(records(&tree), (1..=7u64).map(|k| (k, k)).collect::<Vec<_>>());
}

#[test]
fn key_left_as_separator_by_a_deletion_can_be_inserted_again() {
    // Keys 1..=6 leave a root with key 3 over [1, 2] and [3, 4, 5, 6]; deleting 3 leaves that
    // key in the root. Inserting 3 again goes right at the equal root key, as a search does,
    // and stores the record in the right leaf.
    let mut tree = BPlusTree::new();
    for k in 1..=6u64 {
        tree.insert(k, k);
    }
    assert_eq!(tree.root().unwrap().keys().clone(), vec![3]);
    tree.delete(3);
    assert_eq!(record_of(&tree, 3), None);
    assert_eq!(tree.root().unwrap().keys().clone(), vec![3]);
    assert!(tree.insert(3, 30));
    assert_eq!(record_of(&tree, 3), Some(30));
    for k in [1u64, 2, 4, 5, 6] {
        assert_eq!(record_of(&tree, k), Some(k));
    }
    match &tree.root().unwrap().node_type {
        NodeType::Internal { children } => {
            assert_eq!(children[0].keys().clone(), vec![1, 2]);
            assert_eq!(children[1].keys().clone(), vec![3, 4, 5, 6]);
        }
        NodeType::Leaf { .. } => panic!("root should be an inner node"),
    }
    assert!(!tree.insert(3, 33));
    assert_eq!(record_of(&tree, 3), Some(30));
}

#[test]
fn root_splits_into_two_leaves() {
    let mut tree = BPlusTree::new();
    for k in 1..=5u64 {
        tree.insert(k, k);
    }
    let root = tree.root().unwrap();
    assert_eq!(root.keys().clone(), vec![1, 2, 3, 4, 5]);
    assert!(matches!(root.node_type, NodeType::Leaf { .. }));
    tree.insert(6, 6);
    let root = tree.root().unwrap();
    assert_eq!(root.keys().clone(), vec![3]);
    match &root.node_type {
        NodeType::Internal { children } => {
            assert_eq!(children.len(), 2);
            assert_eq!(children[0].keys().clone(), vec![1, 2]);
            assert_eq!(children[1].keys().clone(), vec![3, 4, 5, 6]);
        }
        NodeType::Leaf { .. } => panic!("root should be an inner node"),
    }
}

#[test]
fn delete_borrows_from_left_neighbour() {
    // Leaves [1, 2] [3, 4, 5] [6, 7, 8, 9] after these insertions; deleting 6 and 7 first
    // takes the right leaf down to its minimum, then deleting 8 borrows 5 from the left.
    let mut tree = BPlusTree::new();
    for k in 1..=9u64 {
        tree.insert(k, k);
    }
    tree.delete(1);
    tree.delete(2);
    for k in 3..=9u64 {
        assert_eq!(record_of(&tree, k), Some(k));
    }
    for k in [9u64, 8, 7] {
        tree.delete(k);
        assert_eq!(record_of(&tree, k), None);
    }
    for k in 3..=6u64 {
        assert_eq!(record_of(&tree, k), Some(k));
    }
}

#[test]
fn delete_everything_in_many_orders() {
    for step in [1u64, 3, 7, 11] {
        let mut tree = BPlusTree::new();
        let n = 120u64;
        for k in 0..n {
            tree.insert((k * 37) % n, k);
        }
        let mut gone = Vec::new();
        let mut k = 0u64;
        for _ in 0..n {
            k = (k + step * 13 + 1) % n;
            while gone.contains(&k) {
                k = (k + 1) % n;
            }
            tree.delete(k);
            gone.push(k);
            assert_eq!(record_of(&tree, k), None);
            let recs = records(&tree);
            assert_eq!(recs.len() as u64, n - gone.len() as u64);
            for w in recs.windows(2) {
                assert!(w[0].0 < w[1].0);
            }
        }
        assert!(tree.root().is_none());
    }
}

#[test]
fn update_on_empty_tree_changes_nothing() {
    let mut tree: BPlusTree<u64> = BPlusTree::new();
    tree.update(1, 1);
    assert!(tree.search(1).is_none());
    assert!(tree.root().is_none());
}

#[test]
fn keys_at_the_ends_of_the_range() {
    let mut tree = BPlusTree::new();
    assert!(tree.insert(u64::MAX, 1));
    assert!(tree.insert(0, 2));
    for k in 1..=10u64 {
        tree.insert(u64::MAX - k, k);
    }
    assert_eq!(record_of(&tree, u64::MAX), Some(1));
    assert_eq!(record_of(&tree, 0), Some(2));
    tree.delete(u64::MAX);
    assert_eq!(record_of(&tree, u64::MAX), None);
}

#[test]
fn delete_from_a_leaf_with_keys_to_spare() {
    let mut tree = BPlusTree::new();
    for k in [10u64, 20, 30, 40, 50, 60, 15] {
        tree.insert(k, k);
    }
    let root = tree.root().unwrap();
    assert_eq!(root.keys().clone(), vec![30]);
    tree.delete(30);
    let root = tree.root().unwrap();
    assert_eq!(root.keys().clone(), vec![30]);
    match &root.node_type {
        NodeType::Internal { children } => {
            assert_eq!(children[0].keys().clone(), vec![10, 15, 20]);
            assert_eq!(children[1].keys().clone(), vec![40, 50, 60]);
        }
        NodeType::Leaf { .. } => panic!("root should be an inner node"),
    }
    assert_eq!(record_of(&tree, 30), None);
    assert_eq!(record_of(&tree, 40), Some(40));
}

#[test]
fn delete_merges_when_neighbours_have_no_key_to_spare() {
    // Keys 1..=6 leave [1, 2] and [3, 4, 5, 6] under key 3; deleting 4 and 5 leaves the right
    // leaf at its minimum, then deleting 1 finds the left leaf at its minimum too and its right
    // neighbour without a key to spare, so the two are joined and the root gives way.
    let mut tree = BPlusTree::new();
    for k in 1..=6u64 {
        tree.insert(k, k * 10);
    }
    tree.delete(4);
    tree.delete(5);
    tree.delete(1);
    let root = tree.root().unwrap();
    assert_eq!(root.keys().clone(), vec![2, 3, 6]);
    assert!(matches!(root.node_type, NodeType::Leaf { .. }));
    assert_eq!(records(&tree), vec![(2, 20), (3, 30), (6, 60)]);
}

#[test]
fn delete_borrows_from_right_neighbour() {
    // Keys 1..=6 leave [1, 2] and [3, 4, 5, 6] under key 3; deleting 1 borrows 3 from the
    // right leaf, whose next key 4 becomes the root key.
    let mut tree = BPlusTree::new();
    for k in 1..=6u64 {
        tree.insert(k, k);
    }
    tree.delete(1);
    let root = tree.root().unwrap();
    assert_eq!(root.keys().clone(), vec![4]);
    match &root.node_type {
        NodeType::Internal { children } => {
            assert_eq!(children[0].keys().clone(), vec![2, 3]);
            assert_eq!(children[1].keys().clone(), vec![4, 5, 6]);
        }
        NodeType::Leaf { .. } => panic!("root should be an inner node"),
    }
}

#[test]
fn no_node_grows_past_its_order() {
    fn check(node: &Node<u64>) {
        let t = match &node.node_type {
            NodeType::Leaf { .. } => 3,
            NodeType::Internal { children } => {
                for c in children {
                    assert!(c.keys().len() >= if matches!(c.node_type, NodeType::Leaf { .. }) { 2 } else { 3 });
                    check(c);
                }
                4
            }
        };
        assert!(node.keys().len() <= 2 * t - 1);
    }
    let mut tree = BPlusTree::new();
    for k in 0..500u64 {
        tree.insert((k * 7919) % 1000, k);
        check(tree.root().unwrap());
    }
    for k in 0..500u64 {
        tree.delete((k * 7919) % 1000);
        if let Some(root) = tree.root() {
            check(root);
        }
    }
}

#[test]
fn full_inner_root_splits_around_its_middle_key() {
    // Ascending keys 1..=18 fill the root with [3, 5, 7, 9, 11, 13, 15] over two-key leaves
    // and a last leaf [15, 16, 17, 18]; inserting 19 splits the full root first: 9 moves up,
    // [3, 5, 7] keeps the first four leaves and [11, 13, 15] takes the rest. Inserting 20
    // then splits the full last leaf around 17.
    let mut tree = BPlusTree::new();
    for k in 1..=18u64 {
        tree.insert(k, k);
    }
    assert_eq!(tree.root().unwrap().keys().clone(), vec![3, 5, 7, 9, 11, 13, 15]);
    tree.insert(19, 19);
    assert_eq!(tree.root().unwrap().keys().clone(), vec![9]);
    tree.insert(20, 20);
    let root = tree.root().unwrap();
    assert_eq!(root.keys().clone(), vec![9]);
    let halves = match &root.node_type {
        NodeType::Internal { children } => children,
        NodeType::Leaf { .. } => panic!("root should be an inner node"),
    };
    assert_eq!(halves.len(), 2);
    assert_eq!(halves[0].keys().clone(), vec![3, 5, 7]);
    assert_eq!(halves[1].keys().clone(), vec![11, 13, 15, 17]);
    let leaf_keys = |n: &Node<u64>| -> Vec<Vec<u64>> {
        match &n.node_type {
            NodeType::Internal { children } => children.iter().map(|c| c.keys().clone()).collect(),
            NodeType::Leaf { .. } => panic!("expected an inner node"),
        }
    };
    assert_eq!(leaf_keys(&halves[0]), vec![vec![1, 2], vec![3, 4], vec![5, 6], vec![7, 8]]);
    assert_eq!(
        leaf_keys(&halves[1]),
        vec![vec![9, 10], vec![11, 12], vec![13, 14], vec![15, 16], vec![17, 18, 19, 20]]
    );
}
