use bptree::Tree;

#[test]
fn insert_new_values() {
    let mut tree = Tree::new();
    for v in [50u64, 20, 80, 10, 30, 70, 90] {
        assert!(tree.insert(v).is_none());
    }
    let listed: Vec<u64> = tree.in_order().into_iter().copied().collect();
    assert_eq!(listed, vec![10, 20, 30, 50, 70, 80, 90]);
}

#[test]
fn duplicate_value_comes_back() {
    let mut tree = Tree::new();
    tree.insert(5u64);
    tree.insert(3);
    tree.insert(8);
    assert_eq!(tree.insert(3), Some(3));
    assert_eq!(tree.insert(8), Some(8));
    let listed: Vec<u64> = tree.in_order().into_iter().copied().collect();
    assert_eq!(listed, vec![3, 5, 8]);
}

#[test]
fn empty_tree_lists_nothing() {
    let tree: Tree<String> = Tree::new();
    assert!(tree.in_order().is_empty());
}

#[test]
fn strings_are_listed_in_order() {
    let mut tree = Tree::new();
    for w in ["pear", "apple", "fig", "kiwi", "banana"] {
        assert!(tree.insert(w.to_string()).is_none());
    }
    assert_eq!(tree.insert("fig".to_string()), Some("fig".to_string()));
    let listed: Vec<&str> = tree.in_order().into_iter().map(|s| s.as_str()).collect();
    assert_eq!(listed, vec!["apple", "banana", "fig", "kiwi", "pear"]);
}

#[test]
fn insertion_keeps_earlier_values_listed() {
    let mut tree = Tree::new();
    for v in [4u64, 2, 6] {
        tree.insert(v);
    }
    let before: Vec<u64> = tree.in_order().into_iter().copied().collect();
    assert!(tree.insert(5).is_none());
    let after: Vec<u64> = tree.in_order().into_iter().copied().collect();
    assert_eq!(before, vec![2, 4, 6]);
    assert_eq!(after, vec![2, 4, 5, 6]);
}
