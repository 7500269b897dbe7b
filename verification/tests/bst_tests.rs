use huffman::bst::{BinaryTree, Node};

#[test]
fn bst_len_counts_distinct_values() {
    let mut tree = BinaryTree::new(Node::new(2));
    assert_eq!(tree.len(), 1);
    tree.insert(1);
    assert_eq!(tree.len(), 2);
    tree.insert(2);
    assert_eq!(tree.len(), 2);
    tree.insert(3);
    assert_eq!(tree.len(), 3);
}

#[test]
fn bst_has_finds_inserted_values() {
    let mut tree = BinaryTree::new(Node::new(0));
    let check_has = |tree: &BinaryTree, exp: &[bool]| {
        let got: Vec<bool> = (0..exp.len()).map(|i| tree.has(i as u64)).collect();
        assert_eq!(&got, exp);
    };

    check_has(&tree, &[true, false, false, false, false]);
    tree.insert(4);
    check_has(&tree, &[true, false, false, false, true]);
    tree.insert(4);
    check_has(&tree, &[true, false, false, false, true]);
    tree.insert(3);
    check_has(&tree, &[true, false, false, true, true]);
}

#[test]
fn bst_unbalanced_chain() {
    let mut tree = BinaryTree::new(Node::new(0));
    for i in 1..100u64 {
        tree.insert(i);
    }
    assert_eq!(tree.len(), 100);
    assert!(tree.has(50));
    assert!(!tree.has(100));
}
