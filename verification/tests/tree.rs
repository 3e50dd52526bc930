use miniactor::tree::Tree;

fn collect(tree: &Tree) -> Vec<u64> {
    tree.iter().into_vec()
}

#[test]
fn insert_test() {
    let mut tree = Tree::new();

    tree.insert(1);
    tree.insert(5);
    tree.insert(3);
    tree.insert(7);

    assert_eq!(collect(&tree), vec![1, 3, 5, 7]);
}

#[test]
fn remove_test() {
    let mut tree = Tree::new();

    tree.insert(1);
    tree.insert(5);
    tree.insert(3);
    tree.insert(7);
    tree.remove(&7);

    assert_eq!(collect(&tree), vec![1, 3, 5]);
}


#[test]
fn tree_insert_test() {
    let mut tree = Tree::new();

    tree.insert(1);
    tree.insert(5);
    tree.insert(3);
    tree.insert(7);

    assert_eq!(collect(&tree), vec![1, 3, 5, 7]);
}

#[test]
fn tree_remove_test() {
    let mut tree = Tree::new();

    tree.insert(1);
    tree.insert(5);
    tree.insert(3);
    tree.insert(7);
    tree.remove(&7);

    assert_eq!(collect(&tree), vec![1, 3, 5]);
}

#[test]
fn contains_test() {
    let mut tree = Tree::new();
    assert!(!tree.contains(&4));
    tree.insert(4);
    tree.insert(2);
    tree.insert(6);
    assert!(tree.contains(&4));
    assert!(tree.contains(&2));
    assert!(tree.contains(&6));
    assert!(!tree.contains(&5));
    tree.remove(&4);
    assert!(!tree.contains(&4));
    assert!(tree.contains(&2));
    assert!(tree.contains(&6));
}

#[test]
fn duplicate_insert_test() {
    let mut tree = Tree::new();
    assert!(tree.insert(9));
    assert!(!tree.insert(9));
    assert_eq!(tree.len(), 1);
    assert_eq!(collect(&tree), vec![9]);
}

#[test]
fn remove_inner_node_test() {
    let mut tree = Tree::new();
    for v in [8, 4, 12, 2, 6, 10, 14] {
        tree.insert(v);
    }
    // remove the root, which has two children
    assert!(tree.remove(&8));
    assert_eq!(collect(&tree), vec![2, 4, 6, 10, 12, 14]);
    // remove a node with one child
    assert!(tree.remove(&12));
    assert_eq!(collect(&tree), vec![2, 4, 6, 10, 14]);
    // removing an absent value changes nothing
    assert!(!tree.remove(&13));
    assert_eq!(collect(&tree), vec![2, 4, 6, 10, 14]);
}

#[test]
fn len_test() {
    let mut tree = Tree::new();
    assert!(tree.is_empty());
    assert_eq!(tree.len(), 0);
    tree.insert(3);
    tree.insert(1);
    tree.insert(2);
    assert!(!tree.is_empty());
    assert_eq!(tree.len(), 3);
    tree.remove(&1);
    assert_eq!(tree.len(), 2);
    tree.remove(&1);
    assert_eq!(tree.len(), 2);
}

#[test]
fn iter_next_test() {
    let mut tree = Tree::new();
    for v in [20, 10, 30] {
        tree.insert(v);
    }
    let mut it = tree.iter();
    let (lo, hi) = it.size_hint();
    assert_eq!(lo, 3);
    assert_eq!(hi, Some(3));
    assert_eq!(it.next(), Some(10));
    assert_eq!(it.next(), Some(20));
    assert_eq!(it.next(), Some(30));
    assert_eq!(it.next(), None);
    assert_eq!(it.size_hint(), (0, Some(0)));
}

#[test]
fn default_test() {
    let tree = Tree::default();
    assert!(tree.is_empty());
}
