use red_black_tree::RedBlackTree;

type Tree = RedBlackTree<u64, u64, 64>;

fn entries(tree: &Tree) -> Vec<(u64, u64)> {
    let mut it = tree.iter();
    let mut out = Vec::new();
    while let Some((k, v)) = it.next() {
        out.push((*k, *v));
    }
    out
}

#[test]
fn law_get_after_insert_holds() {
    let mut tree = Tree::new();
    tree.insert(1, 10);
    tree.insert(2, 20);
    tree.insert(3, 33);
    assert_eq!(tree.get(&3), Some(&33));
    assert_eq!(tree.get(&1), Some(&10));
    assert_eq!(tree.get(&2), Some(&20));
}

#[test]
fn law_get_after_remove_holds() {
    let mut tree = Tree::new();
    tree.insert(1, 10);
    tree.insert(2, 20);
    tree.remove(&1);
    assert_eq!(tree.get(&1), None);
    assert_eq!(tree.get(&2), Some(&20));
}

#[test]
fn law_remove_undoes_insert_holds() {
    let mut tree = Tree::new();
    for k in [4u64, 2, 6, 1, 3] {
        tree.insert(k, k * 2);
    }
    let before = entries(&tree);
    let size = tree.size();
    tree.insert(5, 55);
    assert_eq!(tree.remove(&5), Some(55));
    assert_eq!(entries(&tree), before);
    assert_eq!(tree.size(), size);
}

#[test]
fn law_insert_undoes_remove_holds() {
    let mut tree = Tree::new();
    for k in [4u64, 2, 6, 1, 3] {
        tree.insert(k, k * 2);
    }
    let before = entries(&tree);
    let v = tree.remove(&2).unwrap();
    tree.insert(2, v);
    assert_eq!(entries(&tree), before);
}

#[test]
fn law_size_after_insert_holds() {
    let mut tree = Tree::new();
    tree.insert(1, 1);
    assert_eq!(tree.size(), 1);
    tree.insert(1, 2);
    assert_eq!(tree.size(), 1);
    tree.insert(2, 2);
    assert_eq!(tree.size(), 2);
}

#[test]
fn law_size_after_remove_holds() {
    let mut tree = Tree::new();
    tree.insert(1, 1);
    tree.insert(2, 2);
    tree.remove(&3);
    assert_eq!(tree.size(), 2);
    tree.remove(&2);
    assert_eq!(tree.size(), 1);
}

#[test]
fn law_traversal_increasing_holds() {
    let mut tree = Tree::new();
    for k in [9u64, 3, 7, 1, 5] {
        tree.insert(k, 0);
    }
    let mut it = tree.iter();
    let mut last: Option<u64> = None;
    while let Some((k, _)) = it.next() {
        if let Some(prev) = last {
            assert!(prev < *k);
        }
        last = Some(*k);
    }
    assert_eq!(last, Some(9));
}


#[test]
fn law_insert_again_same_slot_holds() {
    let mut tree = Tree::new();
    tree.insert(4, 40);
    let i = tree.insert(7, 70).unwrap();
    let before = entries(&tree);
    assert_eq!(tree.insert(7, 70), Some(i));
    assert_eq!(entries(&tree), before);
    assert_eq!(tree.size(), 2);
}

#[test]
fn law_traversal_complete_holds() {
    let mut tree = Tree::new();
    let keys = [13u64, 2, 8, 21, 1, 5, 3, 34];
    for k in keys {
        tree.insert(k, k);
    }
    let mut it = tree.iter();
    let mut seen = Vec::new();
    while let Some((k, _)) = it.next() {
        seen.push(*k);
    }
    let mut want = keys.to_vec();
    want.sort();
    assert_eq!(seen, want);
}

#[test]
fn law_slot_stays_holds() {
    let mut tree = Tree::new();
    let i = tree.insert(10, 1).unwrap();
    for k in [5u64, 15, 3, 7, 12, 20] {
        tree.insert(k, k);
    }
    tree.remove(&5);
    tree.insert(10, 2);
    *tree.get_mut(&10).unwrap() = 3;
    assert_eq!(tree.get_node(i).key, 10);
    assert_eq!(tree.get_node(i).value, 3);
}
