use red_black_tree::{
    opposite, RBNode, RedBlackTree, BLACK, COLOR, LEFT, PARENT, RED, RIGHT, SENTINEL,
};
use std::collections::BTreeMap;

type Tree = RedBlackTree<u64, u64, 1024>;

/// Walks the tree from the root and checks the search order and the parent links;
/// returns the keys in order.
fn check_structure(tree: &Tree) -> Vec<u64> {
    fn walk(tree: &Tree, node: u32, parent: u32, lo: Option<u64>, hi: Option<u64>, out: &mut Vec<u64>) {
        if node == SENTINEL {
            return;
        }
        assert_eq!(tree.get_parent(node), parent);
        let color = tree.get_color(node);
        assert!(color == RED || color == BLACK);
        let key = tree.get_node(node).key;
        if let Some(lo) = lo {
            assert!(lo < key);
        }
        if let Some(hi) = hi {
            assert!(key < hi);
        }
        walk(tree, tree.get_left(node), node, lo, Some(key), out);
        out.push(key);
        walk(tree, tree.get_right(node), node, Some(key), hi, out);
    }
    let mut out = Vec::new();
    walk(tree, tree.root, SENTINEL, None, None, &mut out);
    assert_eq!(out.len(), tree.size());
    out
}

fn contents(tree: &Tree) -> Vec<(u64, u64)> {
    let mut it = tree.iter();
    let mut out = Vec::new();
    while let Some((k, v)) = it.next() {
        out.push((*k, *v));
    }
    out
}

#[test]
fn new_tree_is_empty() {
    let tree = Tree::new();
    assert_eq!(tree.size(), 0);
    assert_eq!(tree.root, SENTINEL);
    assert_eq!(tree.get(&7), None);
    assert!(contents(&tree).is_empty());
}

#[test]
fn default_tree_is_empty() {
    let tree: Tree = Default::default();
    assert_eq!(tree.size(), 0);
    assert_eq!(tree.root, SENTINEL);
}

#[test]
fn insert_then_get() {
    let mut tree = Tree::new();
    assert_eq!(tree.insert(10, 100), Some(1));
    assert_eq!(tree.insert(5, 50), Some(2));
    assert_eq!(tree.insert(20, 200), Some(3));
    assert_eq!(tree.size(), 3);
    assert_eq!(tree.get(&10), Some(&100));
    assert_eq!(tree.get(&5), Some(&50));
    assert_eq!(tree.get(&20), Some(&200));
    assert_eq!(tree.get(&15), None);
    assert_eq!(check_structure(&tree), vec![5, 10, 20]);
}

#[test]
fn insert_existing_key_updates_in_place() {
    let mut tree = Tree::new();
    tree.insert(1, 10);
    let i = tree.insert(2, 20).unwrap();
    assert_eq!(tree.insert(2, 21), Some(i));
    assert_eq!(tree.size(), 2);
    assert_eq!(tree.get(&2), Some(&21));
    assert_eq!(tree.get_node(i).value, 21);
    assert_eq!(tree.get_node(i).key, 2);
}

#[test]
fn first_node_is_the_black_root() {
    let mut tree = Tree::new();
    let i = tree.insert(42, 1).unwrap();
    assert_eq!(tree.root, i);
    assert_eq!(tree.get_color(i), BLACK);
    assert!(tree.is_leaf(i));
    assert_eq!(tree.get_parent(i), SENTINEL);
}

#[test]
fn second_node_is_a_red_leaf() {
    let mut tree = Tree::new();
    let root = tree.insert(42, 1).unwrap();
    let j = tree.insert(50, 2).unwrap();
    assert_eq!(tree.get_right(root), j);
    assert_eq!(tree.get_left(root), SENTINEL);
    assert_eq!(tree.get_parent(j), root);
    assert_eq!(tree.get_color(j), RED);
    assert!(tree.is_leaf(j));
    assert!(!tree.is_leaf(root));
}

#[test]
fn ascending_inserts_rotate_at_the_root() {
    let mut tree = Tree::new();
    let a = tree.insert(1, 1).unwrap();
    let b = tree.insert(2, 2).unwrap();
    let c = tree.insert(3, 3).unwrap();
    assert_eq!(tree.root, b);
    assert_eq!(tree.get_left(b), a);
    assert_eq!(tree.get_right(b), c);
    assert_eq!(tree.get_color(b), BLACK);
    assert_eq!(tree.get_color(a), RED);
    assert_eq!(tree.get_color(c), RED);
    assert_eq!(check_structure(&tree), vec![1, 2, 3]);
}

#[test]
fn get_mut_writes_through() {
    let mut tree = Tree::new();
    tree.insert(3, 30);
    tree.insert(4, 40);
    if let Some(v) = tree.get_mut(&3) {
        *v = 33;
    } else {
        panic!("key 3 is present");
    }
    assert!(tree.get_mut(&5).is_none());
    assert_eq!(tree.get(&3), Some(&33));
    assert_eq!(tree.get(&4), Some(&40));
}

#[test]
fn index_and_index_mut() {
    let mut tree = Tree::new();
    tree.insert(8, 80);
    assert_eq!(*tree.index(&8), 80);
    *tree.index_mut(&8) += 1;
    assert_eq!(*tree.index(&8), 81);
}

#[test]
fn remove_returns_the_value() {
    let mut tree = Tree::new();
    for k in 0..10u64 {
        tree.insert(k, k * 10);
    }
    assert_eq!(tree.remove(&4), Some(40));
    assert_eq!(tree.get(&4), None);
    assert_eq!(tree.size(), 9);
    assert_eq!(check_structure(&tree), vec![0, 1, 2, 3, 5, 6, 7, 8, 9]);
}

#[test]
fn remove_absent_key_changes_nothing() {
    let mut tree = Tree::new();
    assert_eq!(tree.remove(&1), None);
    tree.insert(1, 10);
    tree.insert(2, 20);
    let before = contents(&tree);
    let root = tree.root;
    assert_eq!(tree.remove(&7), None);
    assert_eq!(contents(&tree), before);
    assert_eq!(tree.root, root);
}

#[test]
fn remove_root_and_leaves() {
    let mut tree = Tree::new();
    tree.insert(2, 20);
    tree.insert(1, 10);
    tree.insert(3, 30);
    assert_eq!(tree.remove(&2), Some(20));
    assert_eq!(check_structure(&tree), vec![1, 3]);
    assert_eq!(tree.remove(&1), Some(10));
    assert_eq!(tree.remove(&3), Some(30));
    assert_eq!(tree.size(), 0);
    assert_eq!(tree.root, SENTINEL);
}

#[test]
fn removed_slot_is_reused() {
    let mut tree = Tree::new();
    tree.insert(1, 10);
    let i = tree.insert(2, 20).unwrap();
    tree.insert(3, 30);
    tree.remove(&2);
    assert_eq!(tree.insert(9, 90), Some(i));
    assert_eq!(tree.get(&9), Some(&90));
}

#[test]
fn freed_slot_is_cleared() {
    let mut tree = Tree::new();
    for k in [5u64, 3, 8, 1, 4] {
        tree.insert(k, k);
    }
    let i = tree.insert(3, 3).unwrap();
    assert_eq!(tree.remove(&3), Some(3));
    assert_eq!(tree.get_left(i), SENTINEL);
    assert_eq!(tree.get_right(i), SENTINEL);
    assert_eq!(tree.get_parent(i), SENTINEL);
    assert_eq!(tree.get_color(i), BLACK);
    assert!(tree.is_leaf(i));
    check_structure(&tree);
}

#[test]
fn full_tree_refuses_new_keys() {
    let mut tree = RedBlackTree::<u64, u64, 4>::new();
    assert!(tree.insert(1, 1).is_some());
    assert!(tree.insert(2, 2).is_some());
    assert!(tree.insert(3, 3).is_some());
    assert_eq!(tree.insert(4, 4), None);
    assert_eq!(tree.size(), 3);
    assert!(tree.insert(2, 22).is_some());
    assert_eq!(tree.get(&2), Some(&22));
    assert_eq!(tree.get(&4), None);
}

#[test]
fn two_slot_tree_holds_one_key() {
    let mut tree = RedBlackTree::<u64, u64, 2>::new();
    assert_eq!(tree.insert(5, 50), Some(1));
    assert_eq!(tree.insert(6, 60), None);
    assert_eq!(tree.remove(&5), Some(50));
    assert_eq!(tree.insert(6, 60), Some(1));
}

#[test]
fn iter_visits_in_key_order() {
    let mut tree = Tree::new();
    for k in [50u64, 20, 80, 10, 30, 70, 90, 60, 40] {
        tree.insert(k, k + 1);
    }
    let got = contents(&tree);
    let want: Vec<(u64, u64)> = [10u64, 20, 30, 40, 50, 60, 70, 80, 90].iter().map(|k| (*k, *k + 1)).collect();
    assert_eq!(got, want);
}

#[test]
fn iter_ends_and_stays_ended() {
    let mut tree = Tree::new();
    tree.insert(1, 1);
    let mut it = tree.iter();
    assert_eq!(it.next(), Some((&1, &1)));
    assert_eq!(it.next(), None);
    assert_eq!(it.next(), None);
}

#[test]
fn iter_mut_updates_every_value() {
    let mut tree = Tree::new();
    for k in [3u64, 1, 2] {
        tree.insert(k, k);
    }
    {
        let mut it = tree.iter_mut();
        let mut seen = Vec::new();
        while let Some((k, v)) = it.next() {
            seen.push(*k);
            *v *= 100;
        }
        assert_eq!(seen, vec![1, 2, 3]);
    }
    assert_eq!(contents(&tree), vec![(1, 100), (2, 200), (3, 300)]);
}

#[test]
fn find_min_and_max() {
    let mut tree = Tree::new();
    for k in [50u64, 20, 80, 10, 30, 70, 90] {
        tree.insert(k, 0);
    }
    let min = tree.find_min(tree.root);
    let max = tree.find_max(tree.root);
    assert_eq!(tree.get_node(min).key, 10);
    assert_eq!(tree.get_node(max).key, 90);
    assert_eq!(tree.get_left(min), SENTINEL);
    assert_eq!(tree.get_right(max), SENTINEL);
    assert_eq!(tree.find_min(SENTINEL), SENTINEL);
    assert_eq!(tree.find_max(SENTINEL), SENTINEL);
}

#[test]
fn find_min_of_a_subtree() {
    let mut tree = Tree::new();
    for k in [50u64, 20, 80, 10, 30, 70, 90] {
        tree.insert(k, 0);
    }
    let right = tree.get_right(tree.root);
    let m = tree.find_min(right);
    assert_eq!(tree.get_node(m).key, 70);
}

#[test]
fn opposite_directions() {
    assert_eq!(opposite(LEFT), RIGHT);
    assert_eq!(opposite(RIGHT), LEFT);
}

#[test]
fn rb_node_new_holds_key_and_value() {
    let n = RBNode::new(3u64, 4u64);
    assert_eq!(n.key, 3);
    assert_eq!(n.value, 4);
}

#[test]
fn connect_links_both_ways() {
    let mut tree = Tree::new();
    let a = tree.insert(1, 1).unwrap();
    let b = tree.insert(2, 2).unwrap();
    tree.connect(a, SENTINEL, RIGHT);
    assert_eq!(tree.get_right(a), SENTINEL);
    tree.connect(a, b, RIGHT);
    assert_eq!(tree.get_right(a), b);
    assert_eq!(tree.get_parent(b), a);
    tree.connect(SENTINEL, b, LEFT);
    assert_eq!(tree.get_parent(b), SENTINEL);
    assert_eq!(tree.get_left(SENTINEL), SENTINEL);
    assert_eq!(tree.get_color(b), RED);
    assert_eq!(PARENT, 2);
    assert_eq!(COLOR, 3);
}

#[test]
fn matches_a_btree_map_under_mixed_operations() {
    let mut tree = Tree::new();
    let mut model: BTreeMap<u64, u64> = BTreeMap::new();
    let mut seed: u64 = 0x9E37_79B9_7F4A_7C15;
    for step in 0..4000u64 {
        seed = seed.wrapping_mul(6364136223846793005).wrapping_add(1442695040888963407);
        let key = (seed >> 33) % 300;
        if (seed >> 20) % 3 == 0 {
            assert_eq!(tree.remove(&key), model.remove(&key), "remove {} at step {}", key, step);
        } else {
            assert!(tree.insert(key, step).is_some());
            model.insert(key, step);
        }
        assert_eq!(tree.size(), model.len());
        if step % 97 == 0 {
            let keys = check_structure(&tree);
            assert_eq!(keys, model.keys().copied().collect::<Vec<_>>());
        }
    }
    let got = contents(&tree);
    let want: Vec<(u64, u64)> = model.iter().map(|(k, v)| (*k, *v)).collect();
    assert_eq!(got, want);
    for k in 0..300u64 {
        assert_eq!(tree.get(&k), model.get(&k));
    }
}

#[test]
fn clone_is_independent() {
    let mut tree = Tree::new();
    tree.insert(1, 10);
    tree.insert(2, 20);
    let copy = tree.clone();
    tree.insert(3, 30);
    tree.remove(&1);
    assert_eq!(contents(&copy), vec![(1, 10), (2, 20)]);
    assert_eq!(contents(&tree), vec![(2, 20), (3, 30)]);
}

#[test]
fn removing_the_root_with_one_child_lifts_the_child() {
    let mut t = RedBlackTree::<u64, u64, 8>::new();
    t.insert(1, 10);
    let r2 = t.insert(2, 20).unwrap();
    assert_eq!(t.remove(&1), Some(10));
    assert_eq!(t.root, r2);
    assert_eq!(t.get_root(), r2);
    assert_eq!(t.get_parent(r2), SENTINEL);
    assert_eq!(t.get(&1), None);
    assert_eq!(t.get(&2), Some(&20));
    assert_eq!(t.size(), 1);
}

#[test]
fn iterator_fields_at_start_and_end() {
    let mut t = Tree::new();
    t.insert(1, 1);
    t.insert(2, 2);
    let root = t.root;
    let mut it = t.iter();
    assert!(it.stack.is_empty());
    assert_eq!(it.node, root);
    while it.next().is_some() {}
    assert!(it.stack.is_empty());
    assert_eq!(it.node, SENTINEL);
    assert!(it.next().is_none());
}

#[test]
fn red_uncle_recolors_parent_uncle_and_grandparent() {
    let mut t = Tree::new();
    let g = t.insert(20, 0).unwrap();
    let p = t.insert(10, 0).unwrap();
    let u = t.insert(30, 0).unwrap();
    let x = t.insert(5, 0).unwrap();
    assert_eq!(t.get_color(p), BLACK);
    assert_eq!(t.get_color(u), BLACK);
    assert_eq!(t.get_color(g), BLACK);
    assert_eq!(t.get_color(x), RED);
    assert_eq!(t.get_left(p), x);
}

#[test]
fn rb_node_default_is_zeroed() {
    let n: RBNode<u64, u64> = Default::default();
    assert_eq!(n.key, 0);
    assert_eq!(n.value, 0);
}

#[test]
fn sentinel_reads_as_a_black_empty_link() {
    let mut tree = Tree::new();
    tree.insert(1, 1);
    assert_eq!(tree.get_color(SENTINEL), BLACK);
    assert_eq!(tree.get_left(SENTINEL), SENTINEL);
    assert_eq!(tree.get_parent(SENTINEL), SENTINEL);
    assert!(tree.is_leaf(SENTINEL));
}
