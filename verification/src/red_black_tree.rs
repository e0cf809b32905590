//! The red-black tree: a binary search tree over the slots of a `NodeAllocator`.
//!
//! Register `LEFT` and `RIGHT` of a slot hold its children, `PARENT` its
//! parent and `COLOR` its color; `SENTINEL` (index `0`) is the empty link.
//!
//! Nodes carry red-black colors and insertion and removal recolor and rotate as
//! stated by `is_insert_fix_pass` and `is_remove_fix_pass`; those steps keep the
//! search order and the map but do not keep the red-black balance rules in every
//! case, so no balance property is claimed. A tree is built in place; loading one
//! from a raw byte buffer is not offered, as it would reinterpret bytes as the
//! arena, which safe code cannot do.
use vstd::prelude::*;
use crate::key_order::{key_gt, key_le, key_lt, total_key_order, lemma_key_order};
use crate::node_allocator::{NodeAllocator, SENTINEL};

verus! {

/// Register that holds the left child.
pub const LEFT: u32 = 0;

/// Register that holds the right child.
pub const RIGHT: u32 = 1;

/// Register that holds the parent.
pub const PARENT: u32 = 2;

/// Register that holds the color.
pub const COLOR: u32 = 3;

/// Color of a black node; a fresh slot is black.
pub const BLACK: u32 = 0;

/// Color of a red node.
pub const RED: u32 = 1;

/// The other direction: `RIGHT` for `LEFT` and `LEFT` for `RIGHT`.
pub fn opposite(dir: u32) -> (r: u32)
    requires
        dir <= 1,
    ensures
        r == 1 - dir,
{
    1 - dir
}

/// A key and the value stored under it.
#[derive(Clone, Copy, Default)]
pub struct RBNode<K: Copy, V: Copy> {
    pub key: K,
    pub value: V,
}

impl<K: Copy, V: Copy> RBNode<K, V> {
    pub fn new(key: K, value: V) -> (n: Self)
        ensures
            n.key == key,
            n.value == value,
    {
        Self { key, value }
    }
}

/// A map from keys to values kept as a binary search tree in an arena of
/// `MAX_SIZE` slots, slot `0` being the sentinel.
#[verifier::reject_recursive_types(K)]
#[derive(Clone)]
pub struct RedBlackTree<K: PartialOrd + Copy + Default, V: Copy + Default, const MAX_SIZE: usize> {
    pub root: u32,
    allocator: NodeAllocator<RBNode<K, V>, MAX_SIZE>,
    /// For each node in the tree, the set of nodes of its subtree.
    desc: Ghost<Map<u32, Set<u32>>>,
}

impl<K: PartialOrd + Copy + Default, V: Copy + Default, const MAX_SIZE: usize> View for RedBlackTree<
    K,
    V,
    MAX_SIZE,
> {
    type V = Map<K, V>;

    /// Each key held by a node of the tree, mapped to that node's value.
    closed spec fn view(&self) -> Map<K, V> {
        Map::new(
            |k: K| exists|i: u32| self.live().contains(i) && self.key(i) == k,
            |k: K| self.node_at(self.index_of(k)).value,
        )
    }
}

impl<K: PartialOrd + Copy + Default, V: Copy + Default, const MAX_SIZE: usize> Default for RedBlackTree<
    K,
    V,
    MAX_SIZE,
> {
    /// An empty tree whose slots all hold the default key and value.
    fn default() -> (t: Self)
        ensures
            total_key_order::<K>() ==> t.wf(),
            t@ == Map::<K, V>::empty(),
            t.root_node() == SENTINEL,
            t.next_index() == 1,
            forall|i: u32, r: u32| #[trigger] t.reg(i, r) == 0,
    {
        reveal(RedBlackTree::wf);
        let default_node = RBNode { key: K::default(), value: V::default() };
        let allocator = NodeAllocator::<RBNode<K, V>, MAX_SIZE>::new(default_node);
        let t = RedBlackTree { root: SENTINEL, allocator, desc: Ghost(Map::empty()) };
        proof {
            assert(t.desc@.dom() =~= t.live());
            assert(t@ =~= Map::<K, V>::empty());
        }
        t
    }
}

impl<K: PartialOrd + Copy + Default, V: Copy + Default, const MAX_SIZE: usize> RedBlackTree<
    K,
    V,
    MAX_SIZE,
> {
    // ------------------------------------------------------------------
    // The model
    // ------------------------------------------------------------------
    /// Register `r` of slot `i` (`0` for the sentinel).
    pub closed spec fn reg(&self, i: u32, r: u32) -> u32 {
        self.allocator.reg(i, r)
    }

    /// The key and value held in slot `i`.
    pub closed spec fn node_at(&self, i: u32) -> RBNode<K, V> {
        self.allocator.value(i)
    }

    /// The slots that are nodes of the tree.
    pub closed spec fn live(&self) -> Set<u32> {
        self.allocator.live()
    }

    /// The nodes of the subtree rooted at `i` (empty for the sentinel).
    pub closed spec fn subtree(&self, i: u32) -> Set<u32> {
        if i == SENTINEL {
            Set::empty()
        } else {
            self.desc@[i]
        }
    }

    /// The root node (`SENTINEL` for an empty tree).
    pub closed spec fn root_node(&self) -> u32 {
        self.root
    }

    /// The slot that the next new node takes.
    pub closed spec fn next_index(&self) -> u32 {
        self.allocator.next_index()
    }

    /// Every slot that is not a node of the tree has all its registers at `0`.
    pub closed spec fn arena_clean(&self) -> bool {
        self.allocator.clean()
    }

    /// The arena's bookkeeping is consistent (enough for the register accessors).
    pub closed spec fn arena_ok(&self) -> bool {
        self.allocator.inv()
    }

    pub open spec fn key(&self, i: u32) -> K {
        self.node_at(i).key
    }

    pub open spec fn left(&self, i: u32) -> u32 {
        self.reg(i, LEFT)
    }

    pub open spec fn right(&self, i: u32) -> u32 {
        self.reg(i, RIGHT)
    }

    pub open spec fn parent(&self, i: u32) -> u32 {
        self.reg(i, PARENT)
    }

    /// The links of node `i` are consistent with its neighbours, its subtree is
    /// itself and its children's subtrees, and the keys of its left subtree are
    /// below its key and those of its right subtree above.
    spec fn node_ok(&self, i: u32) -> bool {
        let l = self.left(i);
        let r = self.right(i);
        let p = self.parent(i);
        &&& l == SENTINEL || self.live().contains(l)
        &&& r == SENTINEL || self.live().contains(r)
        &&& self.subtree(i) == self.subtree(l).union(self.subtree(r)).insert(i)
        &&& self.subtree(i).subset_of(self.live())
        &&& !self.subtree(l).contains(i)
        &&& !self.subtree(r).contains(i)
        &&& self.subtree(l).disjoint(self.subtree(r))
        &&& l != SENTINEL ==> self.parent(l) == i
        &&& r != SENTINEL ==> self.parent(r) == i
        &&& p == SENTINEL ==> i == self.root
        &&& p != SENTINEL ==> self.live().contains(p) && (self.left(p) == i || self.right(p) == i)
        &&& forall|j: u32| #[trigger]
            self.subtree(l).contains(j) ==> key_lt(self.key(j), self.key(i))
        &&& forall|j: u32| #[trigger]
            self.subtree(r).contains(j) ==> key_lt(self.key(i), self.key(j))
    }

    /// The tree is well formed: a binary search tree over the live slots, rooted at
    /// `root`, whose keys are distinct.
    #[verifier::opaque]
    pub closed spec fn wf(&self) -> bool {
        &&& total_key_order::<K>()
        &&& self.allocator.inv()
        &&& self.allocator.clean()
        &&& self.desc@.dom() == self.live()
        &&& self.root == SENTINEL ==> self.live() == Set::<u32>::empty()
        &&& self.root != SENTINEL ==> self.live().contains(self.root) && self.subtree(self.root)
            == self.live()
        &&& forall|i: u32| self.live().contains(i) ==> #[trigger] self.node_ok(i)
        &&& forall|i: u32| #[trigger] self.reg(i, COLOR) == BLACK || self.reg(i, COLOR) == RED
        &&& forall|i: u32, j: u32|
            self.live().contains(i) && self.live().contains(j) && #[trigger] self.key(i)
                == #[trigger] self.key(j) ==> i == j
    }

    /// The index of the node that holds key `k`.
    pub closed spec fn index_of(&self, k: K) -> u32 {
        choose|i: u32| self.live().contains(i) && self.key(i) == k
    }

    // ------------------------------------------------------------------
    // Structural lemmas
    // ------------------------------------------------------------------
    proof fn lemma_wf_basics(&self)
        requires
            self.wf(),
        ensures
            self.live().finite(),
            !self.live().contains(SENTINEL),
            forall|i: u32| #[trigger] self.live().contains(i) ==> (i as int) < MAX_SIZE,
            self.allocator.spec_size() == self.live().len(),
            self.live().len() < u32::MAX,
            self.subtree(SENTINEL) == Set::<u32>::empty(),
            total_key_order::<K>(),
            self.arena_ok(),
            self.allocator.inv(),
            self.allocator.clean(),
            self.root == SENTINEL ==> self.live() == Set::<u32>::empty(),
            self.root != SENTINEL ==> self.live().contains(self.root) && self.subtree(self.root)
                == self.live(),
            forall|i: u32| self.live().contains(i) ==> #[trigger] self.node_ok(i),
            forall|i: u32| #[trigger] self.reg(i, COLOR) == BLACK || self.reg(i, COLOR) == RED,
    {
        reveal(RedBlackTree::wf);
        self.allocator.lemma_live();
    }

    /// No two nodes share a key.
    spec fn keys_unique(&self) -> bool {
        forall|i: u32, j: u32|
            self.live().contains(i) && self.live().contains(j) && #[trigger] self.key(i)
                == #[trigger] self.key(j) ==> i == j
    }

    /// With distinct keys, the view holds exactly the keys of the nodes, each with
    /// its node's value.
    proof fn lemma_view(&self)
        requires
            self.keys_unique(),
            self.live().finite(),
        ensures
            forall|i: u32| #[trigger]
                self.live().contains(i) ==> self@.contains_key(self.key(i)) && self@[self.key(i)]
                    == self.node_at(i).value && self.index_of(self.key(i)) == i,
            forall|k: K| #[trigger]
                self@.contains_key(k) ==> self.live().contains(self.index_of(k)) && self.key(
                    self.index_of(k),
                ) == k,
            forall|k: K|
                #[trigger] self@.contains_key(k) <==> exists|i: u32|
                    self.live().contains(i) && self.key(i) == k,
            self@.dom().finite(),
            self@.len() == self.live().len(),
    {
        let f = |i: u32| self.key(i);
        assert(self@.dom() =~= self.live().map(f)) by {
            assert forall|k: K| #[trigger] self@.dom().contains(k) implies self.live().map(f).contains(k) by {
                let i = choose|i: u32| self.live().contains(i) && self.key(i) == k;
                assert(f(i) == k);
            }
        }
        assert(vstd::relations::injective_on(f, self.live())) by {
            assert forall|a: u32, b: u32|
                self.live().contains(a) && self.live().contains(b) && #[trigger] f(a) == #[trigger] f(b) implies a == b by {
                assert(self.key(a) == self.key(b));
            }
        }
        vstd::set_lib::lemma_map_size(self.live(), self@.dom(), f);
        assert forall|i: u32| #[trigger] self.live().contains(i) implies self@.contains_key(self.key(i))
            && self@[self.key(i)] == self.node_at(i).value && self.index_of(self.key(i)) == i by {
            let k = self.key(i);
            assert(self@.dom().contains(k));
            let j = self.index_of(k);
            assert(self.live().contains(j) && self.key(j) == k);
        }
    }

    /// Two trees with the same nodes holding the same keys and values stand for the
    /// same map.
    proof fn lemma_view_same(&self, old: &Self)
        requires
            old.wf(),
            self.live() == old.live(),
            forall|i: u32| (i as int) < MAX_SIZE ==> #[trigger] self.node_at(i) == old.node_at(i),
        ensures
            self@ == old@,
    {
        reveal(RedBlackTree::wf);
        old.lemma_wf_basics();
        assert forall|i: u32| #[trigger] self.live().contains(i) implies self.key(i) == old.key(i) by {
        }
        assert(self.keys_unique()) by {
            assert forall|i: u32, j: u32|
                self.live().contains(i) && self.live().contains(j) && #[trigger] self.key(i)
                    == #[trigger] self.key(j) implies i == j by {
                assert(old.key(i) == old.key(j));
            }
        }
        assert(old.keys_unique());
        self.lemma_view();
        old.lemma_view();
        assert forall|k: K| #[trigger] self@.contains_key(k) <==> old@.contains_key(k) by {
            if self@.contains_key(k) {
                let i = self.index_of(k);
                assert(old.live().contains(i) && old.key(i) == k);
            }
            if old@.contains_key(k) {
                let i = old.index_of(k);
                assert(self.live().contains(i) && self.key(i) == k);
            }
        }
        assert forall|k: K| #[trigger] self@.contains_key(k) implies self@[k] == old@[k] by {
            let i = old.index_of(k);
            assert(self.live().contains(i) && self.key(i) == k);
            assert(self.index_of(self.key(i)) == i);
        }
        assert(self@ =~= old@);
    }

    /// The view holds exactly the keys of the nodes, each with its node's value,
    /// and no two nodes share a key.
    proof fn lemma_map(&self)
        requires
            self.wf(),
        ensures
            forall|i: u32| #[trigger]
                self.live().contains(i) ==> self@.contains_key(self.key(i)) && self@[self.key(i)]
                    == self.node_at(i).value && self.index_of(self.key(i)) == i,
            forall|k: K| #[trigger]
                self@.contains_key(k) ==> self.live().contains(self.index_of(k)) && self.key(
                    self.index_of(k),
                ) == k,
            forall|k: K|
                #[trigger] self@.contains_key(k) <==> exists|i: u32|
                    self.live().contains(i) && self.key(i) == k,
            forall|i: u32, j: u32|
                self.live().contains(i) && self.live().contains(j) && #[trigger] self.key(i)
                    == #[trigger] self.key(j) ==> i == j,
            self@.dom().finite(),
            self@.len() == self.live().len(),
            self.desc@.dom() == self.live(),
    {
        reveal(RedBlackTree::wf);
        self.lemma_wf_basics();
        assert(self.keys_unique());
        self.lemma_view();
    }

    /// Adding node `n` with a fresh key adds that key and value to the view.
    proof fn lemma_view_insert(&self, old: &Self, n: u32, key: K, value: V)
        requires
            old.wf(),
            self.keys_unique(),
            !old.live().contains(n),
            self.live() == old.live().insert(n),
            self.node_at(n) == (RBNode { key, value }),
            forall|i: u32| #[trigger] old.live().contains(i) ==> self.node_at(i) == old.node_at(i),
            !old@.contains_key(key),
        ensures
            self@ == old@.insert(key, value),
    {
        old.lemma_map();
        old.lemma_wf_basics();
        self.lemma_view();
        assert forall|k: K| #[trigger] self@.contains_key(k) <==> old@.insert(key, value).contains_key(k) by {
            if self@.contains_key(k) && k != key {
                let j = self.index_of(k);
                assert(j != n);
                assert(old.live().contains(j) && old.key(j) == k);
            }
            if old@.contains_key(k) {
                let j = old.index_of(k);
                assert(self.live().contains(j) && self.key(j) == k);
            }
            if k == key {
                assert(self.live().contains(n) && self.key(n) == k);
            }
        }
        assert forall|k: K| #[trigger] self@.contains_key(k) implies self@[k] == old@.insert(key, value)[k] by {
            if k == key {
                assert(self.live().contains(n));
                assert(self.index_of(self.key(n)) == n);
            } else {
                let j = old.index_of(k);
                assert(self.live().contains(j) && self.key(j) == k);
                assert(self.index_of(self.key(j)) == j);
            }
        }
        assert(self@ =~= old@.insert(key, value));
    }

    /// Dropping node `z` drops its key from the view.
    proof fn lemma_view_remove(&self, old: &Self, z: u32)
        requires
            old.wf(),
            old.live().contains(z),
            self.live() == old.live().remove(z),
            forall|i: u32| #[trigger] self.live().contains(i) ==> self.node_at(i) == old.node_at(i),
        ensures
            self@ == old@.remove(old.key(z)),
    {
        old.lemma_map();
        old.lemma_wf_basics();
        assert(self.keys_unique()) by {
            assert forall|i: u32, j: u32|
                self.live().contains(i) && self.live().contains(j) && #[trigger] self.key(i)
                    == #[trigger] self.key(j) implies i == j by {
                assert(old.key(i) == old.key(j));
            }
        }
        self.lemma_view();
        let kz = old.key(z);
        assert forall|k: K| #[trigger] self@.contains_key(k) <==> old@.remove(kz).contains_key(k) by {
            if self@.contains_key(k) {
                let j = self.index_of(k);
                assert(old.live().contains(j) && old.key(j) == k);
                assert(j != z);
            }
            if old@.contains_key(k) && k != kz {
                let j = old.index_of(k);
                assert(j != z);
                assert(self.live().contains(j) && self.key(j) == k);
            }
        }
        assert forall|k: K| #[trigger] self@.contains_key(k) implies self@[k] == old@.remove(kz)[k] by {
            let j = self.index_of(k);
            assert(old.live().contains(j) && old.key(j) == k);
            assert(old.index_of(old.key(j)) == j);
        }
        assert(self@ =~= old@.remove(kz));
    }

    /// In a well-formed tree the keys of a node's left subtree lie below its key and
    /// those of its right subtree above; each child names the node as its parent,
    /// only the root has no parent, and the root's subtree is the whole tree.
    pub proof fn lemma_search_tree(&self, i: u32, j: u32)
        requires
            self.wf(),
            self.live().contains(i),
        ensures
            self.subtree(i).contains(i),
            self.subtree(i).subset_of(self.live()),
            self.subtree(i) == self.subtree(self.left(i)).union(self.subtree(self.right(i))).insert(i),
            self.subtree(self.left(i)).contains(j) ==> key_lt(self.key(j), self.key(i)),
            self.subtree(self.right(i)).contains(j) ==> key_lt(self.key(i), self.key(j)),
            self.left(i) != SENTINEL ==> self.live().contains(self.left(i)) && self.parent(
                self.left(i),
            ) == i,
            self.right(i) != SENTINEL ==> self.live().contains(self.right(i)) && self.parent(
                self.right(i),
            ) == i,
            self.parent(i) == SENTINEL <==> i == self.root_node(),
            self.subtree(self.root_node()) == self.live(),
            !self.live().contains(SENTINEL),
    {
        reveal(RedBlackTree::wf);
        self.lemma_wf_basics();
        self.lemma_sub(i);
        if i == self.root {
            let p = self.parent(i);
            if p != SENTINEL {
                assert(self.node_ok(p));
                self.lemma_sub(p);
                self.lemma_root_only(p);
                assert(false);
            }
        }
    }

    /// Every slot is colored `BLACK` or `RED`, and a slot that is not a node of the
    /// tree has all its registers at zero, so a slot taken anew starts as a black
    /// node without links; the arena's bookkeeping is consistent.
    pub proof fn lemma_slot_state(&self, i: u32, q: u32)
        requires
            self.wf(),
        ensures
            self.arena_ok(),
            self.live().contains(i) ==> (i as int) < MAX_SIZE,
            self.reg(i, COLOR) == BLACK || self.reg(i, COLOR) == RED,
            !self.live().contains(i) ==> self.reg(i, q) == 0,
    {
        self.lemma_wf_basics();
        if !self.live().contains(i) {
            self.allocator.lemma_clean(i);
        }
    }

    /// In a well-formed tree the root is the sentinel exactly when there are no
    /// nodes, and otherwise a node below `MAX_SIZE`; every node but the root hangs
    /// from its parent, a node; and the nodes leave room for the sentinel slot.
    pub proof fn lemma_tree_links(&self, i: u32)
        requires
            self.wf(),
        ensures
            self.root_node() == SENTINEL <==> self.live() == Set::<u32>::empty(),
            self.root_node() != SENTINEL ==> self.live().contains(self.root_node()) && (
            self.root_node() as int) < MAX_SIZE,
            self.live().contains(i) && i != self.root_node() ==> self.live().contains(
                self.parent(i),
            ) && (self.left(self.parent(i)) == i || self.right(self.parent(i)) == i),
            self.live().len() == 0 || self.live().len() + 1 <= MAX_SIZE,
            self.live().finite(),
    {
        reveal(RedBlackTree::wf);
        self.lemma_wf_basics();
        self.allocator.lemma_live();
        if self.live().contains(i) {
            assert(self.node_ok(i));
        }
    }

    /// A well-formed tree stands for a finite map with one entry per node: each
    /// node's key mapped to its value.
    pub proof fn lemma_nodes_hold_view(&self)
        requires
            self.wf(),
        ensures
            self@.dom().finite(),
            self@.len() == self.live().len(),
            forall|i: u32| #[trigger]
                self.live().contains(i) ==> self@.contains_key(self.key(i)) && self@[self.key(i)]
                    == self.node_at(i).value && self.index_of(self.key(i)) == i,
            forall|k: K| #[trigger]
                self@.contains_key(k) ==> self.live().contains(self.index_of(k)) && self.key(
                    self.index_of(k),
                ) == k,
            total_key_order::<K>(),
    {
        self.lemma_map();
        self.lemma_wf_basics();
    }

    /// A node's subtree is finite, holds the node, and is larger than either child's.
    proof fn lemma_sub(&self, i: u32)
        requires
            self.wf(),
            self.live().contains(i),
        ensures
            self.node_ok(i),
            self.subtree(i).finite(),
            self.subtree(i).contains(i),
            self.subtree(self.left(i)).finite(),
            self.subtree(self.right(i)).finite(),
            self.subtree(self.left(i)).len() < self.subtree(i).len(),
            self.subtree(self.right(i)).len() < self.subtree(i).len(),
            self.subtree(self.left(i)).subset_of(self.subtree(i)),
            self.subtree(self.right(i)).subset_of(self.subtree(i)),
    {
        reveal(RedBlackTree::wf);
        self.lemma_wf_basics();
        assert(self.node_ok(i));
        let s = self.subtree(i);
        vstd::set_lib::lemma_len_subset(s, self.live());
        let l = self.subtree(self.left(i));
        let r = self.subtree(self.right(i));
        assert(l.subset_of(s.remove(i)));
        assert(r.subset_of(s.remove(i)));
        vstd::set_lib::lemma_len_subset(l, s.remove(i));
        vstd::set_lib::lemma_len_subset(r, s.remove(i));
    }

    /// A node of a subtree is live, and its own subtree lies within.
    proof fn lemma_sub_trans(&self, y: u32, c: u32)
        requires
            self.wf(),
            self.live().contains(y),
            self.subtree(y).contains(c),
        ensures
            self.live().contains(c),
            self.subtree(c).subset_of(self.subtree(y)),
        decreases self.subtree(y).len(),
    {
        reveal(RedBlackTree::wf);
        self.lemma_sub(y);
        if c != y {
            let l = self.left(y);
            let r = self.right(y);
            if self.subtree(l).contains(c) {
                self.lemma_sub_trans(l, c);
            } else {
                self.lemma_sub_trans(r, c);
            }
        }
    }

    /// The parent of a node of a subtree, other than its root, lies in the subtree.
    proof fn lemma_parent_in_sub(&self, y: u32, c: u32)
        requires
            self.wf(),
            self.live().contains(y),
            self.subtree(y).contains(c),
            c != y,
        ensures
            self.subtree(y).contains(self.parent(c)),
        decreases self.subtree(y).len(),
    {
        reveal(RedBlackTree::wf);
        self.lemma_sub(y);
        let l = self.left(y);
        let r = self.right(y);
        if self.subtree(l).contains(c) {
            if c != l {
                self.lemma_parent_in_sub(l, c);
            }
        } else {
            if c != r {
                self.lemma_parent_in_sub(r, c);
            }
        }
    }

    /// A node whose subtree holds the root is the root.
    proof fn lemma_root_only(&self, x: u32)
        requires
            self.wf(),
            self.live().contains(x),
            self.subtree(x).contains(self.root),
        ensures
            x == self.root,
    {
        reveal(RedBlackTree::wf);
        if x != self.root {
            self.lemma_wf_basics();
            self.lemma_sub_trans(x, self.root);
            self.lemma_parent_in_sub(self.root, x);
            let p = self.parent(x);
            assert(self.node_ok(x));
            self.lemma_sub(p);
            self.lemma_sub(x);
            self.lemma_sub_trans(x, p);
            vstd::set_lib::lemma_len_subset(self.subtree(p), self.subtree(x));
            assert(false);
        }
    }

    // ------------------------------------------------------------------
    // Construction and accessors
    // ------------------------------------------------------------------
    /// An empty tree; it is well formed when the keys are totally ordered.
    pub fn new() -> (t: Self)
        ensures
            total_key_order::<K>() ==> t.wf(),
            t@ == Map::<K, V>::empty(),
            t.root_node() == SENTINEL,
            t.next_index() == 1,
            forall|i: u32, r: u32| #[trigger] t.reg(i, r) == 0,
    {
        Self::default()
    }

    /// The number of nodes in the tree.
    pub fn size(&self) -> (s: usize)
        requires
            self.wf(),
        ensures
            s == self@.len(),
    {
        reveal(RedBlackTree::wf);
        proof {
            self.lemma_wf_basics();
            self.lemma_map();
        }
        self.allocator.size() as usize
    }

    /// The key and value held in slot `node`.
    pub fn get_node(&self, node: u32) -> (n: &RBNode<K, V>)
        requires
            self.arena_ok(),
            (node as int) < MAX_SIZE,
        ensures
            *n == self.node_at(node),
    {
        self.allocator.get(node)
    }

    /// The root node (`SENTINEL` for an empty tree), for callers that cannot read
    /// the `root` field in proofs.
    pub fn get_root(&self) -> (r: u32)
        ensures
            r == self.root_node(),
    {
        self.root
    }

    /// Node `node` has no children.
    pub fn is_leaf(&self, node: u32) -> (b: bool)
        requires
            self.arena_ok(),
            node == SENTINEL || (node as int) < MAX_SIZE,
        ensures
            b == (self.left(node) == SENTINEL && self.right(node) == SENTINEL),
    {
        self.get_left(node) == SENTINEL && self.get_right(node) == SENTINEL
    }

    /// The left child of `node`.
    pub fn get_left(&self, node: u32) -> (c: u32)
        requires
            self.arena_ok(),
            node == SENTINEL || (node as int) < MAX_SIZE,
        ensures
            c == self.left(node),
    {
        self.allocator.get_register(node, LEFT)
    }

    /// The right child of `node`.
    pub fn get_right(&self, node: u32) -> (c: u32)
        requires
            self.arena_ok(),
            node == SENTINEL || (node as int) < MAX_SIZE,
        ensures
            c == self.right(node),
    {
        self.allocator.get_register(node, RIGHT)
    }

    /// The color of `node`.
    pub fn get_color(&self, node: u32) -> (c: u32)
        requires
            self.arena_ok(),
            node == SENTINEL || (node as int) < MAX_SIZE,
        ensures
            c == self.reg(node, COLOR),
    {
        self.allocator.get_register(node, COLOR)
    }

    /// The parent of `node`.
    pub fn get_parent(&self, node: u32) -> (p: u32)
        requires
            self.arena_ok(),
            node == SENTINEL || (node as int) < MAX_SIZE,
        ensures
            p == self.parent(node),
    {
        self.allocator.get_register(node, PARENT)
    }

    /// Child `dir` of `node`.
    fn get_child(&self, node: u32, dir: u32) -> (c: u32)
        requires
            self.arena_ok(),
            node == SENTINEL || (node as int) < MAX_SIZE,
            dir <= 1,
        ensures
            c == self.reg(node, dir),
    {
        self.allocator.get_register(node, dir)
    }

    fn is_red(&self, node: u32) -> (b: bool)
        requires
            self.arena_ok(),
            node == SENTINEL || (node as int) < MAX_SIZE,
        ensures
            b == (self.reg(node, COLOR) == RED),
    {
        self.allocator.get_register(node, COLOR) == RED
    }

    fn is_black(&self, node: u32) -> (b: bool)
        requires
            self.arena_ok(),
            node == SENTINEL || (node as int) < MAX_SIZE,
        ensures
            b == (self.reg(node, COLOR) == BLACK),
    {
        self.allocator.get_register(node, COLOR) == BLACK
    }

    // ------------------------------------------------------------------
    // Lookup
    // ------------------------------------------------------------------
    /// The value stored under `key`, if any.
    pub fn get(&self, key: &K) -> (r: Option<&V>)
        requires
            self.wf(),
        ensures
            match r {
                Some(v) => self@.contains_key(*key) && *v == self@[*key],
                None => !self@.contains_key(*key),
            },
    {
        reveal(RedBlackTree::wf);
        proof {
            self.lemma_wf_basics();
            lemma_key_order::<K>();
        }
        let mut reference_node = self.root;
        if reference_node == SENTINEL {
            return None;
        }
        loop
            invariant
                self.wf(),
                self.arena_ok(),
                self.live().contains(reference_node),
                forall|i: u32|
                    self.live().contains(i) && self.key(i) == *key ==> #[trigger] self.subtree(
                        reference_node,
                    ).contains(i),
            decreases self.subtree(reference_node).len(),
        {
            proof {
                self.lemma_sub(reference_node);
                self.lemma_wf_basics();
                self.lemma_map();
                lemma_key_order::<K>();
            }
            let ref_value = self.allocator.get(reference_node).key;
            let target = if *key < ref_value {
                self.get_left(reference_node)
            } else if *key > ref_value {
                proof {
                    assert(key_gt(*key, ref_value));
                }
                self.get_right(reference_node)
            } else {
                proof {
                    assert(!key_lt(*key, ref_value));
                    assert(!key_gt(*key, ref_value));
                    assert(!key_lt(ref_value, *key));
                    assert(*key == ref_value);
                }
                return Some(&self.get_node(reference_node).value);
            };
            proof {
                assert forall|i: u32|
                    self.live().contains(i) && self.key(i) == *key implies #[trigger] self.subtree(
                    target,
                ).contains(i) by {
                    assert(self.subtree(reference_node).contains(i));
                    if self.subtree(self.left(reference_node)).contains(i) {
                    } else if self.subtree(self.right(reference_node)).contains(i) {
                    }
                }
            }
            if target == SENTINEL {
                proof {
                    if self@.contains_key(*key) {
                        let i = choose|i: u32| self.live().contains(i) && self.key(i) == *key;
                        assert(self.subtree(target).contains(i));
                    }
                }
                return None;
            }
            reference_node = target
        }
    }

    /// A mutable reference to the value stored under `key`, if any. Whatever is
    /// written through it becomes the value under `key`; nothing else changes.
    pub fn get_mut(&mut self, key: &K) -> (r: Option<&mut V>)
        requires
            old(self).wf(),
        ensures
            match r {
                Some(v) => {
                    &&& old(self)@.contains_key(*key)
                    &&& *v == old(self)@[*key]
                    &&& final(self).wf()
                    &&& final(self)@ == old(self)@.insert(*key, *final(v))
                    &&& final(self).live() == old(self).live()
                    &&& final(self).root_node() == old(self).root_node()
                    &&& forall|j: u32, q: u32| #[trigger] final(self).reg(j, q) == old(self).reg(j, q)
                },
                None => {
                    &&& !old(self)@.contains_key(*key)
                    &&& *final(self) == *old(self)
                },
            },
    {
        proof {
            self.lemma_wf_basics();
            self.lemma_map();
            lemma_key_order::<K>();
        }
        let mut reference_node = self.root;
        if reference_node == SENTINEL {
            return None;
        }
        loop
            invariant
                *self == *old(self),
                self.wf(),
                self.arena_ok(),
                self.live().contains(reference_node),
                forall|i: u32|
                    self.live().contains(i) && self.key(i) == *key ==> #[trigger] self.subtree(
                        reference_node,
                    ).contains(i),
            decreases self.subtree(reference_node).len(),
        {
            proof {
                self.lemma_sub(reference_node);
                self.lemma_wf_basics();
                self.lemma_map();
                lemma_key_order::<K>();
            }
            let ref_value = self.allocator.get(reference_node).key;
            let target = if *key < ref_value {
                self.get_left(reference_node)
            } else if *key > ref_value {
                proof {
                    assert(key_gt(*key, ref_value));
                }
                self.get_right(reference_node)
            } else {
                proof {
                    assert(!key_lt(*key, ref_value));
                    assert(!key_gt(*key, ref_value));
                    assert(!key_lt(ref_value, *key));
                    assert(*key == ref_value);
                    old(self).lemma_value_update(reference_node);
                }
                return Some(self.value_mut(reference_node));
            };
            proof {
                assert forall|i: u32|
                    self.live().contains(i) && self.key(i) == *key implies #[trigger] self.subtree(
                    target,
                ).contains(i) by {
                    assert(self.subtree(reference_node).contains(i));
                    if self.subtree(self.left(reference_node)).contains(i) {
                    } else if self.subtree(self.right(reference_node)).contains(i) {
                    }
                }
            }
            if target == SENTINEL {
                proof {
                    if self@.contains_key(*key) {
                        let i = choose|i: u32| self.live().contains(i) && self.key(i) == *key;
                        assert(self.subtree(target).contains(i));
                    }
                }
                return None;
            }
            reference_node = target
        }
    }

    /// The value stored under `key`, which must be present.
    pub fn index(&self, key: &K) -> (v: &V)
        requires
            self.wf(),
            self@.contains_key(*key),
        ensures
            *v == self@[*key],
    {
        self.get(key).unwrap()
    }

    /// A mutable reference to the value stored under `key`, which must be present.
    pub fn index_mut(&mut self, key: &K) -> (v: &mut V)
        requires
            old(self).wf(),
            old(self)@.contains_key(*key),
        ensures
            *v == old(self)@[*key],
            final(self).wf(),
            final(self)@ == old(self)@.insert(*key, *final(v)),
            final(self).live() == old(self).live(),
            final(self).root_node() == old(self).root_node(),
            forall|j: u32, q: u32| #[trigger] final(self).reg(j, q) == old(self).reg(j, q),
    {
        self.get_mut(key).unwrap()
    }

    /// The node of least key in the subtree of `index` (`index` itself when it is
    /// not a node of the tree).
    pub fn find_min(&self, index: u32) -> (m: u32)
        requires
            self.wf(),
            (index as int) < MAX_SIZE,
        ensures
            !self.live().contains(index) ==> m == index,
            self.live().contains(index) ==> {
                &&& self.subtree(index).contains(m)
                &&& self.left(m) == SENTINEL
                &&& forall|j: u32| #[trigger]
                    self.subtree(index).contains(j) ==> key_le(self.key(m), self.key(j))
            },
    {
        reveal(RedBlackTree::wf);
        proof {
            self.lemma_wf_basics();
            lemma_key_order::<K>();
        }
        let mut node = index;
        proof {
            if !self.live().contains(index) {
                self.allocator.lemma_clean(index);
            } else {
                self.lemma_sub(index);
            }
        }
        while self.get_left(node) != SENTINEL
            invariant
                self.wf(),
                self.arena_ok(),
                (node as int) < MAX_SIZE,
                !self.live().contains(index) ==> node == index && self.left(node) == SENTINEL,
                self.live().contains(index) ==> {
                    &&& self.subtree(index).contains(node)
                    &&& forall|j: u32|
                        #[trigger] self.subtree(index).contains(j) && !self.subtree(node).contains(j)
                            ==> key_lt(self.key(node), self.key(j))
                },
            decreases if self.live().contains(node) {
                self.subtree(node).len()
            } else {
                0
            },
        {
            proof {
                self.lemma_wf_basics();
                self.lemma_sub_trans(index, node);
                self.lemma_sub(node);
            }
            let next = self.get_left(node);
            proof {
                assert(self.live().contains(next));
                self.lemma_sub(next);
                assert forall|j: u32|
                    #[trigger] self.subtree(index).contains(j) && !self.subtree(next).contains(j)
                        implies key_lt(self.key(next), self.key(j)) by {
                    if self.subtree(node).contains(j) {
                        assert(self.subtree(next).contains(next));
                        if j != node {
                            assert(self.subtree(self.right(node)).contains(j));
                        }
                    }
                }
            }
            node = next;
        }
        proof {
            if self.live().contains(index) {
                self.lemma_sub_trans(index, node);
                self.lemma_sub(node);
                assert forall|j: u32| #[trigger]
                    self.subtree(index).contains(j) implies key_le(self.key(node), self.key(j)) by {
                    if self.subtree(node).contains(j) && j != node {
                        assert(self.subtree(self.right(node)).contains(j));
                    }
                }
            }
        }
        node
    }

    /// The node of greatest key in the subtree of `index` (`index` itself when it is
    /// not a node of the tree).
    pub fn find_max(&self, index: u32) -> (m: u32)
        requires
            self.wf(),
            (index as int) < MAX_SIZE,
        ensures
            !self.live().contains(index) ==> m == index,
            self.live().contains(index) ==> {
                &&& self.subtree(index).contains(m)
                &&& self.right(m) == SENTINEL
                &&& forall|j: u32| #[trigger]
                    self.subtree(index).contains(j) ==> key_le(self.key(j), self.key(m))
            },
    {
        reveal(RedBlackTree::wf);
        proof {
            self.lemma_wf_basics();
            lemma_key_order::<K>();
        }
        let mut node = index;
        proof {
            if !self.live().contains(index) {
                self.allocator.lemma_clean(index);
            } else {
                self.lemma_sub(index);
            }
        }
        while self.get_right(node) != SENTINEL
            invariant
                self.wf(),
                self.arena_ok(),
                (node as int) < MAX_SIZE,
                !self.live().contains(index) ==> node == index && self.right(node) == SENTINEL,
                self.live().contains(index) ==> {
                    &&& self.subtree(index).contains(node)
                    &&& forall|j: u32|
                        #[trigger] self.subtree(index).contains(j) && !self.subtree(node).contains(j)
                            ==> key_lt(self.key(j), self.key(node))
                },
            decreases if self.live().contains(node) {
                self.subtree(node).len()
            } else {
                0
            },
        {
            proof {
                self.lemma_wf_basics();
                self.lemma_sub_trans(index, node);
                self.lemma_sub(node);
            }
            let next = self.get_right(node);
            proof {
                assert(self.live().contains(next));
                self.lemma_sub(next);
                assert forall|j: u32|
                    #[trigger] self.subtree(index).contains(j) && !self.subtree(next).contains(j)
                        implies key_lt(self.key(j), self.key(next)) by {
                    if self.subtree(node).contains(j) {
                        assert(self.subtree(next).contains(next));
                        if j != node {
                            assert(self.subtree(self.left(node)).contains(j));
                        }
                    }
                }
            }
            node = next;
        }
        proof {
            if self.live().contains(index) {
                self.lemma_sub_trans(index, node);
                self.lemma_sub(node);
                assert forall|j: u32| #[trigger]
                    self.subtree(index).contains(j) implies key_le(self.key(j), self.key(node)) by {
                    if self.subtree(node).contains(j) && j != node {
                        assert(self.subtree(self.left(node)).contains(j));
                    }
                }
            }
        }
        node
    }

    // ------------------------------------------------------------------
    // Register updates
    // ------------------------------------------------------------------
    /// Everything but the registers is as in `old`.
    spec fn same_but_registers(&self, old: &Self) -> bool {
        &&& self.allocator.inv()
        &&& self.live() == old.live()
        &&& self.next_index() == old.next_index()
        &&& forall|i: u32| (i as int) < MAX_SIZE ==> #[trigger] self.node_at(i) == old.node_at(i)
        &&& self.desc == old.desc
    }

    /// Links `parent` to `child` through register `dir` of `parent`, and `child` back
    /// to `parent` through its `PARENT` register; the sentinel's own registers are
    /// never written.
    pub fn connect(&mut self, parent: u32, child: u32, dir: u32)
        requires
            old(self).arena_ok(),
            parent == SENTINEL || (parent as int) < MAX_SIZE,
            child == SENTINEL || (child as int) < MAX_SIZE,
            dir < 4,
        ensures
            final(self).arena_ok(),
            final(self).root_node() == old(self).root_node(),
            final(self).live() == old(self).live(),
            final(self).next_index() == old(self).next_index(),
            forall|i: u32| (i as int) < MAX_SIZE ==> #[trigger] final(self).node_at(i) == old(self).node_at(i),
            old(self).wf() ==> final(self)@ == old(self)@,
            old(self).arena_clean() && (parent == SENTINEL || old(self).live().contains(parent)) && (
            child == SENTINEL || old(self).live().contains(child)) ==> final(self).arena_clean(),
            forall|j: u32, q: u32|
                #[trigger] final(self).reg(j, q) == if j == child && q == PARENT && child
                    != SENTINEL {
                    parent
                } else if j == parent && q == dir && parent != SENTINEL {
                    child
                } else {
                    old(self).reg(j, q)
                },
    {
        self.allocator.connect(parent, child, dir, PARENT);
        proof {
            if old(self).wf() {
                self.lemma_view_same(old(self));
            }
        }
    }

    /// Colors `node` red; the sentinel stays black.
    fn color_red(&mut self, node: u32)
        requires
            old(self).arena_ok(),
            node == SENTINEL || (node as int) < MAX_SIZE,
        ensures
            node == SENTINEL ==> *final(self) == *old(self),
            final(self).arena_ok(),
            final(self).same_but_registers(old(self)),
            final(self).root == old(self).root,
            forall|j: u32, q: u32|
                #[trigger] final(self).reg(j, q) == if j == node && q == COLOR {
                    if node == SENTINEL {
                        0
                    } else {
                        RED
                    }
                } else {
                    old(self).reg(j, q)
                },
            old(self).allocator.clean() && (node == SENTINEL || old(self).live().contains(node))
                ==> final(self).allocator.clean(),
            old(self).wf() && (node == SENTINEL || old(self).live().contains(node)) ==> final(self).wf()
                && final(self)@ == old(self)@,
    {
        proof {
            self.allocator.lemma_live();
        }
        if node != SENTINEL {
            self.allocator.set_register(node, RED, COLOR);
        }
        proof {
            if old(self).wf() && (node == SENTINEL || old(self).live().contains(node)) {
                old(self).lemma_wf_basics();
                assert forall|j: u32| #[trigger] self.reg(j, COLOR) == BLACK || self.reg(j, COLOR) == RED by {
                    assert(old(self).reg(j, COLOR) == BLACK || old(self).reg(j, COLOR) == RED);
                }
                self.lemma_recolor(old(self));
            }
        }
    }

    /// Colors `node` black.
    fn color_black(&mut self, node: u32)
        requires
            old(self).arena_ok(),
            node == SENTINEL || (node as int) < MAX_SIZE,
        ensures
            node == SENTINEL ==> *final(self) == *old(self),
            final(self).arena_ok(),
            final(self).same_but_registers(old(self)),
            final(self).root == old(self).root,
            forall|j: u32, q: u32|
                #[trigger] final(self).reg(j, q) == if j == node && q == COLOR {
                    BLACK
                } else {
                    old(self).reg(j, q)
                },
            old(self).allocator.clean() ==> final(self).allocator.clean(),
            old(self).wf() ==> final(self).wf() && final(self)@ == old(self)@,
    {
        proof {
            self.allocator.lemma_live();
        }
        self.allocator.set_register(node, BLACK, COLOR);
        proof {
            if old(self).wf() {
                old(self).lemma_wf_basics();
                assert forall|j: u32| #[trigger] self.reg(j, COLOR) == BLACK || self.reg(j, COLOR) == RED by {
                    assert(old(self).reg(j, COLOR) == BLACK || old(self).reg(j, COLOR) == RED);
                }
                self.lemma_recolor(old(self));
            }
        }
    }

    /// A change of colors keeps the tree well formed.
    proof fn lemma_recolor(&self, old: &Self)
        requires
            old.wf(),
            forall|j: u32| #[trigger] self.reg(j, COLOR) == BLACK || self.reg(j, COLOR) == RED,
            self.same_but_registers(old),
            self.allocator.clean(),
            self.root == old.root,
            forall|j: u32, q: u32| q != COLOR ==> #[trigger] self.reg(j, q) == old.reg(j, q),
        ensures
            self.wf(),
            self@ == old@,
    {
        reveal(RedBlackTree::wf);
        assert forall|i: u32| self.live().contains(i) implies #[trigger] self.node_ok(i) by {
            assert(old.node_ok(i));
            old.lemma_wf_basics();
            assert(self.left(i) == old.left(i));
            assert(self.right(i) == old.right(i));
            assert(self.parent(i) == old.parent(i));
            let p = self.parent(i);
            assert(self.left(p) == old.left(p));
            assert(self.right(p) == old.right(p));
            let l = self.left(i);
            let r = self.right(i);
            assert(self.parent(l) == old.parent(l));
            assert(self.parent(r) == old.parent(r));
            assert forall|j: u32| #[trigger] self.subtree(l).contains(j) implies key_lt(self.key(j), self.key(i)) by {
                old.lemma_sub_trans(i, j);
            }
            assert forall|j: u32| #[trigger] self.subtree(r).contains(j) implies key_lt(self.key(i), self.key(j)) by {
                old.lemma_sub_trans(i, j);
            }
        }
        assert forall|i: u32, j: u32|
            self.live().contains(i) && self.live().contains(j) && #[trigger] self.key(i)
                == #[trigger] self.key(j) implies i == j by {
            old.lemma_wf_basics();
            assert(old.key(i) == old.key(j));
        }
        self.lemma_view_same(old);
    }

    // ------------------------------------------------------------------
    // Rotation
    // ------------------------------------------------------------------
    /// Register `q` of slot `j` after rotating this tree at `p` towards `d`: the child
    /// `s` of `p` on the other side takes the place of `p`, `p` becomes child `d` of
    /// `s`, and the former child `d` of `s` becomes the child of `p` that `s` was.
    pub open spec fn rot_reg(&self, p: u32, d: u32, j: u32, q: u32) -> u32 {
        let o = (1 - d) as u32;
        let s = self.reg(p, o);
        let c = self.reg(s, d);
        let g = self.parent(p);
        if j == p && q == PARENT {
            s
        } else if j == p && q == o {
            c
        } else if j == s && q == d {
            p
        } else if j == s && q == PARENT {
            g
        } else if j == c && c != SENTINEL && q == PARENT {
            p
        } else if j == g && g != SENTINEL && q == LEFT && self.left(g) == p {
            s
        } else if j == g && g != SENTINEL && q == RIGHT && self.left(g) != p {
            s
        } else {
            self.reg(j, q)
        }
    }

    /// The subtree of `j` after rotating this tree at `p` towards `d`.
    pub open spec fn rot_sub(&self, p: u32, d: u32, j: u32) -> Set<u32> {
        let o = (1 - d) as u32;
        let s = self.reg(p, o);
        let c = self.reg(s, d);
        if j == s {
            self.subtree(p)
        } else if j == p {
            self.subtree(self.reg(p, d)).union(self.subtree(c)).insert(p)
        } else {
            self.subtree(j)
        }
    }

    /// This tree is `old` rotated at `p` towards `d`.
    spec fn is_rotation_of(&self, old: &Self, p: u32, d: u32) -> bool {
        let s = old.reg(p, (1 - d) as u32);
        &&& self.same_but_registers_and_desc(old)
        &&& forall|j: u32, q: u32| #[trigger] self.reg(j, q) == old.rot_reg(p, d, j, q)
        &&& self.root == if old.parent(p) == SENTINEL {
            s
        } else {
            old.root
        }
        &&& forall|j: u32| #[trigger] self.subtree(j) == old.rot_sub(p, d, j)
    }

    /// Everything but the registers and the subtrees is as in `old`.
    spec fn same_but_registers_and_desc(&self, old: &Self) -> bool {
        &&& self.allocator.inv()
        &&& self.allocator.clean()
        &&& self.live() == old.live()
        &&& self.next_index() == old.next_index()
        &&& forall|i: u32| (i as int) < MAX_SIZE ==> #[trigger] self.node_at(i) == old.node_at(i)
        &&& self.desc@.dom() == old.desc@.dom()
    }

    /// A node's parent is not in the node's subtree.
    proof fn lemma_parent_outside(&self, x: u32)
        requires
            self.wf(),
            self.live().contains(x),
            self.parent(x) != SENTINEL,
        ensures
            !self.subtree(x).contains(self.parent(x)),
    {
        reveal(RedBlackTree::wf);
        let p = self.parent(x);
        assert(self.node_ok(x));
        self.lemma_sub(p);
        self.lemma_sub(x);
        if self.subtree(x).contains(p) {
            self.lemma_sub_trans(x, p);
            vstd::set_lib::lemma_len_subset(self.subtree(p), self.subtree(x));
        }
    }

    /// What a well-formed tree says of the nodes that a rotation at `p` moves.
    proof fn lemma_rotate_facts(&self, p: u32, d: u32, s: u32, a: u32, b: u32, c: u32, g: u32)
        requires
            self.wf(),
            self.live().contains(p),
            d <= 1,
            s == self.reg(p, (1 - d) as u32),
            s != SENTINEL,
            a == self.reg(p, d),
            c == self.reg(s, d),
            b == self.reg(s, (1 - d) as u32),
            g == self.parent(p),
        ensures
            self.live().contains(s),
            self.node_ok(p),
            self.node_ok(s),
            self.parent(s) == p,
            a != SENTINEL ==> self.live().contains(a) && self.node_ok(a) && self.parent(a) == p,
            b != SENTINEL ==> self.live().contains(b) && self.node_ok(b) && self.parent(b) == s,
            c != SENTINEL ==> self.live().contains(c) && self.node_ok(c) && self.parent(c) == s,
            g == SENTINEL ==> p == self.root,
            g != SENTINEL ==> self.live().contains(g) && self.node_ok(g) && (self.left(g) == p
                || self.right(g) == p) && !self.subtree(p).contains(g),
            self.subtree(p) == self.subtree(a).union(self.subtree(s)).insert(p),
            self.subtree(s) == self.subtree(c).union(self.subtree(b)).insert(s),
            self.subtree(SENTINEL) == Set::<u32>::empty(),
            !self.subtree(s).contains(p),
            !self.subtree(a).contains(p),
            !self.subtree(c).contains(p),
            !self.subtree(b).contains(p),
            !self.subtree(c).contains(s),
            !self.subtree(b).contains(s),
            !self.subtree(a).contains(s),
            self.subtree(a).disjoint(self.subtree(s)),
            self.subtree(c).disjoint(self.subtree(b)),
            self.subtree(c).subset_of(self.subtree(s)),
            self.subtree(b).subset_of(self.subtree(s)),
            self.subtree(p).subset_of(self.live()),
            a != SENTINEL ==> a != s && a != c && a != b && a != p && a != g,
            b != SENTINEL ==> b != s && b != c && b != p && b != g,
            c != SENTINEL ==> c != s && c != p && c != g,
            s != p && s != g && p != g,
            forall|j: u32| #[trigger] self.live().contains(j) ==> (j as int) < MAX_SIZE,
            !self.live().contains(SENTINEL),
            forall|j: u32| #[trigger] self.subtree(a).contains(j) ==> (if d == LEFT {
                key_lt(self.key(j), self.key(p))
            } else {
                key_lt(self.key(p), self.key(j))
            }),
            forall|j: u32| #[trigger] self.subtree(s).contains(j) ==> (if d == LEFT {
                key_lt(self.key(p), self.key(j))
            } else {
                key_lt(self.key(j), self.key(p))
            }),
            forall|j: u32| #[trigger] self.subtree(c).contains(j) ==> (if d == LEFT {
                key_lt(self.key(j), self.key(s))
            } else {
                key_lt(self.key(s), self.key(j))
            }),
            forall|j: u32| #[trigger] self.subtree(b).contains(j) ==> (if d == LEFT {
                key_lt(self.key(s), self.key(j))
            } else {
                key_lt(self.key(j), self.key(s))
            }),
    {
        reveal(RedBlackTree::wf);
        self.lemma_wf_basics();
        self.lemma_sub(p);
        assert(self.node_ok(p));
        assert(self.live().contains(s));
        self.lemma_sub(s);
        assert(self.node_ok(s));
        if a != SENTINEL {
            self.lemma_sub(a);
        }
        if b != SENTINEL {
            self.lemma_sub(b);
        }
        if c != SENTINEL {
            self.lemma_sub(c);
        }
        if g != SENTINEL {
            self.lemma_sub(g);
            self.lemma_parent_outside(p);
            assert(self.node_ok(g));
        }
        if d == LEFT {
            assert(self.left(p) == a);
        } else {
            assert(self.right(p) == a);
        }
    }

    /// The nodes of a tree that differs from `old` only in its registers and
    /// subtrees keep their keys and values.
    proof fn lemma_same_nodes(&self, old: &Self)
        requires
            old.wf(),
            self.same_but_registers_and_desc(old),
        ensures
            forall|j: u32| #[trigger] old.live().contains(j) ==> self.node_at(j) == old.node_at(j) && self.key(j) == old.key(j),
    {
        reveal(RedBlackTree::wf);
        old.lemma_wf_basics();
    }

    /// After a rotation at `p`, node `p` is well formed.
    proof fn lemma_rotate_p(&self, old: &Self, p: u32, d: u32, s: u32, a: u32, b: u32, c: u32, g: u32)
        requires
            old.wf(),
            old.live().contains(p),
            d <= 1,
            s == old.reg(p, (1 - d) as u32),
            s != SENTINEL,
            a == old.reg(p, d),
            c == old.reg(s, d),
            b == old.reg(s, (1 - d) as u32),
            g == old.parent(p),
            self.is_rotation_of(old, p, d),
        ensures
            self.node_ok(p),
    {
        reveal(RedBlackTree::wf);
        let o = (1 - d) as u32;
        lemma_key_order::<K>();
        old.lemma_rotate_facts(p, d, s, a, b, c, g);
        self.lemma_same_nodes(old);

            assert(self.parent(p) == s);
            assert(self.reg(p, d) == a);
            assert(self.reg(p, o) == c);
            assert(self.reg(s, d) == p);
            if a != SENTINEL {
                assert(old.node_ok(a));
                assert(a != c);
                assert(a != s);
                assert(self.parent(a) == p);
                assert(self.subtree(a) == old.subtree(a));
            }
            if c != SENTINEL {
                assert(self.parent(c) == p);
                assert(self.subtree(c) == old.subtree(c));
            }
            assert(self.subtree(SENTINEL) == old.subtree(SENTINEL));
            if d == LEFT {
                assert forall|j: u32| #[trigger] self.subtree(self.right(p)).contains(j) implies key_lt(self.key(p), self.key(j)) by {
                    assert(old.subtree(s).contains(j));
                    assert(old.live().contains(j));
                }
                assert forall|j: u32| #[trigger] self.subtree(self.left(p)).contains(j) implies key_lt(self.key(j), self.key(p)) by {
                    assert(old.subtree(a).contains(j));
                    assert(old.live().contains(j));
                }
            } else {
                assert forall|j: u32| #[trigger] self.subtree(self.left(p)).contains(j) implies key_lt(self.key(j), self.key(p)) by {
                    assert(old.subtree(s).contains(j));
                    assert(old.live().contains(j));
                }
                assert forall|j: u32| #[trigger] self.subtree(self.right(p)).contains(j) implies key_lt(self.key(p), self.key(j)) by {
                    assert(old.subtree(a).contains(j));
                    assert(old.live().contains(j));
                }
            }
                    let l = self.left(p);
            let r = self.right(p);
            let pp = self.parent(p);
            assert(l == SENTINEL || self.live().contains(l));
            assert(r == SENTINEL || self.live().contains(r));
            assert(self.subtree(p) == self.subtree(l).union(self.subtree(r)).insert(p));
            assert(self.subtree(p).subset_of(self.live()));
            assert(!self.subtree(l).contains(p));
            assert(!self.subtree(r).contains(p));
            assert(self.subtree(l).disjoint(self.subtree(r)));
            assert(l != SENTINEL ==> self.parent(l) == p);
            assert(r != SENTINEL ==> self.parent(r) == p);
            assert(pp == SENTINEL ==> p == self.root);
            assert(pp != SENTINEL ==> self.live().contains(pp) && (self.left(pp) == p || self.right(pp) == p));
            assert(forall|j: u32| #[trigger] self.subtree(l).contains(j) ==> key_lt(self.key(j), self.key(p)));
            assert(forall|j: u32| #[trigger] self.subtree(r).contains(j) ==> key_lt(self.key(p), self.key(j)));
            }

    /// After a rotation at `p`, node `s` (which took its place) is well formed.
    proof fn lemma_rotate_s(&self, old: &Self, p: u32, d: u32, s: u32, a: u32, b: u32, c: u32, g: u32)
        requires
            old.wf(),
            old.live().contains(p),
            d <= 1,
            s == old.reg(p, (1 - d) as u32),
            s != SENTINEL,
            a == old.reg(p, d),
            c == old.reg(s, d),
            b == old.reg(s, (1 - d) as u32),
            g == old.parent(p),
            self.is_rotation_of(old, p, d),
        ensures
            self.node_ok(s),
    {
        reveal(RedBlackTree::wf);
        let o = (1 - d) as u32;
        lemma_key_order::<K>();
        old.lemma_rotate_facts(p, d, s, a, b, c, g);
        self.lemma_same_nodes(old);
        assert(self.subtree(p) == old.subtree(a).union(old.subtree(c)).insert(p));
        assert(self.subtree(s) == old.subtree(p));

            assert(self.reg(s, d) == p);
            assert(self.reg(s, o) == b);
            assert(self.parent(s) == g);
            if b != SENTINEL {
                assert(old.node_ok(b));
                assert(self.parent(b) == s);
                assert(self.subtree(b) == old.subtree(b));
            }
            assert(self.subtree(SENTINEL) == old.subtree(SENTINEL));
            assert(self.subtree(s) =~= self.subtree(p).union(self.subtree(b)).insert(s));
            if g != SENTINEL {
                assert(self.left(g) == s || self.right(g) == s);
            }
            assert(old.subtree(s).contains(s));
            assert(old.live().contains(s));
            if d == LEFT {
                assert(key_lt(old.key(p), old.key(s)));
                assert forall|j: u32| #[trigger] self.subtree(self.left(s)).contains(j) implies key_lt(self.key(j), self.key(s)) by {
                    assert(old.subtree(p).contains(j));
                    assert(old.live().contains(j));
                    if j != p {
                        if old.subtree(a).contains(j) {
                            assert(key_lt(old.key(j), old.key(p)));
                        } else {
                            assert(old.subtree(c).contains(j));
                        }
                    }
                }
                assert forall|j: u32| #[trigger] self.subtree(self.right(s)).contains(j) implies key_lt(self.key(s), self.key(j)) by {
                    assert(old.subtree(b).contains(j));
                    assert(old.live().contains(j));
                }
            } else {
                assert(key_lt(old.key(s), old.key(p)));
                assert forall|j: u32| #[trigger] self.subtree(self.right(s)).contains(j) implies key_lt(self.key(s), self.key(j)) by {
                    assert(old.subtree(p).contains(j));
                    assert(old.live().contains(j));
                    if j != p {
                        if old.subtree(a).contains(j) {
                            assert(key_lt(old.key(p), old.key(j)));
                        } else {
                            assert(old.subtree(c).contains(j));
                        }
                    }
                }
                assert forall|j: u32| #[trigger] self.subtree(self.left(s)).contains(j) implies key_lt(self.key(j), self.key(s)) by {
                    assert(old.subtree(b).contains(j));
                    assert(old.live().contains(j));
                }
            }
                    let l = self.left(s);
            let r = self.right(s);
            let pp = self.parent(s);
            assert(l == SENTINEL || self.live().contains(l));
            assert(r == SENTINEL || self.live().contains(r));
            assert(self.subtree(s) == self.subtree(l).union(self.subtree(r)).insert(s));
            assert(self.subtree(s).subset_of(self.live()));
            assert(!self.subtree(l).contains(s));
            assert(!self.subtree(r).contains(s));
            assert(self.subtree(l).disjoint(self.subtree(r)));
            assert(l != SENTINEL ==> self.parent(l) == s);
            assert(r != SENTINEL ==> self.parent(r) == s);
            assert(pp == SENTINEL ==> s == self.root);
            assert(pp != SENTINEL ==> self.live().contains(pp) && (self.left(pp) == s || self.right(pp) == s));
            assert(forall|j: u32| #[trigger] self.subtree(l).contains(j) ==> key_lt(self.key(j), self.key(s)));
            assert(forall|j: u32| #[trigger] self.subtree(r).contains(j) ==> key_lt(self.key(s), self.key(j)));
            }

    /// After a rotation at `p`, the former parent `g` of `p` is well formed.
    proof fn lemma_rotate_g(&self, old: &Self, p: u32, d: u32, s: u32, a: u32, b: u32, c: u32, g: u32, i: u32)
        requires
            old.wf(),
            old.live().contains(p),
            d <= 1,
            s == old.reg(p, (1 - d) as u32),
            s != SENTINEL,
            a == old.reg(p, d),
            c == old.reg(s, d),
            b == old.reg(s, (1 - d) as u32),
            g == old.parent(p),
            self.is_rotation_of(old, p, d),
            self.live().contains(i),
            i != p,
            i != s,
            i == g,
        ensures
            self.node_ok(i),
    {
        reveal(RedBlackTree::wf);
        old.lemma_wf_basics();
        old.lemma_rotate_facts(p, d, s, a, b, c, g);
        self.lemma_same_nodes(old);
        assert(self.subtree(s) == old.subtree(p));
        assert(old.node_ok(i));
        let l = old.left(i);
        let r = old.right(i);
        let q = old.parent(i);
        assert(self.subtree(SENTINEL) == old.subtree(SENTINEL));
        assert(old.subtree(p).contains(p));
        if l == p {
            assert(r != p);
            assert(self.left(i) == s);
            assert(self.right(i) == r);
            if r != SENTINEL {
                assert(old.node_ok(r));
                assert(self.parent(r) == i);
                assert(self.subtree(r) == old.subtree(r));
            }
        } else {
            assert(r == p);
            assert(self.right(i) == s);
            assert(self.left(i) == l);
            if l != SENTINEL {
                assert(old.node_ok(l));
                assert(self.parent(l) == i);
                assert(self.subtree(l) == old.subtree(l));
            }
        }
        assert(self.parent(s) == g);
        assert(self.parent(g) == q);
        if q != SENTINEL {
            assert(old.node_ok(q));
            assert(self.left(q) == old.left(q));
            assert(self.right(q) == old.right(q));
        } else {
            assert(i == old.root);
        }
        let nl = self.left(i);
        let nr = self.right(i);
        let np = self.parent(i);
        assert(nl == SENTINEL || self.live().contains(nl));
        assert(nr == SENTINEL || self.live().contains(nr));
        assert(self.subtree(i) == self.subtree(nl).union(self.subtree(nr)).insert(i));
        assert(self.subtree(i).subset_of(self.live()));
        assert(!self.subtree(nl).contains(i));
        assert(!self.subtree(nr).contains(i));
        assert(self.subtree(nl).disjoint(self.subtree(nr)));
        assert(nl != SENTINEL ==> self.parent(nl) == i);
        assert(nr != SENTINEL ==> self.parent(nr) == i);
        assert(np == SENTINEL ==> i == self.root);
        assert(np != SENTINEL ==> self.live().contains(np) && (self.left(np) == i || self.right(np)
            == i));
        assert forall|j: u32| #[trigger] self.subtree(nl).contains(j) implies key_lt(
            self.key(j),
            self.key(i),
        ) by {
            assert(old.live().contains(j));
        }
        assert forall|j: u32| #[trigger] self.subtree(nr).contains(j) implies key_lt(
            self.key(i),
            self.key(j),
        ) by {
            assert(old.live().contains(j));
        }
    }

    /// After a rotation at `p`, the node `c` that changed parents is well formed.
    proof fn lemma_rotate_c(&self, old: &Self, p: u32, d: u32, s: u32, a: u32, b: u32, c: u32, g: u32, i: u32)
        requires
            old.wf(),
            old.live().contains(p),
            d <= 1,
            s == old.reg(p, (1 - d) as u32),
            s != SENTINEL,
            a == old.reg(p, d),
            c == old.reg(s, d),
            b == old.reg(s, (1 - d) as u32),
            g == old.parent(p),
            self.is_rotation_of(old, p, d),
            self.live().contains(i),
            i != p,
            i != s,
            i == c,
        ensures
            self.node_ok(i),
    {
        reveal(RedBlackTree::wf);
        old.lemma_wf_basics();
        old.lemma_rotate_facts(p, d, s, a, b, c, g);
        self.lemma_same_nodes(old);
        assert(self.subtree(s) == old.subtree(p));
        assert(old.node_ok(i));
        let l = old.left(i);
        let r = old.right(i);
        let q = old.parent(i);
        assert(self.subtree(SENTINEL) == old.subtree(SENTINEL));
        let o = (1 - d) as u32;
        assert(self.parent(c) == p);
        assert(self.reg(p, o) == c);
        assert(self.left(i) == l);
        assert(self.right(i) == r);
        if l != SENTINEL {
            assert(old.node_ok(l));
            assert(self.parent(l) == i);
            assert(self.subtree(l) == old.subtree(l));
        }
        if r != SENTINEL {
            assert(old.node_ok(r));
            assert(self.parent(r) == i);
            assert(self.subtree(r) == old.subtree(r));
        }
        if d == LEFT {
            assert(self.right(p) == c);
        } else {
            assert(self.left(p) == c);
        }
        let nl = self.left(i);
        let nr = self.right(i);
        let np = self.parent(i);
        assert(nl == SENTINEL || self.live().contains(nl));
        assert(nr == SENTINEL || self.live().contains(nr));
        assert(self.subtree(i) == self.subtree(nl).union(self.subtree(nr)).insert(i));
        assert(self.subtree(i).subset_of(self.live()));
        assert(!self.subtree(nl).contains(i));
        assert(!self.subtree(nr).contains(i));
        assert(self.subtree(nl).disjoint(self.subtree(nr)));
        assert(nl != SENTINEL ==> self.parent(nl) == i);
        assert(nr != SENTINEL ==> self.parent(nr) == i);
        assert(np == SENTINEL ==> i == self.root);
        assert(np != SENTINEL ==> self.live().contains(np) && (self.left(np) == i || self.right(np)
            == i));
        assert forall|j: u32| #[trigger] self.subtree(nl).contains(j) implies key_lt(
            self.key(j),
            self.key(i),
        ) by {
            assert(old.live().contains(j));
        }
        assert forall|j: u32| #[trigger] self.subtree(nr).contains(j) implies key_lt(
            self.key(i),
            self.key(j),
        ) by {
            assert(old.live().contains(j));
        }
    }

    /// After a rotation at `p`, every node that the rotation does not touch is well formed.
    proof fn lemma_rotate_rest(&self, old: &Self, p: u32, d: u32, s: u32, a: u32, b: u32, c: u32, g: u32, i: u32)
        requires
            old.wf(),
            old.live().contains(p),
            d <= 1,
            s == old.reg(p, (1 - d) as u32),
            s != SENTINEL,
            a == old.reg(p, d),
            c == old.reg(s, d),
            b == old.reg(s, (1 - d) as u32),
            g == old.parent(p),
            self.is_rotation_of(old, p, d),
            self.live().contains(i),
            i != p,
            i != s,
            i != g,
            i != c,
        ensures
            self.node_ok(i),
    {
        reveal(RedBlackTree::wf);
        old.lemma_wf_basics();
        old.lemma_rotate_facts(p, d, s, a, b, c, g);
        self.lemma_same_nodes(old);
        assert(self.subtree(s) == old.subtree(p));
        assert(old.node_ok(i));
        let l = old.left(i);
        let r = old.right(i);
        let q = old.parent(i);
        assert(self.subtree(SENTINEL) == old.subtree(SENTINEL));
        let o = (1 - d) as u32;
        assert(self.left(i) == l);
        assert(self.right(i) == r);
        assert(self.parent(i) == q);
        if l != SENTINEL {
            assert(old.node_ok(l));
            assert(l != p && l != s && l != c);
            assert(self.parent(l) == i);
            assert(self.subtree(l) == old.subtree(l));
        }
        if r != SENTINEL {
            assert(old.node_ok(r));
            assert(r != p && r != s && r != c);
            assert(self.parent(r) == i);
            assert(self.subtree(r) == old.subtree(r));
        }
        if q != SENTINEL {
            assert(old.node_ok(q));
            if q == p {
                assert(i == a);
                assert(self.reg(p, d) == a);
                if d == LEFT {
                    assert(self.left(p) == i);
                } else {
                    assert(self.right(p) == i);
                }
            } else if q == s {
                assert(i == b);
                assert(self.reg(s, o) == b);
                if d == LEFT {
                    assert(self.right(s) == i);
                } else {
                    assert(self.left(s) == i);
                }
            } else if q == g {
                if old.left(g) == i {
                    assert(self.left(g) == i);
                } else {
                    assert(self.right(g) == i);
                }
            } else {
                assert(self.left(q) == old.left(q));
                assert(self.right(q) == old.right(q));
            }
        } else {
            assert(i == old.root);
            assert(g != SENTINEL);
        }
        let nl = self.left(i);
        let nr = self.right(i);
        let np = self.parent(i);
        assert(nl == SENTINEL || self.live().contains(nl));
        assert(nr == SENTINEL || self.live().contains(nr));
        assert(self.subtree(i) == self.subtree(nl).union(self.subtree(nr)).insert(i));
        assert(self.subtree(i).subset_of(self.live()));
        assert(!self.subtree(nl).contains(i));
        assert(!self.subtree(nr).contains(i));
        assert(self.subtree(nl).disjoint(self.subtree(nr)));
        assert(nl != SENTINEL ==> self.parent(nl) == i);
        assert(nr != SENTINEL ==> self.parent(nr) == i);
        assert(np == SENTINEL ==> i == self.root);
        assert(np != SENTINEL ==> self.live().contains(np) && (self.left(np) == i || self.right(np)
            == i));
        assert forall|j: u32| #[trigger] self.subtree(nl).contains(j) implies key_lt(
            self.key(j),
            self.key(i),
        ) by {
            assert(old.live().contains(j));
        }
        assert forall|j: u32| #[trigger] self.subtree(nr).contains(j) implies key_lt(
            self.key(i),
            self.key(j),
        ) by {
            assert(old.live().contains(j));
        }
    }

    /// A rotation keeps the tree well formed and its map unchanged.
    proof fn lemma_rotate(&self, old: &Self, p: u32, d: u32)
        requires
            old.wf(),
            old.live().contains(p),
            d <= 1,
            old.reg(p, (1 - d) as u32) != SENTINEL,
            self.is_rotation_of(old, p, d),
        ensures
            self.wf(),
            self@ == old@,
    {
        reveal(RedBlackTree::wf);
        let o = (1 - d) as u32;
        let s = old.reg(p, o);
        let a = old.reg(p, d);
        let c = old.reg(s, d);
        let b = old.reg(s, o);
        let g = old.parent(p);
        old.lemma_wf_basics();
        old.lemma_rotate_facts(p, d, s, a, b, c, g);
        self.lemma_same_nodes(old);
        self.lemma_rotate_p(old, p, d, s, a, b, c, g);
        self.lemma_rotate_s(old, p, d, s, a, b, c, g);
        assert forall|i: u32| self.live().contains(i) implies #[trigger] self.node_ok(i) by {
            if i != p && i != s {
                if i == g {
                    self.lemma_rotate_g(old, p, d, s, a, b, c, g, i);
                } else if i == c {
                    self.lemma_rotate_c(old, p, d, s, a, b, c, g, i);
                } else {
                    self.lemma_rotate_rest(old, p, d, s, a, b, c, g, i);
                }
            }
        }
        assert(self.root != SENTINEL ==> self.live().contains(self.root) && self.subtree(self.root)
            == self.live()) by {
            if g == SENTINEL {
                assert(self.root == s);
            } else {
                assert(old.root != p) by {
                    assert(old.node_ok(old.root));
                }
                assert(old.root != s) by {
                    assert(old.node_ok(old.root));
                }
            }
        }
        assert forall|i: u32, j: u32|
            self.live().contains(i) && self.live().contains(j) && #[trigger] self.key(i)
                == #[trigger] self.key(j) implies i == j by {
            assert(old.key(i) == old.key(j));
        }
        self.lemma_view_same(old);
    }

    /// Rotates the tree at `parent_index` towards `dir`; returns the node that takes
    /// its place, or `None` (and changes nothing) when `dir` is not a direction or
    /// `parent_index` has no child on the other side.
    fn rotate_dir(&mut self, parent_index: u32, dir: u32) -> (r: Option<u32>)
        requires
            old(self).wf(),
            (parent_index as int) < MAX_SIZE,
        ensures
            final(self).wf(),
            final(self)@ == old(self)@,
            final(self).live() == old(self).live(),
            final(self).next_index() == old(self).next_index(),
            forall|i: u32| (i as int) < MAX_SIZE ==> #[trigger] final(self).node_at(i) == old(self).node_at(i),
            forall|j: u32| #[trigger] final(self).reg(j, COLOR) == old(self).reg(j, COLOR),
            match r {
                None => {
                    &&& (dir > 1 || old(self).reg(parent_index, (1 - dir) as u32) == SENTINEL)
                    &&& *final(self) == *old(self)
                    &&& final(self).root == old(self).root
                    &&& forall|j: u32, q: u32| #[trigger] final(self).reg(j, q) == old(self).reg(j, q)
                    &&& forall|j: u32| #[trigger] final(self).subtree(j) == old(self).subtree(j)
                },
                Some(s) => {
                    &&& dir <= 1
                    &&& s == old(self).reg(parent_index, (1 - dir) as u32)
                    &&& s != SENTINEL
                    &&& final(self).is_rotation_of(old(self), parent_index, dir)
                },
            },
    {
        reveal(RedBlackTree::wf);
        proof {
            self.lemma_wf_basics();
            self.allocator.lemma_live();
        }
        let grandparent_index = self.get_parent(parent_index);
        if dir != LEFT && dir != RIGHT {
            return None;
        }
        let sibling_index = self.get_child(parent_index, opposite(dir));
        if sibling_index == SENTINEL {
            return None;
        }
        let ghost old_desc = self.desc@;
        let ghost a = self.reg(parent_index, dir);
        proof {
            if !self.live().contains(parent_index) {
                self.allocator.lemma_clean(parent_index);
                assert(false);
            }
            assert(self.node_ok(parent_index));
            if dir == LEFT {
                assert(sibling_index == self.right(parent_index));
            } else {
                assert(sibling_index == self.left(parent_index));
            }
            assert(self.live().contains(sibling_index));
            assert(self.node_ok(sibling_index));
            if grandparent_index != SENTINEL {
                assert(self.node_ok(grandparent_index));
            }
        }
        let child_index = self.get_child(sibling_index, dir);
        proof {
            self.lemma_rotate_facts(
                parent_index,
                dir,
                sibling_index,
                a,
                self.reg(sibling_index, (1 - dir) as u32),
                child_index,
                grandparent_index,
            );
            if dir == LEFT {
                assert(child_index == self.left(sibling_index));
            } else {
                assert(child_index == self.right(sibling_index));
            }
            assert(child_index == SENTINEL || self.live().contains(child_index));
        }
        let ghost s0 = *self;
        proof {
            assert(s0 == *old(self));
        }
        self.connect(sibling_index, parent_index, dir);
        let ghost s1 = *self;
        self.connect(parent_index, child_index, opposite(dir));
        let ghost s2 = *self;
        proof {
            assert(forall|i: u32| (i as int) < MAX_SIZE ==> #[trigger] s1.node_at(i) == s0.node_at(i));
            assert(forall|i: u32| (i as int) < MAX_SIZE ==> #[trigger] s2.node_at(i) == s1.node_at(i));
            assert(forall|i: u32| (i as int) < MAX_SIZE ==> #[trigger] s2.node_at(i) == s0.node_at(i));
        }
        if grandparent_index != SENTINEL {
            if self.get_left(grandparent_index) == parent_index {
                self.connect(grandparent_index, sibling_index, LEFT);
                proof {
                    assert(old(self).left(grandparent_index) == parent_index);
                    assert forall|j: u32, q: u32| #[trigger] self.reg(j, q) == old(self).rot_reg(parent_index, dir, j, q) by {
                        assert(s2.reg(j, q) == s1.reg(j, q) || (j == child_index && q == PARENT) || (j == parent_index && q == (1 - dir) as u32));
                    }
                }
            } else if self.get_right(grandparent_index) == parent_index {
                self.connect(grandparent_index, sibling_index, RIGHT);
                proof {
                    assert(old(self).left(grandparent_index) != parent_index);
                    assert forall|j: u32, q: u32| #[trigger] self.reg(j, q) == old(self).rot_reg(parent_index, dir, j, q) by {
                        assert(s2.reg(j, q) == s1.reg(j, q) || (j == child_index && q == PARENT) || (j == parent_index && q == (1 - dir) as u32));
                    }
                }
            } else {
                proof {
                    assert(false);
                }
                return None;
            }
        } else {
            self.allocator.clear_register(sibling_index, PARENT);
            self.root = sibling_index;
            proof {
                assert forall|j: u32, q: u32| #[trigger] self.reg(j, q) == old(self).rot_reg(parent_index, dir, j, q) by {
                    assert(self.reg(j, q) == if j == sibling_index && q == PARENT {
                        0
                    } else {
                        s2.reg(j, q)
                    });
                    assert(s2.reg(j, q) == s1.reg(j, q) || (j == child_index && q == PARENT) || (j == parent_index && q == (1 - dir) as u32));
                }
            }
        }
        proof {
            assert(s0 == *old(self));
            assert(forall|i: u32| (i as int) < MAX_SIZE ==> #[trigger] self.node_at(i) == s2.node_at(i));
        }
        let ghost s3 = *self;
        self.desc = Ghost(
            old_desc.insert(
                parent_index,
                old(self).subtree(a).union(old(self).subtree(child_index)).insert(parent_index),
            ).insert(sibling_index, old_desc[parent_index]),
        );
        proof {
            assert forall|j: u32| #[trigger] self.subtree(j) == old(self).rot_sub(parent_index, dir, j) by {
            }
            assert(self.desc@.dom() =~= old(self).desc@.dom());
            assert(self.allocator.inv());
            assert(self.allocator.clean());
            assert(self.live() == old(self).live());
            assert(self.next_index() == old(self).next_index());
            assert forall|i: u32| (i as int) < MAX_SIZE implies #[trigger] self.node_at(i) == old(self).node_at(i) by {
                assert(self.allocator == s3.allocator);
                assert(s3.node_at(i) == s2.node_at(i));
                assert(s2.node_at(i) == s0.node_at(i));
            }
            assert(self.same_but_registers_and_desc(old(self)));
            assert forall|j: u32, q: u32| #[trigger] self.reg(j, q) == old(self).rot_reg(parent_index, dir, j, q) by {
                assert(self.allocator == s3.allocator);
                assert(s3.reg(j, q) == old(self).rot_reg(parent_index, dir, j, q));
            }
            assert(self.root == if old(self).parent(parent_index) == SENTINEL {
                sibling_index
            } else {
                old(self).root
            });
            self.lemma_rotate(old(self), parent_index, dir);
        }
        Some(sibling_index)
    }

    // ------------------------------------------------------------------
    // Insertion
    // ------------------------------------------------------------------
    /// The side of `parent` on which `child` hangs.
    fn child_dir(&self, parent: u32, child: u32) -> (d: u32)
        requires
            self.arena_ok(),
            (parent as int) < MAX_SIZE,
            (child as int) < MAX_SIZE,
            self.left(parent) == child || self.right(parent) == child,
            self.parent(child) == parent,
        ensures
            d == if self.left(parent) == child {
                LEFT
            } else {
                RIGHT
            },
    {
        let left = self.get_left(parent);
        if child == left {
            LEFT
        } else {
            RIGHT
        }
    }

    /// The subtree of a node has no more members than the tree.
    proof fn lemma_sub_le_live(&self, x: u32)
        requires
            self.wf(),
            self.live().contains(x),
        ensures
            self.subtree(x).len() <= self.live().len(),
            self.subtree(x).finite(),
    {
        reveal(RedBlackTree::wf);
        self.lemma_wf_basics();
        self.lemma_sub(x);
        vstd::set_lib::lemma_len_subset(self.subtree(x), self.live());
    }

    /// `self` is `old` with the colors of `a`, then `b`, then `c` set to `ca`, `cb`
    /// and `cc` (a later one wins where two coincide; the sentinel stays black, so
    /// `SENTINEL` stands for "no node").
    pub closed spec fn is_recoloring_of(
        &self,
        old: &Self,
        a: u32,
        ca: u32,
        b: u32,
        cb: u32,
        c: u32,
        cc: u32,
    ) -> bool {
        &&& self.same_but_registers(old)
        &&& self.root == old.root
        &&& forall|j: u32, q: u32| #[trigger]
            self.reg(j, q) == if q == COLOR && j != SENTINEL && j == c {
                cc
            } else if q == COLOR && j != SENTINEL && j == b {
                cb
            } else if q == COLOR && j != SENTINEL && j == a {
                ca
            } else {
                old.reg(j, q)
            }
    }

    /// `self` is `old` rotated at `p` towards `d` when `p` has a child on the other
    /// side, and `old` itself otherwise.
    pub closed spec fn is_rotation_or_same(&self, old: &Self, p: u32, d: u32) -> bool {
        if d <= 1 && old.reg(p, (1 - d) as u32) != SENTINEL {
            self.is_rotation_of(old, p, d)
        } else {
            *self == *old
        }
    }

    /// What a recoloring leaves: the same root, nodes, keys, values and subtrees,
    /// and the registers of `old` but for the colors of `a`, `b` and `c`.
    pub proof fn lemma_recoloring(&self, old: &Self, a: u32, ca: u32, b: u32, cb: u32, c: u32, cc: u32)
        requires
            self.is_recoloring_of(old, a, ca, b, cb, c, cc),
        ensures
            self.root_node() == old.root_node(),
            self.live() == old.live(),
            self.next_index() == old.next_index(),
            forall|i: u32| (i as int) < MAX_SIZE ==> #[trigger] self.node_at(i) == old.node_at(i),
            forall|j: u32| #[trigger] self.subtree(j) == old.subtree(j),
            forall|j: u32, q: u32| #[trigger]
                self.reg(j, q) == if q == COLOR && j != SENTINEL && j == c {
                    cc
                } else if q == COLOR && j != SENTINEL && j == b {
                    cb
                } else if q == COLOR && j != SENTINEL && j == a {
                    ca
                } else {
                    old.reg(j, q)
                },
    {
    }

    /// What a rotation, or its absence, leaves: rotated at `p` towards `d` when `p`
    /// has a child on the other side, the registers follow `rot_reg`, the subtrees
    /// `rot_sub`, and that child becomes the root when `p` was; otherwise nothing
    /// changes.
    pub proof fn lemma_rotation(&self, old: &Self, p: u32, d: u32)
        requires
            self.is_rotation_or_same(old, p, d),
        ensures
            d <= 1 && old.reg(p, (1 - d) as u32) != SENTINEL ==> {
                &&& self.root_node() == if old.parent(p) == SENTINEL {
                    old.reg(p, (1 - d) as u32)
                } else {
                    old.root_node()
                }
                &&& self.live() == old.live()
                &&& forall|i: u32| (i as int) < MAX_SIZE ==> #[trigger] self.node_at(i) == old.node_at(i)
                &&& forall|j: u32, q: u32| #[trigger] self.reg(j, q) == old.rot_reg(p, d, j, q)
                &&& forall|j: u32| #[trigger] self.subtree(j) == old.rot_sub(p, d, j)
            },
            !(d <= 1 && old.reg(p, (1 - d) as u32) != SENTINEL) ==> *self == *old,
    {
    }

    /// A rotation is undone by the opposite rotation at the node that it moved up:
    /// rotating at `p` towards `d`, then at the former child `s` of `p` on the other
    /// side towards that other side, gives back every register and the root.
    pub proof fn lemma_rotation_undone(&self, mid: &Self, old: &Self, p: u32, d: u32)
        requires
            old.wf(),
            old.live().contains(p),
            d <= 1,
            old.reg(p, (1 - d) as u32) != SENTINEL,
            mid.is_rotation_or_same(old, p, d),
            self.is_rotation_or_same(mid, old.reg(p, (1 - d) as u32), (1 - d) as u32),
        ensures
            mid.reg(old.reg(p, (1 - d) as u32), d) == p,
            self.root_node() == old.root_node(),
            forall|j: u32, q: u32| #[trigger] self.reg(j, q) == old.reg(j, q),
    {
        let o = (1 - d) as u32;
        let s = old.reg(p, o);
        let a = old.reg(p, d);
        let c = old.reg(s, d);
        let b = old.reg(s, o);
        let g = old.parent(p);
        old.lemma_rotate_facts(p, d, s, a, b, c, g);
        old.lemma_wf_basics();
        old.allocator.lemma_live();
        assert(mid.is_rotation_of(old, p, d));
        assert(mid.reg(s, d) == p);
        assert((1 - o) as u32 == d);
        assert(self.is_rotation_of(mid, s, o));
        assert(mid.parent(s) == g);
        assert(mid.reg(p, o) == c);
        assert forall|j: u32, q: u32| #[trigger] self.reg(j, q) == old.reg(j, q) by {
            assert(self.reg(j, q) == mid.rot_reg(s, o, j, q));
            assert(mid.reg(j, q) == old.rot_reg(p, d, j, q));
            if g != SENTINEL {
                assert(mid.left(g) == s <==> old.left(g) == p);
            }
            if j == g && g != SENTINEL && (q == LEFT || q == RIGHT) {
                assert(mid.reg(g, q) == old.rot_reg(p, d, g, q));
            }
        }
        if g == SENTINEL {
            assert(old.root == p);
        }
    }

    /// The insertion fix-up stops at `x`: its parent is not red, or has no parent.
    pub open spec fn insert_fix_done(&self, x: u32) -> bool {
        self.reg(self.parent(x), COLOR) != RED || self.parent(self.parent(x)) == SENTINEL
    }

    /// One pass of the insertion fix-up at `x` (whose parent `p` is red and has a
    /// parent `g`) leads to the tree `t` and goes on from `y`; `m1` and `m2` are the
    /// trees between its steps. With a red uncle `u`, `u` and `p` turn black and `g`
    /// red, and the pass goes on from `g`. Otherwise, when `x` hangs on the side of
    /// `p` away from `g`'s side of `p`, the tree is first rotated at `x` towards that
    /// side of `g` and the pass goes on from `p`; then the parent of that node turns
    /// black, its grandparent red, and the tree is rotated at the grandparent
    /// towards the other side.
    pub open spec fn is_insert_fix_pass(&self, x: u32, m1: Self, m2: Self, t: Self, y: u32) -> bool {
        let p = self.parent(x);
        let g = self.parent(p);
        let dir: u32 = if self.left(g) == p {
            LEFT
        } else {
            RIGHT
        };
        let o: u32 = (1 - dir) as u32;
        let u = self.reg(g, o);
        if self.reg(u, COLOR) == RED {
            &&& t.is_recoloring_of(self, u, BLACK, p, BLACK, g, RED)
            &&& y == g
        } else {
            &&& if (if self.left(p) == x {
                LEFT
            } else {
                RIGHT
            }) == o {
                m1.is_rotation_or_same(self, x, dir) && y == p
            } else {
                m1 == *self && y == x
            }
            &&& m2.is_recoloring_of(&m1, m1.parent(y), BLACK, m1.parent(m1.parent(y)), RED, SENTINEL, BLACK)
            &&& t.is_rotation_or_same(&m2, m1.parent(m1.parent(y)), o)
        }
    }

    /// Pass `i` of a recorded insertion fix-up.
    pub open spec fn insert_fix_step_ok(ts: Seq<Self>, xs: Seq<u32>, m1s: Seq<Self>, m2s: Seq<Self>, i: int) -> bool {
        &&& !ts[i].insert_fix_done(xs[i])
        &&& ts[i].is_insert_fix_pass(xs[i], m1s[i], m2s[i], ts[i + 1], xs[i + 1])
    }

    /// `ts` and `xs` record the trees and nodes of an insertion fix-up from `old` at
    /// `node` that ends in `self`: passes while not done, then the root turns black.
    pub open spec fn is_insert_fix_run(
        &self,
        old: &Self,
        node: u32,
        ts: Seq<Self>,
        xs: Seq<u32>,
        m1s: Seq<Self>,
        m2s: Seq<Self>,
    ) -> bool {
        &&& ts.len() >= 1
        &&& xs.len() == ts.len()
        &&& m1s.len() + 1 == ts.len()
        &&& m2s.len() + 1 == ts.len()
        &&& ts[0] == *old
        &&& xs[0] == node
        &&& forall|i: int| 0 <= i < ts.len() - 1 ==> #[trigger] Self::insert_fix_step_ok(ts, xs, m1s, m2s, i)
        &&& ts.last().insert_fix_done(xs.last())
        &&& self.is_recoloring_of(&ts.last(), ts.last().root_node(), BLACK, SENTINEL, BLACK, SENTINEL, BLACK)
    }

    /// `self` is what the insertion fix-up makes of `old` from `node`: a run of
    /// passes (`is_insert_fix_pass`) until the parent of the current node is not red
    /// or has no parent, after which the root turns black.
    pub open spec fn is_insert_fix_of(&self, old: &Self, node: u32) -> bool {
        exists|ts: Seq<Self>, xs: Seq<u32>, m1s: Seq<Self>, m2s: Seq<Self>|
            #[trigger] self.is_insert_fix_run(old, node, ts, xs, m1s, m2s)
    }

    /// The recoloring and rotating that follows linking `node` in as a red leaf: the
    /// passes that `is_insert_fix_pass` states, then the root turns black. The
    /// tree's shape changes only by rotations, so its map does not change. The
    /// passes do not restore the red-black rules in general: in the inner case the
    /// rotation is made at `node` rather than at its parent, which can leave a red
    /// node with a red child.
    #[verifier::rlimit(60)]
    fn fix_insert(&mut self, node: u32) -> (r: Option<()>)
        requires
            old(self).wf(),
            old(self).live().contains(node),
        ensures
            final(self).wf(),
            final(self)@ == old(self)@,
            final(self).live() == old(self).live(),
            final(self).next_index() == old(self).next_index(),
            forall|i: u32| (i as int) < MAX_SIZE ==> #[trigger] final(self).node_at(i) == old(self).node_at(i),
            r == Some(()),
            final(self).reg(final(self).root_node(), COLOR) == BLACK,
            old(self).reg(old(self).parent(node), COLOR) != RED ==> {
                &&& final(self).root_node() == old(self).root_node()
                &&& forall|j: u32, q: u32| #[trigger]
                    final(self).reg(j, q) == if j == old(self).root_node() && q == COLOR {
                        BLACK
                    } else {
                        old(self).reg(j, q)
                    }
            },
            final(self).is_insert_fix_of(old(self), node),
    {
        let mut node = node;
        let ghost node0 = node;
        let ghost mut first = true;
        let ghost mut ts: Seq<Self> = seq![*self];
        let ghost mut xs: Seq<u32> = seq![node];
        let ghost mut m1s: Seq<Self> = Seq::empty();
        let ghost mut m2s: Seq<Self> = Seq::empty();
        proof {
            self.lemma_wf_basics();
            assert(self.node_ok(node));
        }
        while self.is_red(self.get_parent(node))
            invariant
                first ==> *self == *old(self) && node == node0,
                ts.len() >= 1,
                xs.len() == ts.len(),
                m1s.len() + 1 == ts.len(),
                m2s.len() + 1 == ts.len(),
                ts[0] == *old(self),
                xs[0] == node0,
                forall|i: int| 0 <= i < ts.len() - 1 ==> #[trigger] Self::insert_fix_step_ok(ts, xs, m1s, m2s, i),
                ts.last() == *self,
                xs.last() == node,
                old(self).reg(old(self).parent(node0), COLOR) != RED ==> first,
                self.wf(),
                self.arena_ok(),
                self@ == old(self)@,
                self.live() == old(self).live(),
                self.next_index() == old(self).next_index(),
                forall|i: u32| (i as int) < MAX_SIZE ==> #[trigger] self.node_at(i) == old(self).node_at(i),
                self.live().contains(node),
                (node as int) < MAX_SIZE,
                (self.parent(node) as int) < MAX_SIZE,
            ensures
                self.insert_fix_done(node),
            decreases self.live().len() - self.subtree(node).len(), (if self.reg(self.parent(node), COLOR) == RED {
                1int
            } else {
                0int
            }),
        {
            let ghost t0 = *self;
            let ghost x = node;
            let ghost mut pm1 = t0;
            let ghost mut pm2 = t0;
            proof {
                self.lemma_wf_basics();
                self.allocator.lemma_live();
                self.lemma_sub(node);
                self.lemma_sub_le_live(node);
                assert(self.node_ok(node));
            }
            let mut parent = self.get_parent(node);
            proof {
                assert(parent != SENTINEL);
                assert(self.live().contains(parent));
                self.lemma_sub(parent);
                self.lemma_sub_le_live(parent);
            }
            let mut grandparent = self.get_parent(parent);
            if grandparent == SENTINEL {
                proof {
                    assert(parent == self.root);
                }
                break;
            }
            proof {
                assert(self.live().contains(grandparent));
                self.lemma_sub(grandparent);
                self.lemma_sub_le_live(grandparent);
            }
            let dir = self.child_dir(grandparent, parent);
            let uncle = self.get_child(grandparent, opposite(dir));
            proof {
                assert(uncle == SENTINEL || self.live().contains(uncle));
            }
            if self.is_red(uncle) {
                self.color_black(uncle);
                let ghost ca = *self;
                self.color_black(parent);
                let ghost cb = *self;
                self.color_red(grandparent);
                proof {
                    assert forall|j: u32, q: u32| #[trigger]
                        self.reg(j, q) == if q == COLOR && j != SENTINEL && j == grandparent {
                            RED
                        } else if q == COLOR && j != SENTINEL && j == parent {
                            BLACK
                        } else if q == COLOR && j != SENTINEL && j == uncle {
                            BLACK
                        } else {
                            t0.reg(j, q)
                        } by {
                        assert(cb.reg(j, q) == if j == parent && q == COLOR { BLACK } else { ca.reg(j, q) });
                        assert(ca.reg(j, q) == if j == uncle && q == COLOR { BLACK } else { t0.reg(j, q) });
                        if j == SENTINEL {
                            t0.allocator.lemma_live();
                            self.allocator.lemma_live();
                        }
                    }
                    assert(self.same_but_registers(&t0));
                    assert(self.is_recoloring_of(&t0, uncle, BLACK, parent, BLACK, grandparent, RED));
                }
                node = grandparent;
                proof {
                    assert(self.subtree(node) == t0.subtree(grandparent));
                    assert(t0.subtree(x).len() < t0.subtree(parent).len());
                    assert(t0.subtree(parent).len() < t0.subtree(grandparent).len());
                    self.lemma_sub_le_live(node);
                    self.lemma_wf_basics();
                    assert(self.node_ok(node));
                }
            } else {
                if self.child_dir(parent, node) == opposite(dir) {
                    let ghost t1 = *self;
                    proof {
                        self.lemma_parent_outside(node);
                        let s1 = self.reg(node, (1 - dir) as u32);
                        if s1 != SENTINEL {
                            self.lemma_rotate_facts(
                                node,
                                dir,
                                s1,
                                self.reg(node, dir),
                                self.reg(s1, (1 - dir) as u32),
                                self.reg(s1, dir),
                                parent,
                            );
                        }
                    }
                    self.rotate_dir(node, dir);
                    node = parent;
                    proof {
                        assert(self.subtree(parent) == t1.subtree(parent));
                        assert(self.parent(parent) == grandparent);
                    }
                }
                let ghost t2 = *self;
                proof {
                    self.lemma_wf_basics();
                    if (if t0.left(t0.parent(x)) == x {
                        LEFT
                    } else {
                        RIGHT
                    }) == (1 - dir) as u32 {
                        assert(t2.is_rotation_or_same(&t0, x, dir));
                        assert(node == t0.parent(x));
                    } else {
                        assert(t2 == t0);
                        assert(node == x);
                    }
                }
                parent = self.get_parent(node);
                grandparent = self.get_parent(parent);
                proof {
                    self.lemma_wf_basics();
                    assert(self.live().contains(parent));
                    assert(self.node_ok(parent));
                    assert(grandparent == SENTINEL || self.live().contains(grandparent));
                }
                self.color_black(parent);
                let ghost cc = *self;
                self.color_red(grandparent);
                let ghost t3 = *self;
                proof {
                    self.lemma_wf_basics();
                    assert forall|j: u32, q: u32| #[trigger]
                        t3.reg(j, q) == if q == COLOR && j != SENTINEL && j == SENTINEL {
                            BLACK
                        } else if q == COLOR && j != SENTINEL && j == grandparent {
                            RED
                        } else if q == COLOR && j != SENTINEL && j == parent {
                            BLACK
                        } else {
                            t2.reg(j, q)
                        } by {
                        assert(cc.reg(j, q) == if j == parent && q == COLOR { BLACK } else { t2.reg(j, q) });
                        if j == SENTINEL {
                            t2.allocator.lemma_live();
                            t3.allocator.lemma_live();
                        }
                    }
                    assert(t3.same_but_registers(&t2));
                    assert(t3.is_recoloring_of(&t2, parent, BLACK, grandparent, RED, SENTINEL, BLACK));
                    pm1 = t2;
                    pm2 = t3;
                }
                self.rotate_dir(grandparent, opposite(dir));
                proof {
                    assert(self.is_rotation_or_same(&t3, grandparent, (1 - dir) as u32));
                    self.lemma_sub_le_live(node);
                    self.lemma_wf_basics();
                    assert(self.node_ok(node));
                }
            }
            proof {
                first = false;
                assert(t0.is_insert_fix_pass(x, pm1, pm2, *self, node));
                let k = ts.len() - 1;
                assert(!t0.insert_fix_done(x));
                let tp = ts;
                let xp = xs;
                let m1p = m1s;
                let m2p = m2s;
                ts = ts.push(*self);
                xs = xs.push(node);
                m1s = m1s.push(pm1);
                m2s = m2s.push(pm2);
                assert(ts[k] == t0 && xs[k] == x && ts[k + 1] == *self && xs[k + 1] == node);
                assert(m1s[k] == pm1 && m2s[k] == pm2);
                assert(Self::insert_fix_step_ok(ts, xs, m1s, m2s, k));
                assert forall|i: int| 0 <= i < ts.len() - 1 implies #[trigger] Self::insert_fix_step_ok(ts, xs, m1s, m2s, i) by {
                    if i < k {
                        assert(Self::insert_fix_step_ok(tp, xp, m1p, m2p, i));
                        assert(tp[i] == ts[i] && tp[i + 1] == ts[i + 1]);
                        assert(xp[i] == xs[i] && xp[i + 1] == xs[i + 1]);
                        assert(m1p[i] == m1s[i] && m2p[i] == m2s[i]);
                    }
                }
            }
        }
        proof {
            self.lemma_wf_basics();
        }
        let ghost tl = *self;
        self.color_black(self.root);
        proof {
            assert forall|j: u32, q: u32| #[trigger]
                self.reg(j, q) == if q == COLOR && j != SENTINEL && j == SENTINEL {
                    BLACK
                } else if q == COLOR && j != SENTINEL && j == SENTINEL {
                    BLACK
                } else if q == COLOR && j != SENTINEL && j == tl.root {
                    BLACK
                } else {
                    tl.reg(j, q)
                } by {
            }
            assert(self.is_recoloring_of(&tl, tl.root, BLACK, SENTINEL, BLACK, SENTINEL, BLACK));
            assert(self.is_insert_fix_run(old(self), node0, ts, xs, m1s, m2s));
        }
        Some(())
    }

    /// A mutable reference to the key and value held in slot `node`.
    fn get_node_mut(&mut self, node: u32) -> (n: &mut RBNode<K, V>)
        requires
            old(self).arena_ok(),
            (node as int) < MAX_SIZE,
        ensures
            *n == old(self).node_at(node),
            final(self).arena_ok(),
            final(self).live() == old(self).live(),
            final(self).next_index() == old(self).next_index(),
            final(self).root == old(self).root,
            final(self).desc == old(self).desc,
            forall|j: u32, q: u32| #[trigger] final(self).reg(j, q) == old(self).reg(j, q),
            forall|j: u32|
                (j as int) < MAX_SIZE ==> #[trigger] final(self).node_at(j) == if j == node {
                    *final(n)
                } else {
                    old(self).node_at(j)
                },
            old(self).allocator.clean() ==> final(self).allocator.clean(),
    {
        self.allocator.get_mut(node)
    }

    /// `self` is `old` with the value of node `i` replaced by `v`.
    spec fn is_value_update(&self, old: &Self, i: u32, v: V) -> bool {
        &&& self.allocator.inv()
        &&& self.allocator.clean()
        &&& self.live() == old.live()
        &&& self.root == old.root
        &&& self.desc == old.desc
        &&& forall|j: u32, q: u32| #[trigger] self.reg(j, q) == old.reg(j, q)
        &&& forall|j: u32|
            (j as int) < MAX_SIZE ==> #[trigger] self.node_at(j) == if j == i {
                RBNode { key: old.key(i), value: v }
            } else {
                old.node_at(j)
            }
    }

    /// Whatever value is stored in node `i`, the tree stays well formed and the
    /// value lands under the node's key.
    proof fn lemma_value_update(&self, i: u32)
        requires
            self.wf(),
            self.live().contains(i),
        ensures
            forall|t: Self, v: V| #[trigger]
                t.is_value_update(self, i, v) ==> t.wf() && t@ == self@.insert(self.key(i), v),
    {
        assert forall|t: Self, v: V| #[trigger]
            t.is_value_update(self, i, v) implies t.wf() && t@ == self@.insert(self.key(i), v) by {
            t.lemma_set_value(self, i, v);
        }
    }

    /// A mutable reference to the value held in node `i`.
    fn value_mut(&mut self, i: u32) -> (r: &mut V)
        requires
            old(self).wf(),
            old(self).live().contains(i),
        ensures
            *r == old(self).node_at(i).value,
            final(self).is_value_update(old(self), i, *final(r)),
    {
        proof {
            self.lemma_wf_basics();
        }
        let n = self.get_node_mut(i);
        &mut n.value
    }

    /// Storing a new value in a node keeps the tree well formed.
    proof fn lemma_set_value(&self, old: &Self, i: u32, v: V)
        requires
            old.wf(),
            old.live().contains(i),
            self.allocator.inv(),
            self.allocator.clean(),
            self.live() == old.live(),
            self.root == old.root,
            self.desc == old.desc,
            forall|j: u32, q: u32| #[trigger] self.reg(j, q) == old.reg(j, q),
            forall|j: u32|
                (j as int) < MAX_SIZE ==> #[trigger] self.node_at(j) == if j == i {
                    RBNode { key: old.key(i), value: v }
                } else {
                    old.node_at(j)
                },
        ensures
            self.wf(),
            self@ == old@.insert(old.key(i), v),
    {
        reveal(RedBlackTree::wf);
        old.lemma_wf_basics();
        old.lemma_map();
        assert forall|j: u32| #[trigger] old.live().contains(j) implies self.key(j) == old.key(j) by {
        }
        assert forall|j: u32| self.live().contains(j) implies #[trigger] self.node_ok(j) by {
            assert(old.node_ok(j));
            let l = old.left(j);
            let r = old.right(j);
            assert forall|k: u32| #[trigger] self.subtree(l).contains(k) implies key_lt(self.key(k), self.key(j)) by {
                old.lemma_sub_trans(j, k);
            }
            assert forall|k: u32| #[trigger] self.subtree(r).contains(k) implies key_lt(self.key(j), self.key(k)) by {
                old.lemma_sub_trans(j, k);
            }
        }
        assert forall|a: u32, b: u32|
            self.live().contains(a) && self.live().contains(b) && #[trigger] self.key(a)
                == #[trigger] self.key(b) implies a == b by {
            assert(old.key(a) == old.key(b));
        }
        old.lemma_wf_basics();
        assert(self.keys_unique());
        self.lemma_view();
        assert forall|k: K| #[trigger] self@.contains_key(k) <==> old@.contains_key(k) by {
            if self@.contains_key(k) {
                let j = self.index_of(k);
                assert(old.live().contains(j) && old.key(j) == k);
            }
            if old@.contains_key(k) {
                let j = old.index_of(k);
                assert(self.live().contains(j) && self.key(j) == k);
            }
        }
        assert forall|k: K| #[trigger] self@.contains_key(k) implies self@[k] == old@.insert(
            old.key(i),
            v,
        )[k] by {
            let j = old.index_of(k);
            assert(self.live().contains(j) && self.key(j) == k);
        }
        assert(self@ =~= old@.insert(old.key(i), v));
    }

    /// The subtrees after linking `n` in as child `dir` of leaf-side `x`.
    spec fn grown_desc(&self, x: u32, n: u32) -> Map<u32, Set<u32>> {
        Map::new(
            |j: u32| self.live().insert(n).contains(j),
            |j: u32|
                if j == n {
                    Set::empty().insert(n)
                } else if self.desc@[j].contains(x) {
                    self.desc@[j].insert(n)
                } else {
                    self.desc@[j]
                },
        )
    }

    /// `self` is `old` with node `n`, holding `key` and `value`, linked in as child
    /// `dir` of `x`.
    spec fn is_leaf_insertion(&self, old: &Self, x: u32, n: u32, dir: u32, key: K, value: V) -> bool {
        &&& self.allocator.inv()
        &&& self.allocator.clean()
        &&& self.live() == old.live().insert(n)
        &&& self.root == old.root
        &&& forall|j: u32, q: u32|
            #[trigger] self.reg(j, q) == if j == n {
                if q == PARENT {
                    x
                } else if q == COLOR {
                    RED
                } else {
                    0
                }
            } else if j == x && q == dir {
                n
            } else {
                old.reg(j, q)
            }
        &&& forall|j: u32|
            (j as int) < MAX_SIZE ==> #[trigger] self.node_at(j) == if j == n {
                RBNode { key, value }
            } else {
                old.node_at(j)
            }
        &&& self.desc@ == old.grown_desc(x, n)
    }

    /// What the search for a fresh key's place gives: `key` is absent, and lies on
    /// the correct side of `x` and of every node above `x`.
    pub open spec fn is_leaf_place(&self, x: u32, dir: u32, key: K) -> bool {
        &&& self.live().contains(x)
        &&& dir <= 1
        &&& self.reg(x, dir) == SENTINEL
        &&& !self@.contains_key(key)
        &&& dir == LEFT ==> key_lt(key, self.key(x))
        &&& dir == RIGHT ==> key_lt(self.key(x), key)
        &&& forall|j: u32|
            self.live().contains(j) && #[trigger] self.subtree(self.left(j)).contains(x) ==> key_lt(
                key,
                self.key(j),
            )
        &&& forall|j: u32|
            self.live().contains(j) && #[trigger] self.subtree(self.right(j)).contains(x) ==> key_lt(
                self.key(j),
                key,
            )
    }

    /// After a leaf insertion, every node is well formed.
    proof fn lemma_insert_node_n(&self, old: &Self, x: u32, n: u32, dir: u32, key: K, value: V, j: u32)
        requires
            old.wf(),
            old.is_leaf_place(x, dir, key),
            !old.live().contains(n),
            n != SENTINEL,
            (n as int) < MAX_SIZE,
            self.is_leaf_insertion(old, x, n, dir, key, value),
            self.live().contains(j),
            j == n,
        ensures
            self.node_ok(j),
    {
        reveal(RedBlackTree::wf);
        old.lemma_wf_basics();
        lemma_key_order::<K>();
        assert forall|k: u32| #[trigger] old.live().contains(k) implies self.key(k) == old.key(k) by {
        }
        assert(self.key(n) == key);
        assert(self.subtree(SENTINEL) == Set::<u32>::empty());
        assert(self.subtree(n) == Set::<u32>::empty().insert(n));
        assert forall|k: u32| old.live().contains(k) implies #[trigger] self.subtree(k) == if old.subtree(k).contains(x) {
            old.subtree(k).insert(n)
        } else {
            old.subtree(k)
        } by {
        }
        old.lemma_sub(x);
            assert(self.left(n) == SENTINEL);
            assert(self.right(n) == SENTINEL);
            assert(self.parent(n) == x);
            assert(self.reg(x, dir) == n);
            assert(self.subtree(n) =~= self.subtree(SENTINEL).union(self.subtree(SENTINEL)).insert(n));
        let nl = self.left(j);
        let nr = self.right(j);
        let np = self.parent(j);
        assert(nl == SENTINEL || self.live().contains(nl));
        assert(nr == SENTINEL || self.live().contains(nr));
        assert(self.subtree(j) == self.subtree(nl).union(self.subtree(nr)).insert(j));
        assert(self.subtree(j).subset_of(self.live()));
        assert(!self.subtree(nl).contains(j));
        assert(!self.subtree(nr).contains(j));
        assert(self.subtree(nl).disjoint(self.subtree(nr)));
        assert(nl != SENTINEL ==> self.parent(nl) == j);
        assert(nr != SENTINEL ==> self.parent(nr) == j);
        assert(np == SENTINEL ==> j == self.root);
        assert(np != SENTINEL ==> self.live().contains(np) && (self.left(np) == j || self.right(np)
            == j));
    }

    /// After a leaf insertion, every node is well formed.
    proof fn lemma_insert_node_x(&self, old: &Self, x: u32, n: u32, dir: u32, key: K, value: V, j: u32)
        requires
            old.wf(),
            old.is_leaf_place(x, dir, key),
            !old.live().contains(n),
            n != SENTINEL,
            (n as int) < MAX_SIZE,
            self.is_leaf_insertion(old, x, n, dir, key, value),
            self.live().contains(j),
            j == x,
        ensures
            self.node_ok(j),
    {
        reveal(RedBlackTree::wf);
        old.lemma_wf_basics();
        lemma_key_order::<K>();
        assert forall|k: u32| #[trigger] old.live().contains(k) implies self.key(k) == old.key(k) by {
        }
        assert(self.key(n) == key);
        assert(self.subtree(SENTINEL) == Set::<u32>::empty());
        assert(self.subtree(n) == Set::<u32>::empty().insert(n));
        assert forall|k: u32| old.live().contains(k) implies #[trigger] self.subtree(k) == if old.subtree(k).contains(x) {
            old.subtree(k).insert(n)
        } else {
            old.subtree(k)
        } by {
        }
        old.lemma_sub(x);
            let o = (1 - dir) as u32;
            let other = old.reg(x, o);
            assert(self.reg(x, dir) == n);
            assert(self.reg(x, o) == other);
            assert(old.node_ok(x));
            if other != SENTINEL {
                old.lemma_sub(other);
                assert(!old.subtree(other).contains(x));
                assert(self.subtree(other) == old.subtree(other));
                assert(self.parent(other) == x);
            }
            assert(self.subtree(x) =~= old.subtree(x).insert(n));
            assert(self.subtree(x) =~= self.subtree(n).union(self.subtree(other)).insert(x));
            let p = old.parent(x);
            assert(self.parent(x) == p);
            if p != SENTINEL {
                assert(self.left(p) == old.left(p));
                assert(self.right(p) == old.right(p));
            }
            let nl = self.left(x);
            let nr = self.right(x);
            assert forall|k: u32| #[trigger] self.subtree(nl).contains(k) implies key_lt(self.key(k), self.key(x)) by {
                if k != n {
                    old.lemma_sub_trans(x, k);
                }
            }
            assert forall|k: u32| #[trigger] self.subtree(nr).contains(k) implies key_lt(self.key(x), self.key(k)) by {
                if k != n {
                    old.lemma_sub_trans(x, k);
                }
            }
            assert(self.subtree(x).subset_of(self.live()));
        let nl = self.left(j);
        let nr = self.right(j);
        let np = self.parent(j);
        assert(nl == SENTINEL || self.live().contains(nl));
        assert(nr == SENTINEL || self.live().contains(nr));
        assert(self.subtree(j) == self.subtree(nl).union(self.subtree(nr)).insert(j));
        assert(self.subtree(j).subset_of(self.live()));
        assert(!self.subtree(nl).contains(j));
        assert(!self.subtree(nr).contains(j));
        assert(self.subtree(nl).disjoint(self.subtree(nr)));
        assert(nl != SENTINEL ==> self.parent(nl) == j);
        assert(nr != SENTINEL ==> self.parent(nr) == j);
        assert(np == SENTINEL ==> j == self.root);
        assert(np != SENTINEL ==> self.live().contains(np) && (self.left(np) == j || self.right(np)
            == j));
    }

    /// After a leaf insertion, every node is well formed.
    proof fn lemma_insert_node_other(&self, old: &Self, x: u32, n: u32, dir: u32, key: K, value: V, j: u32)
        requires
            old.wf(),
            old.is_leaf_place(x, dir, key),
            !old.live().contains(n),
            n != SENTINEL,
            (n as int) < MAX_SIZE,
            self.is_leaf_insertion(old, x, n, dir, key, value),
            self.live().contains(j),
            j != n,
            j != x,
        ensures
            self.node_ok(j),
    {
        reveal(RedBlackTree::wf);
        old.lemma_wf_basics();
        lemma_key_order::<K>();
        assert forall|k: u32| #[trigger] old.live().contains(k) implies self.key(k) == old.key(k) by {
        }
        assert(self.key(n) == key);
        assert(self.subtree(SENTINEL) == Set::<u32>::empty());
        assert(self.subtree(n) == Set::<u32>::empty().insert(n));
        assert forall|k: u32| old.live().contains(k) implies #[trigger] self.subtree(k) == if old.subtree(k).contains(x) {
            old.subtree(k).insert(n)
        } else {
            old.subtree(k)
        } by {
        }
        old.lemma_sub(x);
            assert(old.node_ok(j));
            old.lemma_sub(j);
            let l = old.left(j);
            let r = old.right(j);
            let p = old.parent(j);
            assert(self.left(j) == l);
            assert(self.right(j) == r);
            assert(self.parent(j) == p);
            if l != SENTINEL {
                assert(l != n);
                assert(self.parent(l) == j);
            }
            if r != SENTINEL {
                assert(r != n);
                assert(self.parent(r) == j);
            }
            if p != SENTINEL {
                if p == x {
                    assert(old.reg(x, dir) != j);
                    assert(self.left(p) == j || self.right(p) == j);
                } else {
                    assert(self.left(p) == old.left(p));
                    assert(self.right(p) == old.right(p));
                }
            }
            assert(!old.subtree(j).contains(n));
            assert(!old.subtree(l).contains(n));
            assert(!old.subtree(r).contains(n));
            if old.subtree(j).contains(x) {
                assert(old.subtree(l).contains(x) || old.subtree(r).contains(x));
            }
            if old.subtree(l).contains(x) || old.subtree(r).contains(x) {
                assert(old.subtree(j).contains(x));
            }
            assert(self.subtree(j) =~= self.subtree(l).union(self.subtree(r)).insert(j));
            assert forall|k: u32| #[trigger] self.subtree(l).contains(k) implies key_lt(self.key(k), self.key(j)) by {
                if k != n {
                    old.lemma_sub_trans(j, k);
                } else {
                    assert(old.subtree(l).contains(x));
                    assert(old.subtree(old.left(j)).contains(x));
                }
            }
            assert forall|k: u32| #[trigger] self.subtree(r).contains(k) implies key_lt(self.key(j), self.key(k)) by {
                if k != n {
                    old.lemma_sub_trans(j, k);
                } else {
                    assert(old.subtree(r).contains(x));
                    assert(old.subtree(old.right(j)).contains(x));
                }
            }
            assert(self.subtree(j).subset_of(self.live()));
        let nl = self.left(j);
        let nr = self.right(j);
        let np = self.parent(j);
        assert(nl == SENTINEL || self.live().contains(nl));
        assert(nr == SENTINEL || self.live().contains(nr));
        assert(self.subtree(j) == self.subtree(nl).union(self.subtree(nr)).insert(j));
        assert(self.subtree(j).subset_of(self.live()));
        assert(!self.subtree(nl).contains(j));
        assert(!self.subtree(nr).contains(j));
        assert(self.subtree(nl).disjoint(self.subtree(nr)));
        assert(nl != SENTINEL ==> self.parent(nl) == j);
        assert(nr != SENTINEL ==> self.parent(nr) == j);
        assert(np == SENTINEL ==> j == self.root);
        assert(np != SENTINEL ==> self.live().contains(np) && (self.left(np) == j || self.right(np)
            == j));
    }

    /// A leaf insertion keeps the tree well formed.
    proof fn lemma_insert_leaf(&self, old: &Self, x: u32, n: u32, dir: u32, key: K, value: V)
        requires
            old.wf(),
            old.is_leaf_place(x, dir, key),
            !old.live().contains(n),
            n != SENTINEL,
            (n as int) < MAX_SIZE,
            self.is_leaf_insertion(old, x, n, dir, key, value),
        ensures
            self.wf(),
            self@ == old@.insert(key, value),
    {
        reveal(RedBlackTree::wf);
        old.lemma_wf_basics();
        old.lemma_map();
        assert forall|k: u32| #[trigger] old.live().contains(k) implies self.key(k) == old.key(k) by {
        }
        assert forall|j: u32| self.live().contains(j) implies #[trigger] self.node_ok(j) by {
            if j == n {
                self.lemma_insert_node_n(old, x, n, dir, key, value, j);
            } else if j == x {
                self.lemma_insert_node_x(old, x, n, dir, key, value, j);
            } else {
                self.lemma_insert_node_other(old, x, n, dir, key, value, j);
            }
        }
        assert(self.desc@.dom() =~= self.live());
        assert(old.subtree(old.root).contains(x));
        assert(self.subtree(self.root) =~= self.live());
        assert forall|a: u32, b: u32|
            self.live().contains(a) && self.live().contains(b) && #[trigger] self.key(a)
                == #[trigger] self.key(b) implies a == b by {
            if a == n && b != n {
                assert(old@.contains_key(old.key(b)));
            } else if b == n && a != n {
                assert(old@.contains_key(old.key(a)));
            } else if a != n && b != n {
                assert(old.key(a) == old.key(b));
            }
        }
        assert(self.keys_unique());
        self.lemma_view_insert(old, n, key, value);
    }

    /// A tree of one node is well formed.
    proof fn lemma_first_node(&self, old: &Self, n: u32, key: K, value: V)
        requires
            old.wf(),
            old.root == SENTINEL,
            n != SENTINEL,
            (n as int) < MAX_SIZE,
            self.allocator.inv(),
            self.allocator.clean(),
            self.live() == old.live().insert(n),
            self.root == n,
            forall|q: u32| #[trigger] self.reg(n, q) == 0,
            self.node_at(n) == (RBNode { key, value }),
            self.desc@ == Map::<u32, Set<u32>>::empty().insert(n, Set::<u32>::empty().insert(n)),
        ensures
            self.wf(),
            self@ == old@.insert(key, value),
    {
        reveal(RedBlackTree::wf);
        old.lemma_wf_basics();
        old.lemma_map();
        assert(self.live() =~= Set::<u32>::empty().insert(n));
        assert(self.desc@.dom() =~= self.live());
        assert forall|i: u32| #[trigger] self.reg(i, COLOR) == BLACK || self.reg(i, COLOR) == RED by {
            if i != n {
                self.allocator.lemma_clean(i);
            }
        }
        assert(self.node_ok(n)) by {
            assert(self.subtree(n) =~= self.subtree(SENTINEL).union(self.subtree(SENTINEL)).insert(n));
        }
        assert(self.subtree(self.root) == self.live());
        assert forall|i: u32| self.live().contains(i) implies #[trigger] self.node_ok(i) by {
            assert(i == n);
        }
        assert forall|a: u32, b: u32|
            self.live().contains(a) && self.live().contains(b) && #[trigger] self.key(a)
                == #[trigger] self.key(b) implies a == b by {
        }
        assert(!old@.contains_key(key)) by {
            if old@.contains_key(key) {
                let i = choose|i: u32| old.live().contains(i) && old.key(i) == key;
            }
        }
        self.lemma_view_insert(old, n, key, value);
    }

    /// `self` is `old` with a new node `n` holding `key` and `value`: when `old` is
    /// empty, `n` is the root, black and without links; otherwise `n` is linked in
    /// as a red leaf on side `dir` of the node `x` that the search for `key`
    /// reaches, and the tree is then fixed up from `n` when `x` has a parent.
    pub closed spec fn is_insertion_of(&self, old: &Self, n: u32, key: K, value: V) -> bool {
        if old.root == SENTINEL {
            &&& self.root == n
            &&& forall|q: u32| #[trigger] self.reg(n, q) == 0
        } else {
            exists|x: u32, dir: u32, m: Self|
                #[trigger] m.is_leaf_insertion(old, x, n, dir, key, value) && old.is_leaf_place(
                    x,
                    dir,
                    key,
                ) && if old.parent(x) != SENTINEL {
                    self.is_insert_fix_of(&m, n)
                } else {
                    *self == m
                }
        }
    }

    /// `self` is `old` with node `n`, holding `key` and `value`, linked in as a red
    /// leaf on side `dir` of `x`, stated over the registers.
    pub open spec fn is_linked_leaf(&self, old: &Self, x: u32, n: u32, dir: u32, key: K, value: V) -> bool {
        &&& self.live() == old.live().insert(n)
        &&& self.root_node() == old.root_node()
        &&& forall|j: u32, q: u32|
            #[trigger] self.reg(j, q) == if j == n {
                if q == PARENT {
                    x
                } else if q == COLOR {
                    RED
                } else {
                    0
                }
            } else if j == x && q == dir {
                n
            } else {
                old.reg(j, q)
            }
        &&& forall|j: u32|
            (j as int) < MAX_SIZE ==> #[trigger] self.node_at(j) == if j == n {
                RBNode { key, value }
            } else {
                old.node_at(j)
            }
    }

    /// What an insertion of a new key is, stated over the registers.
    pub proof fn lemma_insertion(&self, old: &Self, n: u32, key: K, value: V)
        requires
            self.is_insertion_of(old, n, key, value),
        ensures
            old.root_node() == SENTINEL ==> self.root_node() == n && forall|q: u32| #[trigger]
                self.reg(n, q) == 0,
            old.root_node() != SENTINEL ==> exists|x: u32, dir: u32, m: Self|
                #[trigger] m.is_linked_leaf(old, x, n, dir, key, value) && old.is_leaf_place(
                    x,
                    dir,
                    key,
                ) && if old.parent(x) != SENTINEL {
                    self.is_insert_fix_of(&m, n)
                } else {
                    *self == m
                },
    {
        if old.root_node() != SENTINEL {
            let (x, dir, m) = choose|x: u32, dir: u32, m: Self|
                #[trigger] m.is_leaf_insertion(old, x, n, dir, key, value) && old.is_leaf_place(
                    x,
                    dir,
                    key,
                ) && if old.parent(x) != SENTINEL {
                    self.is_insert_fix_of(&m, n)
                } else {
                    *self == m
                };
            assert(m.is_linked_leaf(old, x, n, dir, key, value));
        }
    }

    /// Stores `value` under `key`. Returns the index of the node that holds the key,
    /// or `None` when the key is new and the arena has no slot left for it.
    pub fn insert(&mut self, key: K, value: V) -> (r: Option<u32>)
        requires
            old(self).wf(),
            2 <= MAX_SIZE,
            MAX_SIZE <= u32::MAX,
        ensures
            final(self).wf(),
            match r {
                Some(i) => {
                    &&& final(self)@ == old(self)@.insert(key, value)
                    &&& final(self).live().contains(i)
                    &&& final(self).node_at(i) == (RBNode { key, value })
                    &&& final(self).live() == old(self).live().insert(i)
                    &&& forall|j: u32|
                        (j as int) < MAX_SIZE && j != i ==> #[trigger] final(self).node_at(j)
                            == old(self).node_at(j)
                    &&& old(self)@.contains_key(key) ==> i == old(self).index_of(key)
                    &&& old(self)@.contains_key(key) ==> final(self).root_node() == old(
                        self,
                    ).root_node() && forall|j: u32, q: u32| #[trigger]
                        final(self).reg(j, q) == old(self).reg(j, q)
                    &&& !old(self)@.contains_key(key) ==> i == old(self).next_index()
                    &&& !old(self)@.contains_key(key) ==> final(self).is_insertion_of(
                        old(self),
                        i,
                        key,
                        value,
                    )
                    &&& old(self).root_node() == SENTINEL ==> final(self).root_node() == i
                        && forall|q: u32| #[trigger] final(self).reg(i, q) == 0
                    &&& !old(self)@.contains_key(key) && old(self).root_node() != SENTINEL
                        ==> exists|x: u32, dir: u32|
                        #![trigger old(self).reg(x, dir)]
                        {
                            &&& old(self).live().contains(x)
                            &&& dir <= 1
                            &&& old(self).reg(x, dir) == SENTINEL
                            &&& dir == LEFT ==> key_lt(key, old(self).key(x))
                            &&& dir == RIGHT ==> key_lt(old(self).key(x), key)
                            &&& old(self).parent(x) == SENTINEL ==> {
                                &&& final(self).root_node() == old(self).root_node()
                                &&& forall|j: u32, q: u32| #[trigger]
                                    final(self).reg(j, q) == if j == i {
                                        if q == PARENT {
                                            x
                                        } else if q == COLOR {
                                            RED
                                        } else {
                                            0
                                        }
                                    } else if j == x && q == dir {
                                        i
                                    } else {
                                        old(self).reg(j, q)
                                    }
                            }
                        }
                },
                None => *final(self) == *old(self),
            },
            r is None <==> (!old(self)@.contains_key(key) && old(self)@.len() > 0 && old(self)@.len()
                + 1 >= MAX_SIZE),
    {
        proof {
            self.lemma_wf_basics();
            self.lemma_map();
            self.allocator.lemma_live();
        }
        let mut reference_node = self.root;
        let new_node = RBNode::new(key, value);
        if reference_node == SENTINEL {
            let ghost t0 = *self;
            let node_index = self.allocator.add_node(new_node);
            self.root = node_index;
            self.desc = Ghost(
                Map::<u32, Set<u32>>::empty().insert(node_index, Set::<u32>::empty().insert(node_index)),
            );
            proof {
                assert(self.is_insertion_of(&t0, node_index, key, value));
                self.lemma_first_node(&t0, node_index, key, value);
                assert(!t0@.contains_key(key)) by {
                    if t0@.contains_key(key) {
                        let i = choose|i: u32| t0.live().contains(i) && t0.key(i) == key;
                    }
                }
                assert(self.live().contains(node_index));
            }
            return Some(node_index);
        }
        proof {
            let root = self.root;
            self.lemma_sub(root);
            assert forall|j: u32|
                self.live().contains(j) && #[trigger] self.subtree(self.left(j)).contains(root)
                    implies key_lt(key, self.key(j)) by {
                self.lemma_sub(j);
                self.lemma_root_only(j);
            }
            assert forall|j: u32|
                self.live().contains(j) && #[trigger] self.subtree(self.right(j)).contains(root)
                    implies key_lt(self.key(j), key) by {
                self.lemma_sub(j);
                self.lemma_root_only(j);
            }
        }
        loop
            invariant
                *self == *old(self),
                self.wf(),
                self.arena_ok(),
                new_node == (RBNode { key, value }),
                self.live().contains(reference_node),
                2 <= MAX_SIZE <= u32::MAX,
                forall|i: u32|
                    self.live().contains(i) && self.key(i) == key ==> #[trigger] self.subtree(
                        reference_node,
                    ).contains(i),
                forall|j: u32|
                    self.live().contains(j) && #[trigger] self.subtree(self.left(j)).contains(
                        reference_node,
                    ) ==> key_lt(key, self.key(j)),
                forall|j: u32|
                    self.live().contains(j) && #[trigger] self.subtree(self.right(j)).contains(
                        reference_node,
                    ) ==> key_lt(self.key(j), key),
            decreases self.subtree(reference_node).len(),
        {
            proof {
                self.lemma_wf_basics();
                self.lemma_map();
                self.lemma_sub(reference_node);
                self.allocator.lemma_live();
                lemma_key_order::<K>();
            }
            let ref_value = self.get_node(reference_node).key;
            let ghost x = reference_node;
            let (target, dir) = if key < ref_value {
                (self.get_left(reference_node), LEFT)
            } else if key > ref_value {
                proof {
                    assert(key_gt(key, ref_value));
                }
                (self.get_right(reference_node), RIGHT)
            } else {
                proof {
                    assert(!key_lt(key, ref_value));
                    assert(!key_gt(key, ref_value));
                    assert(!key_lt(ref_value, key));
                    assert(key == ref_value);
                }
                let ghost t0 = *self;
                self.get_node_mut(reference_node).value = value;
                let ghost t1 = *self;
                proof {
                    assert(self.allocator == t1.allocator);
                    assert forall|j: u32, q: u32| #[trigger] self.reg(j, q) == t0.reg(j, q) by {
                        assert(t1.reg(j, q) == t0.reg(j, q));
                    }
                    assert forall|j: u32|
                        (j as int) < MAX_SIZE implies #[trigger] self.node_at(j) == if j == x {
                            RBNode { key: t0.key(x), value }
                        } else {
                            t0.node_at(j)
                        } by {
                        assert(t1.node_at(j) == self.node_at(j));
                    }
                    assert(self.live() == t1.live());
                    self.lemma_set_value(&t0, x, value);
                    assert(t0@.contains_key(key));
                    assert(t0.index_of(key) == x);
                }
                return Some(reference_node);
            };
            proof {
                assert(self.reg(x, dir) == target);
                assert forall|i: u32|
                    self.live().contains(i) && self.key(i) == key implies #[trigger] self.subtree(
                    target,
                ).contains(i) by {
                    assert(self.subtree(x).contains(i));
                    if self.subtree(self.left(x)).contains(i) {
                    } else if self.subtree(self.right(x)).contains(i) {
                    }
                }
            }
            if target == SENTINEL {
                proof {
                    if self@.contains_key(key) {
                        let i = choose|i: u32| self.live().contains(i) && self.key(i) == key;
                        assert(self.subtree(target).contains(i));
                    }
                }
                if self.size() >= MAX_SIZE - 1 {
                    return None;
                }
                let ghost t0 = *self;
                proof {
                    assert(t0.is_leaf_place(x, dir, key));
                }
                let node_index = self.allocator.add_node(new_node);
                let ghost t1 = *self;
                self.color_red(node_index);
                let ghost t2 = *self;
                self.connect(reference_node, node_index, dir);
                let ghost t3 = *self;
                proof {
                    assert(t1.allocator.clean());
                    assert(t2.allocator.clean());
                    assert(t3.allocator.clean());
                    assert forall|j: u32, q: u32|
                        #[trigger] t3.reg(j, q) == if j == node_index {
                            if q == PARENT {
                                x
                            } else if q == COLOR {
                                RED
                            } else {
                                0
                            }
                        } else if j == x && q == dir {
                            node_index
                        } else {
                            t0.reg(j, q)
                        } by {
                        assert(t2.reg(j, q) == if j == node_index && q == COLOR {
                            RED
                        } else {
                            t1.reg(j, q)
                        });
                    }
                    assert forall|j: u32|
                        (j as int) < MAX_SIZE implies #[trigger] t3.node_at(j) == if j == node_index {
                            RBNode { key, value }
                        } else {
                            t0.node_at(j)
                        } by {
                        assert(t2.node_at(j) == t1.node_at(j));
                    }
                }
                self.desc = Ghost(t0.grown_desc(x, node_index));
                proof {
                    assert(self.allocator == t3.allocator);
                    assert forall|j: u32, q: u32| #[trigger] self.reg(j, q) == t3.reg(j, q) by {
                    }
                    assert forall|j: u32| #[trigger] self.node_at(j) == t3.node_at(j) by {
                    }
                    assert(self.live() == t3.live());
                    assert(self.is_leaf_insertion(&t0, x, node_index, dir, key, value));
                    self.lemma_insert_leaf(&t0, x, node_index, dir, key, value);
                    self.lemma_wf_basics();
                }
                let ghost m = *self;
                let grandparent = self.get_parent(reference_node);
                if grandparent != SENTINEL {
                    self.fix_insert(node_index);
                }
                proof {
                    assert(m.reg(x, PARENT) == t0.reg(x, PARENT));
                    assert(m.is_leaf_insertion(&t0, x, node_index, dir, key, value)
                        && t0.is_leaf_place(x, dir, key) && if t0.parent(x) != SENTINEL {
                        self.is_insert_fix_of(&m, node_index)
                    } else {
                        *self == m
                    });
                    assert(self.is_insertion_of(&t0, node_index, key, value));
                    assert(t0.reg(x, dir) == SENTINEL);
                }
                return Some(node_index);
            }
            proof {
                self.lemma_sub(target);
                assert forall|j: u32|
                    self.live().contains(j) && #[trigger] self.subtree(self.left(j)).contains(target)
                        implies key_lt(key, self.key(j)) by {
                    let l = self.left(j);
                    self.lemma_sub(j);
                    if l == target {
                        assert(self.node_ok(target));
                    } else {
                        self.lemma_parent_in_sub(l, target);
                        assert(self.node_ok(target));
                    }
                }
                assert forall|j: u32|
                    self.live().contains(j) && #[trigger] self.subtree(self.right(j)).contains(target)
                        implies key_lt(self.key(j), key) by {
                    let r = self.right(j);
                    self.lemma_sub(j);
                    if r == target {
                        assert(self.node_ok(target));
                    } else {
                        self.lemma_parent_in_sub(r, target);
                        assert(self.node_ok(target));
                    }
                }
            }
            reference_node = target
        }
    }

    // ------------------------------------------------------------------
    // Removal
    // ------------------------------------------------------------------
    /// A node other than the root has fewer nodes in its subtree than the tree.
    proof fn lemma_sub_lt_live(&self, x: u32)
        requires
            self.wf(),
            self.live().contains(x),
            x != self.root,
        ensures
            self.subtree(x).len() < self.live().len(),
    {
        self.lemma_wf_basics();
        self.lemma_sub(x);
        self.lemma_sub_le_live(x);
        if self.subtree(x).len() == self.live().len() {
            vstd::set_lib::lemma_len_subset(self.subtree(x), self.live());
            assert(self.subtree(x) =~= self.live()) by {
                if !(self.subtree(x) =~= self.live()) {
                    let w = choose|w: u32| self.live().contains(w) && !self.subtree(x).contains(w);
                    vstd::set_lib::lemma_len_subset(self.subtree(x), self.live().remove(w));
                }
            }
            self.lemma_root_only(x);
        }
    }

    /// `self` is `old` with the color of `a` set to `ca` (the sentinel stays black).
    spec fn is_one_recoloring(&self, old: &Self, a: u32, ca: u32) -> bool {
        &&& self.same_but_registers(old)
        &&& self.root == old.root
        &&& forall|j: u32, q: u32| #[trigger]
            self.reg(j, q) == if q == COLOR && j != SENTINEL && j == a {
                ca
            } else {
                old.reg(j, q)
            }
    }

    /// What `color_black(a)` leaves.
    proof fn lemma_after_black(&self, old: &Self, a: u32)
        requires
            old.allocator.inv(),
            self.same_but_registers(old),
            self.root == old.root,
            forall|j: u32, q: u32| #[trigger]
                self.reg(j, q) == if j == a && q == COLOR {
                    BLACK
                } else {
                    old.reg(j, q)
                },
        ensures
            self.is_one_recoloring(old, a, BLACK),
    {
        old.allocator.lemma_live();
    }

    /// What `color_red(a)` leaves.
    proof fn lemma_after_red(&self, old: &Self, a: u32)
        requires
            old.allocator.inv(),
            self.same_but_registers(old),
            self.root == old.root,
            forall|j: u32, q: u32| #[trigger]
                self.reg(j, q) == if j == a && q == COLOR {
                    if a == SENTINEL {
                        0
                    } else {
                        RED
                    }
                } else {
                    old.reg(j, q)
                },
        ensures
            self.is_one_recoloring(old, a, RED),
    {
        old.allocator.lemma_live();
    }

    /// One recoloring, as a run of three with two left empty.
    proof fn lemma_recolor_first(&self, old: &Self, a: u32, ca: u32)
        requires
            self.is_one_recoloring(old, a, ca),
        ensures
            self.is_recoloring_of(old, a, ca, SENTINEL, BLACK, SENTINEL, BLACK),
    {
    }

    /// Two recolorings in a row.
    proof fn lemma_recolor2(&self, mid: &Self, old: &Self, a: u32, ca: u32, b: u32, cb: u32)
        requires
            mid.is_one_recoloring(old, a, ca),
            self.is_one_recoloring(mid, b, cb),
        ensures
            self.is_recoloring_of(old, a, ca, b, cb, SENTINEL, BLACK),
    {
    }

    /// A third recoloring after two.
    proof fn lemma_recolor3(
        &self,
        mid: &Self,
        old: &Self,
        a: u32,
        ca: u32,
        b: u32,
        cb: u32,
        c: u32,
        cc: u32,
    )
        requires
            mid.is_recoloring_of(old, a, ca, b, cb, SENTINEL, BLACK),
            self.is_one_recoloring(mid, c, cc),
        ensures
            self.is_recoloring_of(old, a, ca, b, cb, c, cc),
    {
    }

    /// The removal fix-up stops at `x`: it is the root, or it is not black.
    pub open spec fn remove_fix_done(&self, x: u32) -> bool {
        x == self.root_node() || self.reg(x, COLOR) != BLACK
    }

    /// One pass of the removal fix-up at the black non-root node `x`, whose parent
    /// is `p` and whose sibling is `s`, leads to the tree `t` and goes on from `y`;
    /// `m` holds the trees between its steps.
    /// - A red `s` turns black and `p` red, and the tree is rotated at `p` towards
    ///   `x`'s side; the sibling `w` is then taken as the right child of `x`'s parent.
    /// - When both children of `w` are black, `w` turns red and the pass goes on
    ///   from the parent of `x`.
    /// - Otherwise, when the right child of `w` is black, its left child turns black
    ///   and `w` red, the tree is rotated at `w` away from `x`'s side, and the
    ///   sibling is again taken as the right child of `x`'s parent. That sibling
    ///   takes the color of `x`'s parent, the parent turns black, and so does the
    ///   sibling's right child; the tree is rotated at the parent towards `x`'s
    ///   side, and the pass goes on from the root.
    pub open spec fn is_remove_fix_pass(
        &self,
        x: u32,
        m: (Self, Self, Self, Self, Self),
        t: Self,
        y: u32,
    ) -> bool {
        let (m1, m2, m3, m4, m5) = m;
        let p = self.parent(x);
        let dir: u32 = if self.left(p) == x {
            LEFT
        } else {
            RIGHT
        };
        let o: u32 = (1 - dir) as u32;
        let s = self.reg(p, o);
        let red_sibling = self.reg(s, COLOR) == RED;
        let w = if red_sibling {
            m2.right(m2.parent(x))
        } else {
            s
        };
        &&& if red_sibling {
            m1.is_recoloring_of(self, s, BLACK, p, RED, SENTINEL, BLACK) && m2.is_rotation_or_same(
                &m1,
                p,
                dir,
            )
        } else {
            m1 == *self && m2 == *self
        }
        &&& if m2.reg(m2.left(w), COLOR) == BLACK && m2.reg(m2.right(w), COLOR) == BLACK {
            t.is_recoloring_of(&m2, w, RED, SENTINEL, BLACK, SENTINEL, BLACK) && y == m2.parent(x)
        } else {
            let inner = m2.reg(m2.right(w), COLOR) == BLACK;
            let w2 = if inner {
                m4.right(m4.parent(x))
            } else {
                w
            };
            let q = m4.parent(x);
            &&& if inner {
                m3.is_recoloring_of(&m2, m2.left(w), BLACK, w, RED, SENTINEL, BLACK)
                    && m4.is_rotation_or_same(&m3, w, o)
            } else {
                m3 == m2 && m4 == m2
            }
            &&& m5.is_recoloring_of(
                &m4,
                w2,
                if m4.reg(q, COLOR) == RED {
                    RED
                } else {
                    BLACK
                },
                q,
                BLACK,
                m4.right(w2),
                BLACK,
            )
            &&& t.is_rotation_or_same(&m5, q, dir)
            &&& y == t.root_node()
        }
    }

    /// Pass `i` of a recorded removal fix-up.
    pub open spec fn remove_fix_step_ok(
        ts: Seq<Self>,
        xs: Seq<u32>,
        ms: Seq<(Self, Self, Self, Self, Self)>,
        i: int,
    ) -> bool {
        &&& !ts[i].remove_fix_done(xs[i])
        &&& ts[i].is_remove_fix_pass(xs[i], ms[i], ts[i + 1], xs[i + 1])
    }

    /// `ts` and `xs` record the trees and nodes of a removal fix-up from `old` at
    /// `node` that ends in `self`.
    pub open spec fn is_remove_fix_run(
        &self,
        old: &Self,
        node: u32,
        ts: Seq<Self>,
        xs: Seq<u32>,
        ms: Seq<(Self, Self, Self, Self, Self)>,
    ) -> bool {
        &&& ts.len() >= 1
        &&& xs.len() == ts.len()
        &&& ms.len() + 1 == ts.len()
        &&& ts[0] == *old
        &&& xs[0] == node
        &&& forall|i: int| 0 <= i < ts.len() - 1 ==> #[trigger] Self::remove_fix_step_ok(ts, xs, ms, i)
        &&& ts.last().remove_fix_done(xs.last())
        &&& *self == ts.last()
    }

    /// `self` is what the removal fix-up makes of `old` from `node`: a run of passes
    /// (`is_remove_fix_pass`) until the current node is the root or is not black.
    pub open spec fn is_remove_fix_of(&self, old: &Self, node: u32) -> bool {
        exists|ts: Seq<Self>, xs: Seq<u32>, ms: Seq<(Self, Self, Self, Self, Self)>|
            #[trigger] self.is_remove_fix_run(old, node, ts, xs, ms)
    }

    /// The recoloring and rotating that follows the removal of a black node, from
    /// `node_index`, the node that took its place; the passes are those that
    /// `is_remove_fix_pass` states. The tree's shape changes only by rotations, so
    /// its map does not change. The passes do not restore the red-black rules in
    /// general: the sibling is taken anew as the right child whatever the side, and
    /// the last node reached is not colored black.
    #[verifier::rlimit(100)]
    fn fix_remove(&mut self, node_index: u32) -> (r: Option<()>)
        requires
            old(self).wf(),
            node_index == SENTINEL || old(self).live().contains(node_index),
        ensures
            final(self).wf(),
            final(self)@ == old(self)@,
            final(self).live() == old(self).live(),
            final(self).next_index() == old(self).next_index(),
            forall|i: u32| (i as int) < MAX_SIZE ==> #[trigger] final(self).node_at(i) == old(self).node_at(i),
            r == Some(()),
            node_index == SENTINEL || node_index == old(self).root_node() || old(self).reg(
                node_index,
                COLOR,
            ) == RED ==> *final(self) == *old(self),
            node_index != SENTINEL ==> final(self).is_remove_fix_of(old(self), node_index),
    {
        let mut node_index = node_index;
        if node_index == SENTINEL {
            return Some(());
        }
        let ghost x0 = node_index;
        let ghost mut first = true;
        let ghost mut ts: Seq<Self> = seq![*self];
        let ghost mut xs: Seq<u32> = seq![node_index];
        let ghost mut ms: Seq<(Self, Self, Self, Self, Self)> = Seq::empty();
        proof {
            self.lemma_wf_basics();
        }
        while node_index != self.root && self.is_black(node_index)
            invariant
                first ==> *self == *old(self) && node_index == x0,
                x0 == old(self).root || old(self).reg(x0, COLOR) == RED ==> first,
                ts.len() >= 1,
                xs.len() == ts.len(),
                ms.len() + 1 == ts.len(),
                ts[0] == *old(self),
                xs[0] == x0,
                forall|i: int| 0 <= i < ts.len() - 1 ==> #[trigger] Self::remove_fix_step_ok(ts, xs, ms, i),
                ts.last() == *self,
                xs.last() == node_index,
                self.wf(),
                self.arena_ok(),
                self@ == old(self)@,
                self.live() == old(self).live(),
                self.next_index() == old(self).next_index(),
                forall|i: u32| (i as int) < MAX_SIZE ==> #[trigger] self.node_at(i) == old(self).node_at(i),
                self.live().contains(node_index),
                (node_index as int) < MAX_SIZE,
            decreases self.live().len() - self.subtree(node_index).len(),
        {
            let ghost t0 = *self;
            let ghost x = node_index;
            let ghost mut pm1 = t0;
            let ghost mut pm2 = t0;
            let ghost mut pm3 = t0;
            let ghost mut pm4 = t0;
            let ghost mut pm5 = t0;
            proof {
                self.lemma_wf_basics();
                self.allocator.lemma_live();
                self.lemma_sub(node_index);
                self.lemma_sub_lt_live(node_index);
                assert(self.node_ok(node_index));
            }
            let parent = self.get_parent(node_index);
            proof {
                assert(parent != SENTINEL);
                assert(self.live().contains(parent));
                self.lemma_sub(parent);
            }
            let dir = self.child_dir(parent, node_index);
            let mut sibling = self.get_child(parent, opposite(dir));
            proof {
                assert(sibling == SENTINEL || self.live().contains(sibling));
                assert(self.reg(parent, dir) == node_index);
            }
            if self.is_red(sibling) {
                self.color_black(sibling);
                let ghost ca = *self;
                self.color_red(parent);
                let ghost t1 = *self;
                proof {
                    ca.lemma_after_black(&t0, sibling);
                    t1.lemma_after_red(&ca, parent);
                    t1.lemma_recolor2(&ca, &t0, sibling, BLACK, parent, RED);
                    pm1 = t1;
                }
                proof {
                    self.lemma_wf_basics();
                    self.lemma_sub(sibling);
                    self.lemma_rotate_facts(
                        parent,
                        dir,
                        sibling,
                        node_index,
                        self.reg(sibling, (1 - dir) as u32),
                        self.reg(sibling, dir),
                        self.parent(parent),
                    );
                }
                self.rotate_dir(parent, dir);
                proof {
                    assert(self.is_rotation_or_same(&t1, parent, dir));
                    pm2 = *self;
                    self.lemma_wf_basics();
                    assert(self.parent(node_index) == parent);
                    assert(self.subtree(node_index) == t0.subtree(node_index));
                    assert(self.live().contains(parent));
                    assert(self.node_ok(parent));
                }
                sibling = self.get_right(self.get_parent(node_index));
            }
            proof {
                self.lemma_wf_basics();
                self.allocator.lemma_live();
                assert(self.parent(node_index) == parent);
                assert(self.subtree(node_index) == t0.subtree(node_index));
                assert(self.node_ok(parent));
                assert(sibling == SENTINEL || self.live().contains(sibling));
                if sibling != SENTINEL {
                    assert(self.node_ok(sibling));
                }
            }
            let ghost m2 = *self;
            proof {
                if t0.reg(t0.reg(t0.parent(x), (1 - dir) as u32), COLOR) == RED {
                    assert(m2 == pm2);
                    assert(sibling == m2.right(m2.parent(x)));
                } else {
                    assert(m2 == t0);
                    pm1 = t0;
                    pm2 = t0;
                }
            }
            if self.is_black(self.get_left(sibling)) && self.is_black(self.get_right(sibling)) {
                self.color_red(sibling);
                proof {
                    self.lemma_after_red(&m2, sibling);
                    self.lemma_recolor_first(&m2, sibling, RED);
                }
                node_index = self.get_parent(node_index);
                proof {
                    self.lemma_wf_basics();
                    self.lemma_sub(node_index);
                    self.lemma_sub_le_live(node_index);
                    assert(self.live().contains(node_index));
                    assert(self.subtree(x) == t0.subtree(x));
                }
            } else {
                proof {
                    assert(sibling != SENTINEL);
                }
                let ghost w = sibling;
                if self.is_black(self.get_right(sibling)) {
                    self.color_black(self.get_left(sibling));
                    let ghost cb = *self;
                    self.color_red(sibling);
                    proof {
                        self.lemma_wf_basics();
                        cb.lemma_after_black(&m2, m2.left(sibling));
                        self.lemma_after_red(&cb, sibling);
                        self.lemma_recolor2(&cb, &m2, m2.left(sibling), BLACK, sibling, RED);
                        pm3 = *self;
                    }
                    self.rotate_dir(sibling, opposite(dir));
                    proof {
                        assert(self.is_rotation_or_same(&pm3, sibling, (1 - dir) as u32));
                        pm4 = *self;
                    }
                    proof {
                        self.lemma_wf_basics();
                        assert(self.node_ok(node_index));
                        if self.parent(node_index) != SENTINEL {
                            assert(self.node_ok(self.parent(node_index)));
                        }
                    }
                    sibling = self.get_right(self.get_parent(node_index));
                    proof {
                        assert(sibling == SENTINEL || self.live().contains(sibling));
                        if sibling != SENTINEL {
                            assert(self.node_ok(sibling));
                        }
                    }
                }
                let ghost m4 = *self;
                proof {
                    if m2.reg(m2.right(w), COLOR) == BLACK {
                        assert(m4 == pm4);
                    } else {
                        pm3 = m2;
                        pm4 = m2;
                        assert(m4 == m2);
                    }
                }
                let parent = self.get_parent(node_index);
                proof {
                    self.lemma_wf_basics();
                    assert(self.node_ok(node_index));
                    assert(parent == SENTINEL || self.live().contains(parent));
                }
                let ghost sib_color = if m4.reg(parent, COLOR) == RED {
                    RED
                } else {
                    BLACK
                };
                if self.is_red(parent) {
                    self.color_red(sibling);
                    proof {
                        self.lemma_after_red(&m4, sibling);
                    }
                } else {
                    self.color_black(sibling);
                    proof {
                        self.lemma_after_black(&m4, sibling);
                    }
                }
                let ghost cd = *self;
                self.color_black(parent);
                proof {
                    self.lemma_after_black(&cd, parent);
                    self.lemma_recolor2(&cd, &m4, sibling, sib_color, parent, BLACK);
                }
                let ghost ce = *self;
                proof {
                    self.lemma_wf_basics();
                    assert(self.node_ok(sibling) || sibling == SENTINEL);
                    assert(self.right(sibling) == SENTINEL || self.live().contains(self.right(sibling)));
                }
                self.color_black(self.get_right(sibling));
                proof {
                    self.lemma_wf_basics();
                    self.lemma_after_black(&ce, ce.right(sibling));
                    self.lemma_recolor3(&ce, &m4, sibling, sib_color, parent, BLACK, ce.right(sibling), BLACK);
                    assert(ce.right(sibling) == m4.right(sibling));
                    pm5 = *self;
                }
                self.rotate_dir(parent, dir);
                proof {
                    assert(self.is_rotation_or_same(&pm5, parent, dir));
                }
                proof {
                    self.lemma_wf_basics();
                }
                node_index = self.root;
                proof {
                    self.lemma_sub(node_index);
                    self.lemma_sub_le_live(node_index);
                }
            }
            proof {
                first = false;
                assert(t0.is_remove_fix_pass(x, (pm1, pm2, pm3, pm4, pm5), *self, node_index));
                let k = ts.len() - 1;
                assert(!t0.remove_fix_done(x));
                let tp = ts;
                let xp = xs;
                let mp = ms;
                ts = ts.push(*self);
                xs = xs.push(node_index);
                ms = ms.push((pm1, pm2, pm3, pm4, pm5));
                assert(ts[k] == t0 && xs[k] == x && ts[k + 1] == *self && xs[k + 1] == node_index);
                assert(ms[k] == (pm1, pm2, pm3, pm4, pm5));
                assert(Self::remove_fix_step_ok(ts, xs, ms, k));
                assert forall|i: int| 0 <= i < ts.len() - 1 implies #[trigger] Self::remove_fix_step_ok(ts, xs, ms, i) by {
                    if i < k {
                        assert(Self::remove_fix_step_ok(tp, xp, mp, i));
                        assert(tp[i] == ts[i] && tp[i + 1] == ts[i + 1]);
                        assert(xp[i] == xs[i] && xp[i + 1] == xs[i + 1]);
                        assert(mp[i] == ms[i]);
                    }
                }
            }
        }
        proof {
            assert(self.is_remove_fix_run(old(self), x0, ts, xs, ms));
        }
        Some(())
    }

    /// Register `q` of slot `j` after node `z`, which has at most the one child `c`,
    /// is replaced by `c`.
    pub open spec fn spliced_reg(&self, z: u32, c: u32, j: u32, q: u32) -> u32 {
        let pz = self.parent(z);
        if j == z {
            0
        } else if j == c && c != SENTINEL && q == PARENT {
            pz
        } else if j == pz && pz != SENTINEL && q == (if self.left(pz) == z {
            LEFT
        } else {
            RIGHT
        }) {
            c
        } else {
            self.reg(j, q)
        }
    }

    /// `self` is `old` without node `z`; the child `c` of `z` (or the sentinel)
    /// takes its place.
    spec fn is_splice_of(&self, old: &Self, z: u32, c: u32) -> bool {
        &&& self.allocator.inv()
        &&& self.allocator.clean()
        &&& self.live() == old.live().remove(z)
        &&& self.root == if old.parent(z) == SENTINEL {
            c
        } else {
            old.root
        }
        &&& forall|j: u32, q: u32| #[trigger] self.reg(j, q) == old.spliced_reg(z, c, j, q)
        &&& forall|j: u32| (j as int) < MAX_SIZE ==> #[trigger] self.node_at(j) == old.node_at(j)
        &&& self.desc@ == Map::new(
            |j: u32| old.live().remove(z).contains(j),
            |j: u32| old.desc@[j].remove(z),
        )
    }

    /// What the splice leaves of the old tree's structure.
    proof fn lemma_splice_common(&self, old: &Self, z: u32, c: u32)
        requires
            old.wf(),
            old.live().contains(z),
            (old.left(z) == SENTINEL && c == old.right(z)) || (old.right(z) == SENTINEL && c
                == old.left(z)),
            self.is_splice_of(old, z, c),
        ensures
            forall|k: u32| #[trigger] old.live().contains(k) ==> self.key(k) == old.key(k),
            forall|k: u32| #[trigger]
                self.live().contains(k) ==> self.subtree(k) == old.subtree(k).remove(z),
            self.subtree(SENTINEL) == Set::<u32>::empty(),
            old.node_ok(z),
            old.subtree(z) == old.subtree(c).insert(z),
            !old.subtree(c).contains(z),
            c != SENTINEL ==> old.live().contains(c) && old.node_ok(c) && old.parent(c) == z,
            old.parent(z) != SENTINEL ==> old.live().contains(old.parent(z)) && old.node_ok(
                old.parent(z),
            ) && !old.subtree(z).contains(old.parent(z)),
            old.parent(z) == SENTINEL ==> z == old.root,
    {
        reveal(RedBlackTree::wf);
        old.lemma_wf_basics();
        old.lemma_sub(z);
        assert(old.node_ok(z));
        if c != SENTINEL {
            old.lemma_sub(c);
        }
        if old.parent(z) != SENTINEL {
            old.lemma_parent_outside(z);
            old.lemma_sub(old.parent(z));
        }
        assert(old.subtree(z) =~= old.subtree(c).insert(z));
    }

    /// After a splice, the child that moved up is well formed.
    proof fn lemma_splice_c(&self, old: &Self, z: u32, c: u32, j: u32)
        requires
            old.wf(),
            old.live().contains(z),
            (old.left(z) == SENTINEL && c == old.right(z)) || (old.right(z) == SENTINEL && c
                == old.left(z)),
            self.is_splice_of(old, z, c),
            self.live().contains(j),
            j == c,
        ensures
            self.node_ok(j),
    {
        reveal(RedBlackTree::wf);
        old.lemma_wf_basics();
        self.lemma_splice_common(old, z, c);
        assert(old.node_ok(j));
        let pz = old.parent(z);
        let l = old.left(c);
        let r = old.right(c);
        assert(self.left(c) == l);
        assert(self.right(c) == r);
        assert(self.parent(c) == pz);
        if l != SENTINEL {
            old.lemma_sub(c);
            assert(old.node_ok(l));
            assert(l != z && l != pz);
            assert(self.parent(l) == c);
        }
        if r != SENTINEL {
            old.lemma_sub(c);
            assert(old.node_ok(r));
            assert(r != z && r != pz);
            assert(self.parent(r) == c);
        }
        if pz != SENTINEL {
            if old.left(pz) == z {
                assert(self.left(pz) == c);
            } else {
                assert(self.right(pz) == c);
            }
        }
        old.lemma_sub(c);
        assert(!old.subtree(l).contains(z));
        assert(!old.subtree(r).contains(z));
        assert(self.subtree(c) =~= old.subtree(c));
        assert(self.subtree(l) =~= old.subtree(l));
        assert(self.subtree(r) =~= old.subtree(r));
        let nl = self.left(j);
        let nr = self.right(j);
        let np = self.parent(j);
        assert(nl == SENTINEL || self.live().contains(nl));
        assert(nr == SENTINEL || self.live().contains(nr));
        assert(self.subtree(j) == self.subtree(nl).union(self.subtree(nr)).insert(j));
        assert(self.subtree(j).subset_of(self.live()));
        assert(!self.subtree(nl).contains(j));
        assert(!self.subtree(nr).contains(j));
        assert(self.subtree(nl).disjoint(self.subtree(nr)));
        assert(nl != SENTINEL ==> self.parent(nl) == j);
        assert(nr != SENTINEL ==> self.parent(nr) == j);
        assert(np == SENTINEL ==> j == self.root);
        assert(np != SENTINEL ==> self.live().contains(np) && (self.left(np) == j || self.right(np)
            == j));
        assert forall|k: u32| #[trigger] self.subtree(nl).contains(k) implies key_lt(
            self.key(k),
            self.key(j),
        ) by {
            old.lemma_sub_trans(j, k);
        }
        assert forall|k: u32| #[trigger] self.subtree(nr).contains(k) implies key_lt(
            self.key(j),
            self.key(k),
        ) by {
            old.lemma_sub_trans(j, k);
        }
    }

    /// After a splice, the former parent of the removed node is well formed.
    proof fn lemma_splice_pz(&self, old: &Self, z: u32, c: u32, j: u32)
        requires
            old.wf(),
            old.live().contains(z),
            (old.left(z) == SENTINEL && c == old.right(z)) || (old.right(z) == SENTINEL && c
                == old.left(z)),
            self.is_splice_of(old, z, c),
            self.live().contains(j),
            j == old.parent(z),
        ensures
            self.node_ok(j),
    {
        reveal(RedBlackTree::wf);
        old.lemma_wf_basics();
        self.lemma_splice_common(old, z, c);
        assert(old.node_ok(j));
        let pz = old.parent(z);
        assert(pz != SENTINEL);
        old.lemma_sub(pz);
        let l = old.left(pz);
        let r = old.right(pz);
        let q = old.parent(pz);
        assert(self.parent(pz) == q);
        if old.left(pz) == z {
            assert(self.left(pz) == c);
            assert(self.right(pz) == r);
            if r != SENTINEL {
                assert(old.node_ok(r));
                assert(self.parent(r) == pz);
                assert(self.subtree(r) =~= old.subtree(r));
            }
        } else {
            assert(r == z);
            assert(self.right(pz) == c);
            assert(self.left(pz) == l);
            if l != SENTINEL {
                assert(old.node_ok(l));
                assert(self.parent(l) == pz);
                assert(self.subtree(l) =~= old.subtree(l));
            }
        }
        if c != SENTINEL {
            assert(self.subtree(c) =~= old.subtree(c));
            assert(self.parent(c) == pz);
        }
        if q != SENTINEL {
            assert(old.node_ok(q));
            assert(self.left(q) == old.left(q));
            assert(self.right(q) == old.right(q));
        }
        assert(self.subtree(pz) =~= old.subtree(pz).remove(z));
        let nl = self.left(j);
        let nr = self.right(j);
        let np = self.parent(j);
        assert(nl == SENTINEL || self.live().contains(nl));
        assert(nr == SENTINEL || self.live().contains(nr));
        assert(self.subtree(j) == self.subtree(nl).union(self.subtree(nr)).insert(j));
        assert(self.subtree(j).subset_of(self.live()));
        assert(!self.subtree(nl).contains(j));
        assert(!self.subtree(nr).contains(j));
        assert(self.subtree(nl).disjoint(self.subtree(nr)));
        assert(nl != SENTINEL ==> self.parent(nl) == j);
        assert(nr != SENTINEL ==> self.parent(nr) == j);
        assert(np == SENTINEL ==> j == self.root);
        assert(np != SENTINEL ==> self.live().contains(np) && (self.left(np) == j || self.right(np)
            == j));
        old.lemma_sub(z);
        assert forall|k: u32| #[trigger] self.subtree(nl).contains(k) implies key_lt(
            self.key(k),
            self.key(j),
        ) by {
            old.lemma_sub_trans(j, k);
            if old.left(pz) == z {
                assert(old.subtree(z).contains(k));
            } else {
                assert(old.subtree(l).contains(k));
            }
            assert(self.key(k) == old.key(k));
        }
        assert forall|k: u32| #[trigger] self.subtree(nr).contains(k) implies key_lt(
            self.key(j),
            self.key(k),
        ) by {
            old.lemma_sub_trans(j, k);
            if old.left(pz) == z {
                assert(old.subtree(r).contains(k));
            } else {
                assert(old.subtree(z).contains(k));
            }
            assert(self.key(k) == old.key(k));
        }
    }

    /// After a splice, every node that it does not touch is well formed.
    proof fn lemma_splice_other(&self, old: &Self, z: u32, c: u32, j: u32)
        requires
            old.wf(),
            old.live().contains(z),
            (old.left(z) == SENTINEL && c == old.right(z)) || (old.right(z) == SENTINEL && c
                == old.left(z)),
            self.is_splice_of(old, z, c),
            self.live().contains(j),
            j != c,
            j != old.parent(z),
        ensures
            self.node_ok(j),
    {
        reveal(RedBlackTree::wf);
        old.lemma_wf_basics();
        self.lemma_splice_common(old, z, c);
        assert(old.node_ok(j));
        let pz = old.parent(z);
        old.lemma_sub(j);
        let l = old.left(j);
        let r = old.right(j);
        let q = old.parent(j);
        assert(self.left(j) == l);
        assert(self.right(j) == r);
        assert(self.parent(j) == q);
        assert(l != z && r != z);
        if l != SENTINEL {
            assert(old.node_ok(l));
            assert(self.parent(l) == j);
            assert(self.subtree(l) =~= old.subtree(l).remove(z));
        }
        if r != SENTINEL {
            assert(old.node_ok(r));
            assert(self.parent(r) == j);
            assert(self.subtree(r) =~= old.subtree(r).remove(z));
        }
        if q != SENTINEL {
            assert(old.node_ok(q));
            assert(q != z);
            if q == pz {
                if old.left(pz) == z {
                    assert(old.right(pz) == j);
                    assert(self.right(pz) == j);
                } else {
                    assert(old.left(pz) == j);
                    assert(self.left(pz) == j);
                }
            } else {
                assert(self.left(q) == old.left(q));
                assert(self.right(q) == old.right(q));
            }
        }
        assert(self.subtree(j) =~= self.subtree(l).union(self.subtree(r)).insert(j));
        let nl = self.left(j);
        let nr = self.right(j);
        let np = self.parent(j);
        assert(nl == SENTINEL || self.live().contains(nl));
        assert(nr == SENTINEL || self.live().contains(nr));
        assert(self.subtree(j) == self.subtree(nl).union(self.subtree(nr)).insert(j));
        assert(self.subtree(j).subset_of(self.live()));
        assert(!self.subtree(nl).contains(j));
        assert(!self.subtree(nr).contains(j));
        assert(self.subtree(nl).disjoint(self.subtree(nr)));
        assert(nl != SENTINEL ==> self.parent(nl) == j);
        assert(nr != SENTINEL ==> self.parent(nr) == j);
        assert(np == SENTINEL ==> j == self.root);
        assert(np != SENTINEL ==> self.live().contains(np) && (self.left(np) == j || self.right(np)
            == j));
        assert forall|k: u32| #[trigger] self.subtree(nl).contains(k) implies key_lt(
            self.key(k),
            self.key(j),
        ) by {
            old.lemma_sub_trans(j, k);
        }
        assert forall|k: u32| #[trigger] self.subtree(nr).contains(k) implies key_lt(
            self.key(j),
            self.key(k),
        ) by {
            old.lemma_sub_trans(j, k);
        }
    }

    /// Removing a node with at most one child keeps the tree well formed.
    proof fn lemma_splice(&self, old: &Self, z: u32, c: u32)
        requires
            old.wf(),
            old.live().contains(z),
            (old.left(z) == SENTINEL && c == old.right(z)) || (old.right(z) == SENTINEL && c
                == old.left(z)),
            self.is_splice_of(old, z, c),
        ensures
            self.wf(),
            self@ == old@.remove(old.key(z)),
    {
        reveal(RedBlackTree::wf);
        old.lemma_wf_basics();
        old.lemma_map();
        self.lemma_splice_common(old, z, c);
        let pz = old.parent(z);
        assert forall|j: u32| self.live().contains(j) implies #[trigger] self.node_ok(j) by {
            if j == c {
                self.lemma_splice_c(old, z, c, j);
            } else if j == pz {
                self.lemma_splice_pz(old, z, c, j);
            } else {
                self.lemma_splice_other(old, z, c, j);
            }
        }
        assert(self.desc@.dom() =~= self.live());
        if pz == SENTINEL {
            if c == SENTINEL {
                assert(self.live() =~= Set::<u32>::empty());
            } else {
                assert(self.subtree(c) =~= self.live());
            }
        } else {
            assert(old.root != z);
            assert(self.subtree(self.root) =~= self.live());
        }
        assert forall|a: u32, b: u32|
            self.live().contains(a) && self.live().contains(b) && #[trigger] self.key(a)
                == #[trigger] self.key(b) implies a == b by {
            assert(old.key(a) == old.key(b));
        }
        self.lemma_view_remove(old, z);
    }

    /// `m` is the node of least key in the right subtree of `z`, which has two children.
    pub open spec fn is_successor(&self, z: u32, m: u32) -> bool {
        &&& self.live().contains(z)
        &&& self.left(z) != SENTINEL
        &&& self.right(z) != SENTINEL
        &&& self.subtree(self.right(z)).contains(m)
        &&& self.left(m) == SENTINEL
        &&& forall|k: u32| #[trigger]
            self.subtree(self.right(z)).contains(k) ==> key_le(self.key(m), self.key(k))
    }

    /// Register `q` of slot `j` after node `z`, which has two children, is replaced by
    /// `m`, the node of least key in its right subtree.
    pub open spec fn replaced_reg(&self, z: u32, m: u32, j: u32, q: u32) -> u32 {
        let l = self.left(z);
        let r = self.right(z);
        let pz = self.parent(z);
        let mc = self.right(m);
        let pm = self.parent(m);
        if j == z {
            0
        } else if j == m && q == LEFT {
            l
        } else if j == m && q == RIGHT {
            if m == r {
                mc
            } else {
                r
            }
        } else if j == m && q == PARENT {
            pz
        } else if j == m && q == COLOR {
            if self.reg(z, COLOR) == RED {
                RED
            } else {
                BLACK
            }
        } else if j == l && q == PARENT {
            m
        } else if j == r && m != r && q == PARENT {
            m
        } else if j == mc && mc != SENTINEL && m != r && q == PARENT {
            pm
        } else if j == pm && m != r && q == LEFT {
            mc
        } else if j == pz && pz != SENTINEL && q == (if self.left(pz) == z {
            LEFT
        } else {
            RIGHT
        }) {
            m
        } else {
            self.reg(j, q)
        }
    }

    /// The subtrees after node `z` is replaced by `m`.
    spec fn replaced_desc(&self, z: u32, m: u32) -> Map<u32, Set<u32>> {
        Map::new(
            |j: u32| self.live().remove(z).contains(j),
            |j: u32|
                if j == m {
                    self.desc@[z].remove(z)
                } else if self.desc@[j].contains(z) {
                    self.desc@[j].remove(z)
                } else {
                    self.desc@[j].remove(m)
                },
        )
    }

    /// `self` is `old` with node `z` replaced by `m`, the node of least key in its
    /// right subtree.
    spec fn is_replacement_of(&self, old: &Self, z: u32, m: u32) -> bool {
        &&& self.allocator.inv()
        &&& self.allocator.clean()
        &&& self.live() == old.live().remove(z)
        &&& self.root == if old.parent(z) == SENTINEL {
            m
        } else {
            old.root
        }
        &&& forall|j: u32, q: u32| #[trigger] self.reg(j, q) == old.replaced_reg(z, m, j, q)
        &&& forall|j: u32| (j as int) < MAX_SIZE ==> #[trigger] self.node_at(j) == old.node_at(j)
        &&& self.desc@ == old.replaced_desc(z, m)
    }

    /// What a well-formed tree says of a node `z` with two children and its successor `m`.
    proof fn lemma_successor_facts(&self, z: u32, m: u32)
        requires
            self.wf(),
            self.is_successor(z, m),
        ensures
            self.node_ok(z),
            self.live().contains(self.left(z)),
            self.live().contains(self.right(z)),
            self.node_ok(self.left(z)),
            self.node_ok(self.right(z)),
            self.parent(self.left(z)) == z,
            self.parent(self.right(z)) == z,
            self.subtree(z) == self.subtree(self.left(z)).union(self.subtree(self.right(z))).insert(z),
            self.subtree(self.left(z)).disjoint(self.subtree(self.right(z))),
            !self.subtree(self.left(z)).contains(z),
            !self.subtree(self.right(z)).contains(z),
            self.subtree(self.left(z)).contains(self.left(z)),
            self.subtree(self.right(z)).contains(self.right(z)),
            self.live().contains(m),
            self.node_ok(m),
            m != z,
            m != self.left(z),
            self.subtree(m) == self.subtree(self.right(m)).insert(m),
            !self.subtree(self.right(m)).contains(m),
            self.subtree(m).subset_of(self.subtree(self.right(z))),
            self.right(m) != SENTINEL ==> self.live().contains(self.right(m)) && self.node_ok(self.right(m))
                && self.parent(self.right(m)) == m,
            self.parent(m) != SENTINEL,
            self.live().contains(self.parent(m)),
            self.node_ok(self.parent(m)),
            m == self.right(z) ==> self.parent(m) == z,
            m != self.right(z) ==> self.subtree(self.right(z)).contains(self.parent(m)) && self.left(
                self.parent(m),
            ) == m && self.parent(m) != z,
            self.parent(z) != SENTINEL ==> self.live().contains(self.parent(z)) && self.node_ok(
                self.parent(z),
            ) && !self.subtree(z).contains(self.parent(z)),
            self.parent(z) == SENTINEL ==> z == self.root,
            forall|k: u32| #[trigger]
                self.subtree(self.left(z)).contains(k) ==> key_lt(self.key(k), self.key(m)),
            forall|k: u32| #[trigger]
                self.subtree(self.right(z)).contains(k) && k != m ==> key_lt(self.key(m), self.key(k)),
            key_lt(self.key(z), self.key(m)),
    {
        reveal(RedBlackTree::wf);
        self.lemma_wf_basics();
        self.lemma_map();
        lemma_key_order::<K>();
        let l = self.left(z);
        let r = self.right(z);
        let pz = self.parent(z);
        self.lemma_sub(z);
        assert(self.node_ok(z));
        self.lemma_sub(l);
        self.lemma_sub(r);
        self.lemma_sub_trans(r, m);
        self.lemma_sub(m);
        let mc = self.right(m);
        if mc != SENTINEL {
            self.lemma_sub(mc);
        }
        assert(self.subtree(m) =~= self.subtree(mc).insert(m));
        let pm = self.parent(m);
        if m == r {
            assert(pm == z);
        } else {
            self.lemma_parent_in_sub(r, m);
            assert(self.subtree(r).contains(pm));
            self.lemma_sub_trans(r, pm);
            self.lemma_sub(pm);
            assert(self.node_ok(pm));
            if self.right(pm) == m {
                assert(key_lt(self.key(pm), self.key(m)));
                assert(key_le(self.key(m), self.key(pm)));
                assert(false);
            }
        }
        if pz != SENTINEL {
            self.lemma_parent_outside(z);
            self.lemma_sub(pz);
        }
        assert forall|k: u32| #[trigger]
            self.subtree(l).contains(k) implies key_lt(self.key(k), self.key(m)) by {
            assert(key_lt(self.key(k), self.key(z)));
            assert(key_lt(self.key(z), self.key(m)));
        }
        assert forall|k: u32| #[trigger]
            self.subtree(r).contains(k) && k != m implies key_lt(self.key(m), self.key(k)) by {
            assert(key_le(self.key(m), self.key(k)));
            self.lemma_sub_trans(r, k);
        }
    }

    /// What the replacement leaves of the old tree's structure.
    proof fn lemma_replace_common(&self, old: &Self, z: u32, m: u32)
        requires
            old.wf(),
            old.is_successor(z, m),
            self.is_replacement_of(old, z, m),
        ensures
            forall|k: u32| #[trigger] old.live().contains(k) ==> self.key(k) == old.key(k),
            forall|k: u32| #[trigger]
                self.live().contains(k) ==> self.subtree(k) == if k == m {
                    old.subtree(z).remove(z)
                } else if old.subtree(k).contains(z) {
                    old.subtree(k).remove(z)
                } else {
                    old.subtree(k).remove(m)
                },
            self.subtree(SENTINEL) == Set::<u32>::empty(),
            old.node_ok(z),
            old.live().contains(old.left(z)),
            old.live().contains(old.right(z)),
            old.node_ok(old.left(z)),
            old.node_ok(old.right(z)),
            old.parent(old.left(z)) == z,
            old.parent(old.right(z)) == z,
            old.subtree(z) == old.subtree(old.left(z)).union(old.subtree(old.right(z))).insert(z),
            old.subtree(old.left(z)).disjoint(old.subtree(old.right(z))),
            !old.subtree(old.left(z)).contains(z),
            !old.subtree(old.right(z)).contains(z),
            old.subtree(old.left(z)).contains(old.left(z)),
            old.subtree(old.right(z)).contains(old.right(z)),
            old.live().contains(m),
            old.node_ok(m),
            m != z,
            m != old.left(z),
            old.subtree(m) == old.subtree(old.right(m)).insert(m),
            !old.subtree(old.right(m)).contains(m),
            old.subtree(m).subset_of(old.subtree(old.right(z))),
            old.right(m) != SENTINEL ==> old.live().contains(old.right(m)) && old.node_ok(old.right(m))
                && old.parent(old.right(m)) == m,
            old.parent(m) != SENTINEL,
            old.live().contains(old.parent(m)),
            old.node_ok(old.parent(m)),
            m == old.right(z) ==> old.parent(m) == z,
            m != old.right(z) ==> old.subtree(old.right(z)).contains(old.parent(m)) && old.left(
                old.parent(m),
            ) == m && old.parent(m) != z,
            old.parent(z) != SENTINEL ==> old.live().contains(old.parent(z)) && old.node_ok(
                old.parent(z),
            ) && !old.subtree(z).contains(old.parent(z)),
            old.parent(z) == SENTINEL ==> z == old.root,
            forall|k: u32| #[trigger]
                old.subtree(old.left(z)).contains(k) ==> key_lt(old.key(k), old.key(m)),
            forall|k: u32| #[trigger]
                old.subtree(old.right(z)).contains(k) && k != m ==> key_lt(old.key(m), old.key(k)),
            key_lt(old.key(z), old.key(m)),
    {
        old.lemma_wf_basics();
        old.lemma_successor_facts(z, m);
        assert forall|k: u32| #[trigger] old.live().contains(k) implies self.key(k) == old.key(k) by {
        }
    }

    /// After a replacement, the node that moved up is well formed.
    proof fn lemma_replace_m(&self, old: &Self, z: u32, m: u32, j: u32)
        requires
            old.wf(),
            old.is_successor(z, m),
            self.is_replacement_of(old, z, m),
            self.live().contains(j),
            j == m,
        ensures
            self.node_ok(j),
    {
        reveal(RedBlackTree::wf);
        old.lemma_wf_basics();
        self.lemma_replace_common(old, z, m);
        let l = old.left(z);
        let r = old.right(z);
        let pz = old.parent(z);
        let mc = old.right(m);
        let pm = old.parent(m);
        lemma_key_order::<K>();
        assert(self.left(m) == l);
        assert(self.parent(m) == pz);
        assert(self.parent(l) == m);
        assert(!old.subtree(l).contains(m));
        assert(self.subtree(l) =~= old.subtree(l));
        if m == r {
            assert(self.right(m) == mc);
            if mc != SENTINEL {
                assert(self.parent(mc) == m);
            }
            assert(!old.subtree(mc).contains(z));
            assert(self.subtree(mc) =~= old.subtree(mc));
            assert(self.subtree(m) =~= old.subtree(l).union(old.subtree(mc)).insert(m));
        } else {
            assert(self.right(m) == r);
            assert(self.parent(r) == m);
            assert(self.subtree(r) =~= old.subtree(r).remove(m));
            assert(self.subtree(m) =~= old.subtree(l).union(old.subtree(r).remove(m)).insert(m));
        }
        if pz != SENTINEL {
            if old.left(pz) == z {
                assert(self.left(pz) == m);
            } else {
                assert(self.right(pz) == m);
            }
        }
        let nl = self.left(j);
        let nr = self.right(j);
        let np = self.parent(j);
        assert(nl == SENTINEL || self.live().contains(nl));
        assert(nr == SENTINEL || self.live().contains(nr));
        assert(self.subtree(j) == self.subtree(nl).union(self.subtree(nr)).insert(j));
        assert(self.subtree(j).subset_of(self.live()));
        assert(!self.subtree(nl).contains(j));
        assert(!self.subtree(nr).contains(j));
        assert(self.subtree(nl).disjoint(self.subtree(nr)));
        assert(nl != SENTINEL ==> self.parent(nl) == j);
        assert(nr != SENTINEL ==> self.parent(nr) == j);
        assert(np == SENTINEL ==> j == self.root);
        assert(np != SENTINEL ==> self.live().contains(np) && (self.left(np) == j || self.right(np)
            == j));
        assert forall|k: u32| #[trigger] self.subtree(nl).contains(k) implies key_lt(
            self.key(k),
            self.key(j),
        ) by {
            assert(old.subtree(l).contains(k));
            old.lemma_sub_trans(l, k);
        }
        assert forall|k: u32| #[trigger] self.subtree(nr).contains(k) implies key_lt(
            self.key(j),
            self.key(k),
        ) by {
            assert(old.subtree(r).contains(k));
            old.lemma_sub_trans(r, k);
        }
    }

    /// After a replacement, the left child of the removed node is well formed.
    proof fn lemma_replace_l(&self, old: &Self, z: u32, m: u32, j: u32)
        requires
            old.wf(),
            old.is_successor(z, m),
            self.is_replacement_of(old, z, m),
            self.live().contains(j),
            j == old.left(z),
        ensures
            self.node_ok(j),
    {
        reveal(RedBlackTree::wf);
        old.lemma_wf_basics();
        self.lemma_replace_common(old, z, m);
        let l = old.left(z);
        let r = old.right(z);
        let pz = old.parent(z);
        let mc = old.right(m);
        let pm = old.parent(m);
        let a = old.left(l);
        let b = old.right(l);
        assert(self.left(l) == a);
        assert(self.right(l) == b);
        assert(self.parent(l) == m);
        assert(self.left(m) == l);
        if a != SENTINEL {
            assert(old.node_ok(a));
            assert(self.parent(a) == l);
        }
        if b != SENTINEL {
            assert(old.node_ok(b));
            assert(self.parent(b) == l);
        }
        assert(!old.subtree(a).contains(z) && !old.subtree(a).contains(m));
        assert(!old.subtree(b).contains(z) && !old.subtree(b).contains(m));
        assert(self.subtree(a) =~= old.subtree(a));
        assert(self.subtree(b) =~= old.subtree(b));
        assert(self.subtree(l) =~= old.subtree(l));
        let nl = self.left(j);
        let nr = self.right(j);
        let np = self.parent(j);
        assert(nl == SENTINEL || self.live().contains(nl));
        assert(nr == SENTINEL || self.live().contains(nr));
        assert(self.subtree(j) == self.subtree(nl).union(self.subtree(nr)).insert(j));
        assert(self.subtree(j).subset_of(self.live()));
        assert(!self.subtree(nl).contains(j));
        assert(!self.subtree(nr).contains(j));
        assert(self.subtree(nl).disjoint(self.subtree(nr)));
        assert(nl != SENTINEL ==> self.parent(nl) == j);
        assert(nr != SENTINEL ==> self.parent(nr) == j);
        assert(np == SENTINEL ==> j == self.root);
        assert(np != SENTINEL ==> self.live().contains(np) && (self.left(np) == j || self.right(np)
            == j));
        assert forall|k: u32| #[trigger] self.subtree(nl).contains(k) implies key_lt(
            self.key(k),
            self.key(j),
        ) by {
            old.lemma_sub_trans(j, k);
        }
        assert forall|k: u32| #[trigger] self.subtree(nr).contains(k) implies key_lt(
            self.key(j),
            self.key(k),
        ) by {
            old.lemma_sub_trans(j, k);
        }
    }

    /// After a replacement, the right child of the removed node (when it is not the
    /// node that moved up) is well formed.
    proof fn lemma_replace_r(&self, old: &Self, z: u32, m: u32, j: u32)
        requires
            old.wf(),
            old.is_successor(z, m),
            self.is_replacement_of(old, z, m),
            self.live().contains(j),
            j == old.right(z),
            j != m,
        ensures
            self.node_ok(j),
    {
        reveal(RedBlackTree::wf);
        old.lemma_wf_basics();
        self.lemma_replace_common(old, z, m);
        let l = old.left(z);
        let r = old.right(z);
        let pz = old.parent(z);
        let mc = old.right(m);
        let pm = old.parent(m);
        let a = old.left(r);
        let b = old.right(r);
        assert(self.parent(r) == m);
        assert(self.right(m) == r);
        assert(self.right(r) == b);
        if b != SENTINEL {
            assert(old.node_ok(b));
            assert(self.parent(b) == r);
            assert(!old.subtree(b).contains(m)) by {
                if old.subtree(b).contains(m) {
                    old.lemma_sub_trans(r, b);
                    old.lemma_sub_trans(b, m);
                    assert(key_lt(old.key(r), old.key(m)));
                    assert(key_lt(old.key(m), old.key(r)));
                    lemma_key_order::<K>();
                }
            }
            assert(self.subtree(b) =~= old.subtree(b));
        }
        if pm == r {
            assert(a == m);
            assert(self.left(r) == mc);
            if mc != SENTINEL {
                assert(self.parent(mc) == r);
            }
            assert(self.subtree(mc) =~= old.subtree(mc));
        } else {
            assert(self.left(r) == a);
            assert(a != SENTINEL);
            assert(old.node_ok(a));
            assert(self.parent(a) == r);
            assert(old.subtree(a).contains(m));
            assert(self.subtree(a) =~= old.subtree(a).remove(m));
        }
        assert(self.subtree(r) =~= old.subtree(r).remove(m));
        let nl = self.left(j);
        let nr = self.right(j);
        let np = self.parent(j);
        assert(nl == SENTINEL || self.live().contains(nl));
        assert(nr == SENTINEL || self.live().contains(nr));
        assert(self.subtree(j) == self.subtree(nl).union(self.subtree(nr)).insert(j));
        assert(self.subtree(j).subset_of(self.live()));
        assert(!self.subtree(nl).contains(j));
        assert(!self.subtree(nr).contains(j));
        assert(self.subtree(nl).disjoint(self.subtree(nr)));
        assert(nl != SENTINEL ==> self.parent(nl) == j);
        assert(nr != SENTINEL ==> self.parent(nr) == j);
        assert(np == SENTINEL ==> j == self.root);
        assert(np != SENTINEL ==> self.live().contains(np) && (self.left(np) == j || self.right(np)
            == j));
        old.lemma_sub(r);
        old.lemma_sub(m);
        assert forall|k: u32| #[trigger] self.subtree(nl).contains(k) implies key_lt(
            self.key(k),
            self.key(j),
        ) by {
            if pm == r {
                assert(old.subtree(m).contains(k));
            } else {
                assert(old.subtree(a).contains(k));
            }
            assert(old.subtree(old.left(r)).contains(k));
            old.lemma_sub_trans(j, k);
            assert(self.key(k) == old.key(k));
        }
        assert forall|k: u32| #[trigger] self.subtree(nr).contains(k) implies key_lt(
            self.key(j),
            self.key(k),
        ) by {
            assert(old.subtree(b).contains(k));
            old.lemma_sub_trans(j, k);
            assert(self.key(k) == old.key(k));
        }
    }

    /// After a replacement, the former parent of the node that moved up (when that
    /// is neither the removed node nor its right child) is well formed.
    proof fn lemma_replace_pm(&self, old: &Self, z: u32, m: u32, j: u32)
        requires
            old.wf(),
            old.is_successor(z, m),
            self.is_replacement_of(old, z, m),
            self.live().contains(j),
            j == old.parent(m),
            m != old.right(z),
            j != old.right(z),
        ensures
            self.node_ok(j),
    {
        reveal(RedBlackTree::wf);
        old.lemma_wf_basics();
        self.lemma_replace_common(old, z, m);
        let l = old.left(z);
        let r = old.right(z);
        let pz = old.parent(z);
        let mc = old.right(m);
        let pm = old.parent(m);
        old.lemma_sub_trans(r, pm);
        old.lemma_sub(pm);
        let b = old.right(pm);
        let q = old.parent(pm);
        assert(self.left(pm) == mc);
        assert(self.right(pm) == b);
        assert(self.parent(pm) == q);
        if mc != SENTINEL {
            assert(self.parent(mc) == pm);
        }
        assert(self.subtree(mc) =~= old.subtree(mc));
        if b != SENTINEL {
            assert(old.node_ok(b));
            assert(self.parent(b) == pm);
            assert(self.subtree(b) =~= old.subtree(b));
        }
        assert(q != SENTINEL);
        assert(old.node_ok(q));
        assert(old.subtree(r).contains(q)) by {
            old.lemma_parent_in_sub(r, pm);
        }
        assert(self.left(q) == old.left(q) || q == r);
        assert(self.right(q) == old.right(q));
        assert(self.subtree(pm) =~= old.subtree(pm).remove(m));
        let nl = self.left(j);
        let nr = self.right(j);
        let np = self.parent(j);
        assert(nl == SENTINEL || self.live().contains(nl));
        assert(nr == SENTINEL || self.live().contains(nr));
        assert(self.subtree(j) == self.subtree(nl).union(self.subtree(nr)).insert(j));
        assert(self.subtree(j).subset_of(self.live()));
        assert(!self.subtree(nl).contains(j));
        assert(!self.subtree(nr).contains(j));
        assert(self.subtree(nl).disjoint(self.subtree(nr)));
        assert(nl != SENTINEL ==> self.parent(nl) == j);
        assert(nr != SENTINEL ==> self.parent(nr) == j);
        assert(np == SENTINEL ==> j == self.root);
        assert(np != SENTINEL ==> self.live().contains(np) && (self.left(np) == j || self.right(np)
            == j));
        assert forall|k: u32| #[trigger] self.subtree(nl).contains(k) implies key_lt(
            self.key(k),
            self.key(j),
        ) by {
            old.lemma_sub_trans(j, k);
        }
        assert forall|k: u32| #[trigger] self.subtree(nr).contains(k) implies key_lt(
            self.key(j),
            self.key(k),
        ) by {
            old.lemma_sub_trans(j, k);
        }
    }

    /// After a replacement, the child of the node that moved up is well formed.
    proof fn lemma_replace_mc(&self, old: &Self, z: u32, m: u32, j: u32)
        requires
            old.wf(),
            old.is_successor(z, m),
            self.is_replacement_of(old, z, m),
            self.live().contains(j),
            j == old.right(m),
        ensures
            self.node_ok(j),
    {
        reveal(RedBlackTree::wf);
        old.lemma_wf_basics();
        self.lemma_replace_common(old, z, m);
        let l = old.left(z);
        let r = old.right(z);
        let pz = old.parent(z);
        let mc = old.right(m);
        let pm = old.parent(m);
        assert(mc != SENTINEL);
        old.lemma_sub(mc);
        let a = old.left(mc);
        let b = old.right(mc);
        assert(self.left(mc) == a);
        assert(self.right(mc) == b);
        if a != SENTINEL {
            assert(old.node_ok(a));
            assert(self.parent(a) == mc);
            assert(self.subtree(a) =~= old.subtree(a));
        }
        if b != SENTINEL {
            assert(old.node_ok(b));
            assert(self.parent(b) == mc);
            assert(self.subtree(b) =~= old.subtree(b));
        }
        if m == r {
            assert(self.parent(mc) == m);
            assert(self.right(m) == mc);
        } else {
            assert(self.parent(mc) == pm);
            assert(self.left(pm) == mc);
        }
        assert(self.subtree(mc) =~= old.subtree(mc));
        let nl = self.left(j);
        let nr = self.right(j);
        let np = self.parent(j);
        assert(nl == SENTINEL || self.live().contains(nl));
        assert(nr == SENTINEL || self.live().contains(nr));
        assert(self.subtree(j) == self.subtree(nl).union(self.subtree(nr)).insert(j));
        assert(self.subtree(j).subset_of(self.live()));
        assert(!self.subtree(nl).contains(j));
        assert(!self.subtree(nr).contains(j));
        assert(self.subtree(nl).disjoint(self.subtree(nr)));
        assert(nl != SENTINEL ==> self.parent(nl) == j);
        assert(nr != SENTINEL ==> self.parent(nr) == j);
        assert(np == SENTINEL ==> j == self.root);
        assert(np != SENTINEL ==> self.live().contains(np) && (self.left(np) == j || self.right(np)
            == j));
        assert forall|k: u32| #[trigger] self.subtree(nl).contains(k) implies key_lt(
            self.key(k),
            self.key(j),
        ) by {
            old.lemma_sub_trans(j, k);
        }
        assert forall|k: u32| #[trigger] self.subtree(nr).contains(k) implies key_lt(
            self.key(j),
            self.key(k),
        ) by {
            old.lemma_sub_trans(j, k);
        }
    }

    /// After a replacement, the former parent of the removed node is well formed.
    proof fn lemma_replace_pz(&self, old: &Self, z: u32, m: u32, j: u32)
        requires
            old.wf(),
            old.is_successor(z, m),
            self.is_replacement_of(old, z, m),
            self.live().contains(j),
            j == old.parent(z),
        ensures
            self.node_ok(j),
    {
        reveal(RedBlackTree::wf);
        old.lemma_wf_basics();
        self.lemma_replace_common(old, z, m);
        let l = old.left(z);
        let r = old.right(z);
        let pz = old.parent(z);
        let mc = old.right(m);
        let pm = old.parent(m);
        assert(pz != SENTINEL);
        old.lemma_sub(pz);
        let a = old.left(pz);
        let b = old.right(pz);
        let q = old.parent(pz);
        assert(self.parent(pz) == q);
        assert(self.parent(m) == pz);
        if a == z {
            assert(self.left(pz) == m);
            assert(self.right(pz) == b);
            if b != SENTINEL {
                assert(old.node_ok(b));
                assert(self.parent(b) == pz);
                assert(self.subtree(b) =~= old.subtree(b));
            }
        } else {
            assert(b == z);
            assert(self.right(pz) == m);
            assert(self.left(pz) == a);
            if a != SENTINEL {
                assert(old.node_ok(a));
                assert(self.parent(a) == pz);
                assert(self.subtree(a) =~= old.subtree(a));
            }
        }
        if q != SENTINEL {
            assert(old.node_ok(q));
            assert(self.left(q) == old.left(q));
            assert(self.right(q) == old.right(q));
        }
        assert(self.subtree(m) =~= old.subtree(z).remove(z));
        assert(self.subtree(pz) =~= old.subtree(pz).remove(z));
        let nl = self.left(j);
        let nr = self.right(j);
        let np = self.parent(j);
        assert(nl == SENTINEL || self.live().contains(nl));
        assert(nr == SENTINEL || self.live().contains(nr));
        assert(self.subtree(j) == self.subtree(nl).union(self.subtree(nr)).insert(j));
        assert(self.subtree(j).subset_of(self.live()));
        assert(!self.subtree(nl).contains(j));
        assert(!self.subtree(nr).contains(j));
        assert(self.subtree(nl).disjoint(self.subtree(nr)));
        assert(nl != SENTINEL ==> self.parent(nl) == j);
        assert(nr != SENTINEL ==> self.parent(nr) == j);
        assert(np == SENTINEL ==> j == self.root);
        assert(np != SENTINEL ==> self.live().contains(np) && (self.left(np) == j || self.right(np)
            == j));
        assert forall|k: u32| #[trigger] self.subtree(nl).contains(k) implies key_lt(
            self.key(k),
            self.key(j),
        ) by {
            if a == z {
                assert(old.subtree(z).contains(k));
            }
            old.lemma_sub_trans(j, k);
        }
        assert forall|k: u32| #[trigger] self.subtree(nr).contains(k) implies key_lt(
            self.key(j),
            self.key(k),
        ) by {
            if b == z {
                assert(old.subtree(z).contains(k));
            }
            old.lemma_sub_trans(j, k);
        }
    }

    /// After a replacement, every node that it does not touch is well formed.
    proof fn lemma_replace_other(&self, old: &Self, z: u32, m: u32, j: u32)
        requires
            old.wf(),
            old.is_successor(z, m),
            self.is_replacement_of(old, z, m),
            self.live().contains(j),
            j != m,
            j != old.left(z),
            j != old.right(z),
            j != old.parent(m),
            j != old.right(m),
            j != old.parent(z),
        ensures
            self.node_ok(j),
    {
        reveal(RedBlackTree::wf);
        old.lemma_wf_basics();
        self.lemma_replace_common(old, z, m);
        let l = old.left(z);
        let r = old.right(z);
        let pz = old.parent(z);
        let mc = old.right(m);
        let pm = old.parent(m);
        old.lemma_sub(j);
        let a = old.left(j);
        let b = old.right(j);
        let q = old.parent(j);
        assert(self.left(j) == a);
        assert(self.right(j) == b);
        assert(self.parent(j) == q);
        if a != SENTINEL {
            assert(old.node_ok(a));
            assert(a != z && a != l && a != r && a != m && a != mc);
            assert(self.parent(a) == j);
        }
        if b != SENTINEL {
            assert(old.node_ok(b));
            assert(b != z && b != l && b != r && b != m && b != mc);
            assert(self.parent(b) == j);
        }
        if q != SENTINEL {
            assert(old.node_ok(q));
            assert(q != z);
            if q == pz {
                if old.left(pz) == z {
                    assert(self.right(pz) == j);
                } else {
                    assert(self.left(pz) == j);
                }
            } else if q == pm {
                assert(old.right(pm) == j);
                assert(self.right(pm) == j);
            } else if q == m {
                assert(false);
            } else {
                assert(self.left(q) == old.left(q));
                assert(self.right(q) == old.right(q));
            }
        }
        assert(self.subtree(a) =~= if old.subtree(a).contains(z) {
            old.subtree(a).remove(z)
        } else {
            old.subtree(a).remove(m)
        });
        assert(self.subtree(b) =~= if old.subtree(b).contains(z) {
            old.subtree(b).remove(z)
        } else {
            old.subtree(b).remove(m)
        });
        if old.subtree(j).contains(z) {
            if old.subtree(a).contains(z) {
                assert(old.subtree(z).subset_of(old.subtree(a))) by {
                    old.lemma_sub_trans(a, z);
                }
                assert(!old.subtree(b).contains(m));
            } else {
                assert(old.subtree(b).contains(z));
                assert(old.subtree(z).subset_of(old.subtree(b))) by {
                    old.lemma_sub_trans(b, z);
                }
                assert(!old.subtree(a).contains(m));
            }
        } else {
            if old.subtree(a).contains(z) || old.subtree(b).contains(z) {
                assert(false);
            }
        }
        assert(self.subtree(j) =~= self.subtree(a).union(self.subtree(b)).insert(j));
        let nl = self.left(j);
        let nr = self.right(j);
        let np = self.parent(j);
        assert(nl == SENTINEL || self.live().contains(nl));
        assert(nr == SENTINEL || self.live().contains(nr));
        assert(self.subtree(j) == self.subtree(nl).union(self.subtree(nr)).insert(j));
        assert(self.subtree(j).subset_of(self.live()));
        assert(!self.subtree(nl).contains(j));
        assert(!self.subtree(nr).contains(j));
        assert(self.subtree(nl).disjoint(self.subtree(nr)));
        assert(nl != SENTINEL ==> self.parent(nl) == j);
        assert(nr != SENTINEL ==> self.parent(nr) == j);
        assert(np == SENTINEL ==> j == self.root);
        assert(np != SENTINEL ==> self.live().contains(np) && (self.left(np) == j || self.right(np)
            == j));
        assert forall|k: u32| #[trigger] self.subtree(nl).contains(k) implies key_lt(
            self.key(k),
            self.key(j),
        ) by {
            old.lemma_sub_trans(j, k);
        }
        assert forall|k: u32| #[trigger] self.subtree(nr).contains(k) implies key_lt(
            self.key(j),
            self.key(k),
        ) by {
            old.lemma_sub_trans(j, k);
        }
    }

    /// Replacing a node that has two children by its successor keeps the tree well formed.
    proof fn lemma_replace(&self, old: &Self, z: u32, m: u32)
        requires
            old.wf(),
            old.is_successor(z, m),
            self.is_replacement_of(old, z, m),
        ensures
            self.wf(),
            self@ == old@.remove(old.key(z)),
    {
        reveal(RedBlackTree::wf);
        old.lemma_wf_basics();
        old.lemma_map();
        self.lemma_replace_common(old, z, m);
        let l = old.left(z);
        let r = old.right(z);
        let pz = old.parent(z);
        let mc = old.right(m);
        let pm = old.parent(m);
        assert forall|j: u32| self.live().contains(j) implies #[trigger] self.node_ok(j) by {
            if j == m {
                self.lemma_replace_m(old, z, m, j);
            } else if j == l {
                self.lemma_replace_l(old, z, m, j);
            } else if j == r {
                self.lemma_replace_r(old, z, m, j);
            } else if j == pm {
                self.lemma_replace_pm(old, z, m, j);
            } else if j == mc {
                self.lemma_replace_mc(old, z, m, j);
            } else if j == pz {
                self.lemma_replace_pz(old, z, m, j);
            } else {
                self.lemma_replace_other(old, z, m, j);
            }
        }
        assert(self.desc@.dom() =~= self.live());
        if pz == SENTINEL {
            assert(self.subtree(m) =~= self.live());
        } else {
            assert(old.root != z);
            assert(old.subtree(old.root).contains(z));
            assert(self.subtree(self.root) =~= self.live());
        }
        assert forall|a: u32, b: u32|
            self.live().contains(a) && self.live().contains(b) && #[trigger] self.key(a)
                == #[trigger] self.key(b) implies a == b by {
            assert(old.key(a) == old.key(b));
        }
        self.lemma_view_remove(old, z);
    }

    /// Puts `source` in the place of `target`: as the root when `target` has no
    /// parent, else as the child of `target`'s parent on `target`'s side.
    fn transplant(&mut self, target: u32, source: u32)
        requires
            old(self).arena_ok(),
            target == SENTINEL || (target as int) < MAX_SIZE,
            source == SENTINEL || (source as int) < MAX_SIZE,
            old(self).parent(target) != SENTINEL ==> (old(self).parent(target) as int) < MAX_SIZE
                && (old(self).left(old(self).parent(target)) == target || old(self).right(
                old(self).parent(target),
            ) == target),
        ensures
            final(self).arena_ok(),
            final(self).live() == old(self).live(),
            final(self).next_index() == old(self).next_index(),
            forall|i: u32| (i as int) < MAX_SIZE ==> #[trigger] final(self).node_at(i) == old(self).node_at(i),
            final(self).desc == old(self).desc,
            final(self).root == if old(self).parent(target) == SENTINEL {
                source
            } else {
                old(self).root
            },
            forall|j: u32, q: u32|
                #[trigger] final(self).reg(j, q) == if j == source && q == PARENT && source
                    != SENTINEL {
                    old(self).parent(target)
                } else if j == old(self).parent(target) && old(self).parent(target) != SENTINEL && q
                    == (if old(self).left(old(self).parent(target)) == target {
                    LEFT
                } else {
                    RIGHT
                }) {
                    source
                } else {
                    old(self).reg(j, q)
                },
            old(self).allocator.clean() && (source == SENTINEL || old(self).live().contains(source))
                && (old(self).parent(target) == SENTINEL || old(self).live().contains(
                old(self).parent(target),
            )) ==> final(self).allocator.clean(),
    {
        let parent = self.get_parent(target);
        if parent == SENTINEL {
            self.root = source;
            self.allocator.set_register(source, SENTINEL, PARENT);
            return;
        }
        let ghost t0 = *self;
        let dir = self.child_dir(parent, target);
        self.allocator.connect(parent, source, dir, PARENT);
    }

    /// Removes `key` and returns the value that was stored under it, if any.
    #[verifier::rlimit(80)]
    pub fn remove(&mut self, key: &K) -> (r: Option<V>)
        requires
            old(self).wf(),
        ensures
            final(self).wf(),
            final(self)@ == old(self)@.remove(*key),
            r == if old(self)@.contains_key(*key) {
                Some(old(self)@[*key])
            } else {
                None::<V>
            },
            old(self)@.contains_key(*key) ==> final(self).next_index() == old(self).index_of(*key),
            old(self)@.contains_key(*key) ==> final(self).live() == old(self).live().remove(
                old(self).index_of(*key),
            ),
            forall|j: u32| (j as int) < MAX_SIZE ==> #[trigger] final(self).node_at(j) == old(self).node_at(j),
            old(self)@.contains_key(*key) ==> final(self).is_removal_of(old(self), old(self).index_of(*key)),
            old(self)@.contains_key(*key) && old(self).parent(old(self).index_of(*key)) == SENTINEL && (
            old(self).left(old(self).index_of(*key)) == SENTINEL || old(self).right(
                old(self).index_of(*key),
            ) == SENTINEL) ==> {
                let z = old(self).index_of(*key);
                let c = if old(self).left(z) == SENTINEL {
                    old(self).right(z)
                } else {
                    old(self).left(z)
                };
                &&& final(self).root_node() == c
                &&& c != SENTINEL ==> final(self).parent(c) == SENTINEL
            },
            !old(self)@.contains_key(*key) ==> *final(self) == *old(self),
    {
        proof {
            self.lemma_wf_basics();
            self.lemma_map();
        }
        let mut ref_node_index = self.root;
        if ref_node_index == SENTINEL {
            proof {
                if self@.contains_key(*key) {
                    let i = choose|i: u32| self.live().contains(i) && self.key(i) == *key;
                }
                assert(self@ =~= self@.remove(*key));
            }
            return None;
        }
        loop
            invariant
                *self == *old(self),
                self.wf(),
                self.arena_ok(),
                self.live().contains(ref_node_index),
                forall|i: u32|
                    self.live().contains(i) && self.key(i) == *key ==> #[trigger] self.subtree(
                        ref_node_index,
                    ).contains(i),
            decreases self.subtree(ref_node_index).len(),
        {
            proof {
                self.lemma_wf_basics();
                self.lemma_map();
                self.lemma_sub(ref_node_index);
                self.allocator.lemma_live();
                lemma_key_order::<K>();
            }
            let ref_key = self.allocator.get(ref_node_index).key;
            let left = self.get_left(ref_node_index);
            let right = self.get_right(ref_node_index);
            let ghost z = ref_node_index;
            let target = if *key < ref_key {
                left
            } else if *key > ref_key {
                proof {
                    assert(key_gt(*key, ref_key));
                }
                right
            } else {
                proof {
                    assert(!key_lt(*key, ref_key));
                    assert(!key_gt(*key, ref_key));
                    assert(!key_lt(ref_key, *key));
                    assert(*key == ref_key);
                }
                proof {
                    assert(self@.contains_key(*key));
                    assert(self.index_of(*key) == z);
                }
                return self.delete_node(ref_node_index);
            };
            proof {
                assert forall|i: u32|
                    self.live().contains(i) && self.key(i) == *key implies #[trigger] self.subtree(
                    target,
                ).contains(i) by {
                    assert(self.subtree(z).contains(i));
                    if self.subtree(self.left(z)).contains(i) {
                    } else if self.subtree(self.right(z)).contains(i) {
                    }
                }
            }
            if target == SENTINEL {
                proof {
                    if self@.contains_key(*key) {
                        let i = choose|i: u32| self.live().contains(i) && self.key(i) == *key;
                        assert(self.subtree(target).contains(i));
                    }
                    assert(self@ =~= self@.remove(*key));
                }
                return None;
            }
            ref_node_index = target
        }
    }

    /// Unlinks node `ref_node_index` from the tree, gives its slot back and returns
    /// the value it held.
    #[verifier::rlimit(100)]
    fn delete_node(&mut self, ref_node_index: u32) -> (r: Option<V>)
        requires
            old(self).wf(),
            old(self).live().contains(ref_node_index),
        ensures
            final(self).wf(),
            final(self)@ == old(self)@.remove(old(self).key(ref_node_index)),
            r == Some(old(self).node_at(ref_node_index).value),
            final(self).next_index() == ref_node_index,
            final(self).live() == old(self).live().remove(ref_node_index),
            forall|j: u32| (j as int) < MAX_SIZE ==> #[trigger] final(self).node_at(j) == old(self).node_at(j),
            final(self).is_removal_of(old(self), ref_node_index),
            old(self).parent(ref_node_index) == SENTINEL && (old(self).left(ref_node_index)
                == SENTINEL || old(self).right(ref_node_index) == SENTINEL) ==> {
                let c = if old(self).left(ref_node_index) == SENTINEL {
                    old(self).right(ref_node_index)
                } else {
                    old(self).left(ref_node_index)
                };
                &&& final(self).root_node() == c
                &&& c != SENTINEL ==> final(self).parent(c) == SENTINEL
            },
    {
        proof {
            self.lemma_wf_basics();
            self.lemma_map();
            self.lemma_sub(ref_node_index);
            self.allocator.lemma_live();
        }
        let ghost z = ref_node_index;
        let ref_value = self.allocator.get(ref_node_index).value;
        let left = self.get_left(ref_node_index);
        let right = self.get_right(ref_node_index);
        proof {
            assert(self.node_ok(z));
            if left != SENTINEL {
                assert(self.node_ok(left));
            }
            if right != SENTINEL {
                assert(self.node_ok(right));
            }
            if self.parent(z) != SENTINEL {
                self.lemma_parent_outside(z);
                assert(self.node_ok(self.parent(z)));
            }
        }
        let ghost t0 = *self;
        let ghost mut gm: u32 = SENTINEL;
        let mut is_black = self.is_black(ref_node_index);
        let (pivot_node_index, delete_node_index) = if left == SENTINEL {
            self.transplant(ref_node_index, right);
            let ghost ta = *self;
            self.allocator.clear_register(ref_node_index, RIGHT);
            proof {
                t0.allocator.lemma_live();
                assert forall|j: u32, q: u32| #[trigger] self.reg(j, q) == if j == z && (q == PARENT || q == COLOR) {
                    t0.reg(z, q)
                } else {
                    t0.spliced_reg(z, right, j, q)
                } by {
                    assert(self.reg(j, q) == if j == z && q == RIGHT { 0 } else { ta.reg(j, q) });
                    if j == z {
                        assert(right != z);
                        assert(ta.reg(z, q) == t0.reg(z, q));
                    }
                }
                assert forall|j: u32| (j as int) < MAX_SIZE implies #[trigger] self.node_at(j) == t0.node_at(j) by {
                    assert(ta.node_at(j) == t0.node_at(j));
                }
            }
            (right, ref_node_index)
        } else if right == SENTINEL {
            self.transplant(ref_node_index, left);
            let ghost ta = *self;
            self.allocator.clear_register(ref_node_index, LEFT);
            proof {
                t0.allocator.lemma_live();
                assert forall|j: u32, q: u32| #[trigger] self.reg(j, q) == if j == z && (q == PARENT || q == COLOR) {
                    t0.reg(z, q)
                } else {
                    t0.spliced_reg(z, left, j, q)
                } by {
                    assert(self.reg(j, q) == if j == z && q == LEFT { 0 } else { ta.reg(j, q) });
                    if j == z {
                        assert(left != z);
                        assert(ta.reg(z, q) == t0.reg(z, q));
                    }
                }
                assert forall|j: u32| (j as int) < MAX_SIZE implies #[trigger] self.node_at(j) == t0.node_at(j) by {
                    assert(ta.node_at(j) == t0.node_at(j));
                }
            }
            (left, ref_node_index)
        } else {
            let (min_right_child, m_black, m) = self.move_successor(ref_node_index, left, right);
            proof {
                gm = m@;
            }
            is_black = m_black;
            (min_right_child, ref_node_index)
        };
        let ghost tj = *self;
        proof {
            assert(delete_node_index == z);
            assert(tj.allocator.inv());
            assert(tj.allocator.clean());
            assert(tj.live() == t0.live());
            assert(forall|j: u32| (j as int) < MAX_SIZE ==> #[trigger] tj.node_at(j) == t0.node_at(j));
            assert(left == SENTINEL ==> pivot_node_index == right);
            assert(left != SENTINEL && right == SENTINEL ==> pivot_node_index == left);
            assert forall|j: u32, q: u32| #[trigger] tj.reg(j, q) == if j == z && (q == PARENT || q == COLOR) {
                t0.reg(z, q)
            } else if left == SENTINEL || right == SENTINEL {
                t0.spliced_reg(z, pivot_node_index, j, q)
            } else {
                t0.replaced_reg(z, gm, j, q)
            } by {
            }
        }
        self.allocator.clear_register(ref_node_index, PARENT);
        let ghost tp = *self;
        self.allocator.clear_register(delete_node_index, COLOR);
        let ghost tk = *self;
        proof {
            assert(tp.allocator.clean());
            assert(tk.allocator.clean());
            assert forall|j: u32| (j as int) < MAX_SIZE implies #[trigger] tk.node_at(j) == tj.node_at(j) by {
                assert(tp.node_at(j) == tj.node_at(j));
            }
            assert(self.allocator.clean());
            assert(self.live().contains(z));
            assert forall|q: u32| #[trigger] self.reg(z, q) == 0 by {
                if q != PARENT && q != COLOR {
                    assert(self.reg(z, q) == tj.reg(z, q));
                }
            }
            assert forall|q: u32| #[trigger] self.allocator.reg(delete_node_index, q) == 0 by {
                assert(self.reg(delete_node_index, q) == 0);
            }
        }
        self.allocator.remove_node(delete_node_index);
        let ghost t2 = *self;
        proof {
            assert forall|j: u32| (j as int) < MAX_SIZE implies #[trigger] t2.node_at(j) == t0.node_at(j) by {
                assert(t2.node_at(j) == tk.node_at(j));
                assert(tk.node_at(j) == tj.node_at(j));
            }
            assert(t2.allocator.clean());
            assert forall|j: u32, q: u32| #[trigger] t2.reg(j, q) == if left == SENTINEL || right == SENTINEL {
                t0.spliced_reg(z, pivot_node_index, j, q)
            } else {
                t0.replaced_reg(z, gm, j, q)
            } by {
                assert(tj.reg(j, q) == if j == z && (q == PARENT || q == COLOR) {
                    t0.reg(z, q)
                } else if left == SENTINEL || right == SENTINEL {
                    t0.spliced_reg(z, pivot_node_index, j, q)
                } else {
                    t0.replaced_reg(z, gm, j, q)
                });
            }
            assert(forall|j: u32| (j as int) < MAX_SIZE ==> #[trigger] t2.node_at(j) == t0.node_at(j));
        }
        self.desc = Ghost(
            if left == SENTINEL || right == SENTINEL {
                Map::new(
                    |j: u32| t0.live().remove(z).contains(j),
                    |j: u32| t0.desc@[j].remove(z),
                )
            } else {
                t0.replaced_desc(z, gm)
            },
        );
        proof {
            assert(self.allocator == t2.allocator);
            assert forall|j: u32, q: u32| #[trigger] self.reg(j, q) == t2.reg(j, q) by {
            }
            assert forall|j: u32| #[trigger] self.node_at(j) == t2.node_at(j) by {
            }
            if left == SENTINEL || right == SENTINEL {
                assert(self.is_splice_of(&t0, z, pivot_node_index));
                self.lemma_splice(&t0, z, pivot_node_index);
            } else {
                assert(self.allocator.inv());
                assert(self.allocator.clean());
                assert(self.live() == t0.live().remove(z));
                assert(self.root == if t0.parent(z) == SENTINEL {
                    gm
                } else {
                    t0.root
                });
                assert(forall|j: u32, q: u32| #[trigger] self.reg(j, q) == t0.replaced_reg(z, gm, j, q));
                assert(forall|j: u32| (j as int) < MAX_SIZE ==> #[trigger] self.node_at(j) == t0.node_at(j));
                assert(self.desc@ == t0.replaced_desc(z, gm));
                assert(self.is_replacement_of(&t0, z, gm));
                self.lemma_replace(&t0, z, gm);
            }
            self.lemma_wf_basics();
            if !(left == SENTINEL || right == SENTINEL) {
                t0.lemma_successor_facts(z, gm);
            }
            assert(pivot_node_index == SENTINEL || (t0.live().contains(pivot_node_index)
                && pivot_node_index != z));
            assert(pivot_node_index == SENTINEL || self.live().contains(pivot_node_index));
        }
        let ghost mid = *self;
        let ghost mm = if left == SENTINEL || right == SENTINEL {
            z
        } else {
            gm
        };
        proof {
            assert(mid.is_unlinking_of(&t0, z, mm, pivot_node_index));
            assert(is_black == (t0.reg(mm, COLOR) == BLACK));
        }
        if is_black {
            if self.fix_remove(pivot_node_index).is_none() {
                return None;
            }
        }
        proof {
            assert(mid.is_unlinking_of(&t0, z, mm, pivot_node_index) && if t0.reg(mm, COLOR)
                == BLACK && pivot_node_index != SENTINEL {
                self.is_remove_fix_of(&mid, pivot_node_index)
            } else {
                *self == mid
            });
        }
        return Some(ref_value);
    }

    /// `mid` is `old` with node `z` unlinked: when `z` has at most one child `c`,
    /// `c` (or the sentinel) takes its place and `m` is `z`; otherwise the node `m`
    /// of least key in its right subtree takes its place, its links and its color,
    /// and `c` is the former right child of `m`.
    spec fn is_unlinking_of(&self, old: &Self, z: u32, m: u32, c: u32) -> bool {
        ||| {
            &&& (old.left(z) == SENTINEL && c == old.right(z)) || (old.left(z) != SENTINEL
                && old.right(z) == SENTINEL && c == old.left(z))
            &&& m == z
            &&& self.is_splice_of(old, z, c)
        }
        ||| {
            &&& old.left(z) != SENTINEL
            &&& old.right(z) != SENTINEL
            &&& old.is_successor(z, m)
            &&& c == old.right(m)
            &&& self.is_replacement_of(old, z, m)
        }
    }

    /// `self` is `old` without node `z`: `z` is unlinked (`is_unlinking_of`), and
    /// when the node taken out of its place (`z`, or its successor) was black and
    /// `c` is a node, the tree is then fixed up from `c` (`is_remove_fix_of`).
    pub closed spec fn is_removal_of(&self, old: &Self, z: u32) -> bool {
        exists|mid: Self, m: u32, c: u32|
            #[trigger] mid.is_unlinking_of(old, z, m, c) && if old.reg(m, COLOR) == BLACK && c
                != SENTINEL {
                self.is_remove_fix_of(&mid, c)
            } else {
                *self == mid
            }
    }

    /// `mid` is `old` with node `z` unlinked, stated over the registers: when `z`
    /// has at most one child `c`, `c` (or the sentinel) takes its place and `m` is
    /// `z`; otherwise its successor `m` takes its place, its links and its color,
    /// and `c` is the former right child of `m`.
    pub open spec fn is_unlinked(&self, old: &Self, z: u32, m: u32, c: u32) -> bool {
        &&& self.live() == old.live().remove(z)
        &&& forall|j: u32| (j as int) < MAX_SIZE ==> #[trigger] self.node_at(j) == old.node_at(j)
        &&& {
        ||| {
            &&& (old.left(z) == SENTINEL && c == old.right(z)) || (old.left(z) != SENTINEL
                && old.right(z) == SENTINEL && c == old.left(z))
            &&& m == z
            &&& self.root_node() == if old.parent(z) == SENTINEL {
                c
            } else {
                old.root_node()
            }
            &&& forall|j: u32, q: u32| #[trigger] self.reg(j, q) == old.spliced_reg(z, c, j, q)
        }
        ||| {
            &&& old.left(z) != SENTINEL
            &&& old.right(z) != SENTINEL
            &&& old.is_successor(z, m)
            &&& c == old.right(m)
            &&& self.root_node() == if old.parent(z) == SENTINEL {
                m
            } else {
                old.root_node()
            }
            &&& forall|j: u32, q: u32| #[trigger] self.reg(j, q) == old.replaced_reg(z, m, j, q)
        }
        }
    }

    /// What a removal is, stated over the registers: `z` is unlinked, and when the
    /// node taken out of its place was black and `c` is a node, the tree is then
    /// fixed up from `c`.
    pub proof fn lemma_removal(&self, old: &Self, z: u32)
        requires
            self.is_removal_of(old, z),
        ensures
            exists|mid: Self, m: u32, c: u32|
                #[trigger] mid.is_unlinked(old, z, m, c) && if old.reg(m, COLOR) == BLACK && c
                    != SENTINEL {
                    self.is_remove_fix_of(&mid, c)
                } else {
                    *self == mid
                },
    {
        let (mid, m, c) = choose|mid: Self, m: u32, c: u32|
            #[trigger] mid.is_unlinking_of(old, z, m, c) && if old.reg(m, COLOR) == BLACK && c
                != SENTINEL {
                self.is_remove_fix_of(&mid, c)
            } else {
                *self == mid
            };
        assert(mid.is_unlinked(old, z, m, c));
    }

    /// For a node `ref_node_index` with two children: moves the node of least key in
    /// its right subtree into its place, detaching it. Returns that node's former
    /// right child, whether that node was black, and that node.
    #[verifier::rlimit(100)]
    fn move_successor(&mut self, ref_node_index: u32, left: u32, right: u32) -> (res: (u32, bool, Ghost<u32>))
        requires
            old(self).wf(),
            old(self).live().contains(ref_node_index),
            left == old(self).left(ref_node_index),
            right == old(self).right(ref_node_index),
            left != SENTINEL,
            right != SENTINEL,
        ensures
            old(self).is_successor(ref_node_index, res.2@),
            res.0 == old(self).right(res.2@),
            res.1 == (old(self).reg(res.2@, COLOR) == BLACK),
            final(self).allocator.inv(),
            final(self).allocator.clean(),
            final(self).live() == old(self).live(),
            final(self).next_index() == old(self).next_index(),
            forall|j: u32| (j as int) < MAX_SIZE ==> #[trigger] final(self).node_at(j) == old(self).node_at(j),
            final(self).root == if old(self).parent(ref_node_index) == SENTINEL {
                res.2@
            } else {
                old(self).root
            },
            forall|j: u32, q: u32| #[trigger] final(self).reg(j, q) == if j == ref_node_index && (q == PARENT || q == COLOR) {
                old(self).reg(ref_node_index, q)
            } else {
                old(self).replaced_reg(ref_node_index, res.2@, j, q)
            },
    {
        let ghost t0 = *self;
        let ghost z = ref_node_index;
        proof {
            self.lemma_wf_basics();
            self.lemma_sub(z);
            assert(self.node_ok(z));
            assert(self.node_ok(left));
            assert(self.node_ok(right));
            if self.parent(z) != SENTINEL {
                self.lemma_parent_outside(z);
                assert(self.node_ok(self.parent(z)));
            }
        }
        let min_right = self.find_min(right);
        let min_right_child = self.get_right(min_right);
        proof {
            assert(t0.is_successor(z, min_right));
            t0.lemma_successor_facts(z, min_right);
        }
        let is_black = self.is_black(min_right);
        let ghost m = min_right;
        let ghost mc = min_right_child;
        let ghost pm = t0.parent(m);
        let ghost pz = t0.parent(z);
        proof {
            t0.allocator.lemma_live();
            assert(left != right);
            assert(pz != m && pz != left && pz != right && pz != z);
            assert(m != right ==> pm != pz && pm != left && pm != z && pm != m);
            assert(mc != SENTINEL ==> mc != pz && mc != left && mc != z && mc != m && mc
                != right && mc != pm);
            assert(pz != SENTINEL ==> (t0.left(pz) == z || t0.right(pz) == z));
        }
        if min_right != right {
            self.transplant(min_right, min_right_child);
            let ghost ta = *self;
            proof {
                assert forall|j: u32, q: u32| #[trigger] ta.reg(j, q) == if j == mc && q
                    == PARENT && mc != SENTINEL {
                    pm
                } else if j == pm && q == LEFT {
                    mc
                } else {
                    t0.reg(j, q)
                } by {
                }
            }
            self.connect(min_right, right, RIGHT);
        }
        let ghost t1 = *self;
        proof {
            assert forall|j: u32, q: u32| #[trigger] t1.reg(j, q) == if m == right {
                t0.reg(j, q)
            } else if j == right && q == PARENT {
                m
            } else if j == m && q == RIGHT {
                right
            } else if j == mc && q == PARENT && mc != SENTINEL {
                pm
            } else if j == pm && q == LEFT {
                mc
            } else {
                t0.reg(j, q)
            } by {
            }
            assert(t1.parent(z) == pz);
            assert(pz != SENTINEL ==> t1.left(pz) == t0.left(pz) && t1.right(pz)
                == t0.right(pz));
        }
        self.transplant(ref_node_index, min_right);
        let ghost tc = *self;
        self.connect(min_right, left, LEFT);
        let ghost td = *self;
        proof {
            assert forall|j: u32, q: u32| #[trigger] td.reg(j, q) == if j == left && q
                == PARENT {
                m
            } else if j == m && q == LEFT {
                left
            } else if j == m && q == PARENT {
                pz
            } else if j == pz && pz != SENTINEL && q == (if t0.left(pz) == z {
                LEFT
            } else {
                RIGHT
            }) {
                m
            } else {
                t1.reg(j, q)
            } by {
                assert(tc.reg(j, q) == if j == m && q == PARENT {
                    pz
                } else if j == pz && pz != SENTINEL && q == (if t1.left(pz) == z {
                    LEFT
                } else {
                    RIGHT
                }) {
                    m
                } else {
                    t1.reg(j, q)
                });
            }
            assert(td.reg(z, COLOR) == t0.reg(z, COLOR));
        }
        if self.is_red(ref_node_index) {
            self.color_red(min_right)
        } else {
            self.color_black(min_right)
        }
        let ghost te = *self;
        self.allocator.clear_register(ref_node_index, LEFT);
        self.allocator.clear_register(ref_node_index, RIGHT);
        proof {
            assert forall|j: u32, q: u32| #[trigger] te.reg(j, q) == if j == m && q == COLOR {
                if t0.reg(z, COLOR) == RED {
                    RED
                } else {
                    BLACK
                }
            } else {
                td.reg(j, q)
            } by {
            }
            assert forall|j: u32, q: u32| #[trigger] self.reg(j, q) == if j == z && (q == PARENT || q == COLOR) {
                t0.reg(z, q)
            } else {
                t0.replaced_reg(z, min_right, j, q)
            } by {
                assert(self.reg(j, q) == if j == z && (q == LEFT || q == RIGHT) {
                    0
                } else {
                    te.reg(j, q)
                });
                assert(te.reg(j, q) == if j == m && q == COLOR {
                    if t0.reg(z, COLOR) == RED {
                        RED
                    } else {
                        BLACK
                    }
                } else {
                    td.reg(j, q)
                });
                assert(t1.reg(j, q) == if m == right {
                    t0.reg(j, q)
                } else if j == right && q == PARENT {
                    m
                } else if j == m && q == RIGHT {
                    right
                } else if j == mc && q == PARENT && mc != SENTINEL {
                    pm
                } else if j == pm && q == LEFT {
                    mc
                } else {
                    t0.reg(j, q)
                });
                if j == m && q == RIGHT && m == right {
                    assert(t0.reg(m, RIGHT) == mc);
                }
                if q >= 4 {
                    assert(t0.reg(j, q) == 0);
                }
            }
            assert forall|j: u32| (j as int) < MAX_SIZE implies #[trigger] self.node_at(j) == t0.node_at(j) by {
                assert(self.node_at(j) == te.node_at(j));
                assert(te.node_at(j) == td.node_at(j));
                assert(td.node_at(j) == tc.node_at(j));
                assert(tc.node_at(j) == t1.node_at(j));
            }
        }
        (min_right_child, is_black, Ghost(min_right))
    }
}

// ----------------------------------------------------------------------
// Black counts along search paths
// ----------------------------------------------------------------------
impl<K: PartialOrd + Copy + Default, V: Copy + Default, const MAX_SIZE: usize> RedBlackTree<
    K,
    V,
    MAX_SIZE,
> {
    /// The number of black nodes on the path that a search for `k` takes from `n`
    /// down to an empty link (going right at an equal key).
    pub closed spec fn search_blacks(&self, n: u32, k: K) -> nat
        decreases self.subtree(n).len(),
        when self.wf() && (n == SENTINEL || self.live().contains(n))
    {
        if n == SENTINEL {
            0
        } else {
            proof {
                self.lemma_sub(n);
            }
            (if self.reg(n, COLOR) == BLACK {
                1nat
            } else {
                0nat
            }) + self.search_blacks(
                if key_lt(k, self.key(n)) {
                    self.left(n)
                } else {
                    self.right(n)
                },
                k,
            )
        }
    }

    /// How a search counts black nodes: nothing at an empty link; at a node, one for
    /// a black node and then the count from the child that the search goes on to.
    pub proof fn lemma_search_blacks(&self, n: u32, k: K)
        requires
            self.wf(),
            n == SENTINEL || self.live().contains(n),
        ensures
            n == SENTINEL ==> self.search_blacks(n, k) == 0,
            n != SENTINEL ==> self.search_blacks(n, k) == (if self.reg(n, COLOR) == BLACK {
                1nat
            } else {
                0nat
            }) + self.search_blacks(
                if key_lt(k, self.key(n)) {
                    self.left(n)
                } else {
                    self.right(n)
                },
                k,
            ),
    {
        if n != SENTINEL {
            self.lemma_sub(n);
        }
    }

    /// Two well-formed trees that both hold the nodes of the subtree of `n` and agree
    /// on their links, colors and keys count the same black nodes on every search
    /// from `n`.
    proof fn lemma_blacks_same(&self, other: &Self, n: u32, k: K)
        requires
            self.wf(),
            other.wf(),
            n == SENTINEL || self.live().contains(n),
            forall|j: u32| #[trigger] self.subtree(n).contains(j) ==> other.live().contains(j),
            forall|j: u32| #[trigger]
                self.subtree(n).contains(j) ==> other.reg(j, LEFT) == self.reg(j, LEFT)
                    && other.reg(j, RIGHT) == self.reg(j, RIGHT) && other.reg(j, COLOR)
                    == self.reg(j, COLOR) && other.key(j) == self.key(j),
        ensures
            other.search_blacks(n, k) == self.search_blacks(n, k),
        decreases self.subtree(n).len(),
    {
        if n != SENTINEL {
            self.lemma_sub(n);
        }
        self.lemma_search_blacks(n, k);
        other.lemma_search_blacks(n, k);
        if n != SENTINEL {
            let next = if key_lt(k, self.key(n)) {
                self.left(n)
            } else {
                self.right(n)
            };
            assert(self.node_ok(n));
            self.lemma_blacks_same(other, next, k);
        }
    }

    /// A node `n` above `g` in `self` has the same black count on the search for `k`
    /// in `new`, when `new` holds the nodes of the subtree of `n` outside that of `g`
    /// and differs on them only in that the link to `g` now leads to `top`, and the
    /// search from `top` in `new` counts as the search from `g` in `self` does.
    proof fn lemma_blacks_above(&self, new: &Self, g: u32, top: u32, n: u32, k: K)
        requires
            self.wf(),
            new.wf(),
            self.live().contains(g),
            self.live().contains(n),
            self.subtree(n).contains(g),
            n != g,
            new.search_blacks(top, k) == self.search_blacks(g, k),
            top == SENTINEL || new.live().contains(top),
            forall|j: u32| #[trigger]
                self.subtree(n).contains(j) && !self.subtree(g).contains(j) ==> {
                    &&& new.live().contains(j)
                    &&& new.key(j) == self.key(j)
                    &&& new.reg(j, COLOR) == self.reg(j, COLOR)
                    &&& new.reg(j, LEFT) == if self.reg(j, LEFT) == g {
                        top
                    } else {
                        self.reg(j, LEFT)
                    }
                    &&& new.reg(j, RIGHT) == if self.reg(j, RIGHT) == g {
                        top
                    } else {
                        self.reg(j, RIGHT)
                    }
                },
        ensures
            new.search_blacks(n, k) == self.search_blacks(n, k),
        decreases self.subtree(n).len(),
    {
        self.lemma_wf_basics();
        self.lemma_sub(n);
        self.lemma_sub(g);
        // `n` lies outside the subtree of `g`
        if self.subtree(g).contains(n) {
            self.lemma_sub_trans(n, g);
            self.lemma_sub_trans(g, n);
            let l = self.left(n);
            let r = self.right(n);
            assert(self.subtree(g).contains(n));
            if self.subtree(l).contains(g) {
                self.lemma_sub_trans(l, g);
                assert(self.subtree(l).contains(n));
            } else {
                assert(self.subtree(r).contains(g));
                self.lemma_sub_trans(r, g);
                assert(self.subtree(r).contains(n));
            }
            assert(false);
        }
        assert(self.subtree(n).contains(n));
        self.lemma_search_blacks(n, k);
        new.lemma_search_blacks(n, k);
        let next = if key_lt(k, self.key(n)) {
            self.left(n)
        } else {
            self.right(n)
        };
        assert(new.key(n) == self.key(n));
        if next == g {
        } else if next != SENTINEL && self.subtree(next).contains(g) {
            self.lemma_sub(next);
            self.lemma_blacks_above(new, g, top, next, k);
        } else {
            assert(self.node_ok(n));
            if next != SENTINEL {
                self.lemma_sub(next);
            }
            assert forall|j: u32| #[trigger] self.subtree(next).contains(j) implies new.reg(j, LEFT)
                == self.reg(j, LEFT) && new.reg(j, RIGHT) == self.reg(j, RIGHT) && new.reg(j, COLOR)
                == self.reg(j, COLOR) && new.key(j) == self.key(j) && new.live().contains(j) by {
                self.lemma_sub_trans(next, j);
                assert(self.subtree(n).contains(j));
                self.lemma_sub(j);
                if self.subtree(g).contains(j) {
                    // then `g` would be in the subtree of `next`, through `j`'s ancestors
                    self.lemma_sub_trans(g, j);
                    let l = self.left(n);
                    let r = self.right(n);
                    assert(self.subtree(l).disjoint(self.subtree(r)));
                    if next == l {
                        assert(self.subtree(r).contains(g) || g == n);
                        self.lemma_sub_trans(r, g);
                        assert(self.subtree(r).contains(j));
                    } else {
                        assert(self.subtree(l).contains(g) || g == n);
                        self.lemma_sub_trans(l, g);
                        assert(self.subtree(l).contains(j));
                    }
                    assert(false);
                }
                if self.reg(j, LEFT) == g {
                    assert(self.subtree(self.left(j)).contains(g));
                    assert(self.subtree(next).contains(g));
                }
                if self.reg(j, RIGHT) == g {
                    assert(self.subtree(self.right(j)).contains(g));
                    assert(self.subtree(next).contains(g));
                }
            }
            self.lemma_blacks_same(new, next, k);
        }
    }

    /// A pass of the insertion fix-up with a red uncle keeps, for every key, the
    /// number of black nodes that a search for it meets from the root, when the
    /// grandparent was black: the grandparent's black moves down to the parent and
    /// the uncle.
    pub proof fn law_red_uncle_pass_keeps_black_counts(
        &self,
        x: u32,
        m1: Self,
        m2: Self,
        t: Self,
        y: u32,
        k: K,
    )
        requires
            self.wf(),
            t.wf(),
            self.live().contains(x),
            !self.insert_fix_done(x),
            self.is_insert_fix_pass(x, m1, m2, t, y),
            self.reg(self.uncle(x), COLOR) == RED,
            self.reg(self.parent(self.parent(x)), COLOR) == BLACK,
        ensures
            t.search_blacks(t.root_node(), k) == self.search_blacks(self.root_node(), k),
    {
        self.lemma_wf_basics();
        let p = self.parent(x);
        let g = self.parent(p);
        let u = self.uncle(x);
        self.allocator.lemma_live();
        assert(self.node_ok(x));
        assert(p != SENTINEL);
        assert(self.live().contains(p));
        assert(self.node_ok(p));
        assert(self.live().contains(g));
        assert(self.node_ok(g));
        self.allocator.lemma_live();
        assert(u != SENTINEL);
        assert(self.live().contains(u));
        assert(t.is_recoloring_of(self, u, BLACK, p, BLACK, g, RED));
        assert(t.live() == self.live());
        assert forall|j: u32| #[trigger] t.subtree(j) == self.subtree(j) by {
        }
        assert forall|j: u32| #[trigger] t.key(j) == self.key(j) || !self.live().contains(j) by {
            self.lemma_wf_basics();
        }
        self.lemma_sub(g);
        self.lemma_sub(p);
        self.lemma_sub(u);
        // the count from `g`
        self.lemma_search_blacks(g, k);
        t.lemma_search_blacks(g, k);
        let c = if key_lt(k, self.key(g)) {
            self.left(g)
        } else {
            self.right(g)
        };
        assert(c == p || c == u);
        self.lemma_search_blacks(c, k);
        t.lemma_search_blacks(c, k);
        let e = if key_lt(k, self.key(c)) {
            self.left(c)
        } else {
            self.right(c)
        };
        self.lemma_sub(c);
        assert(self.node_ok(c));
        if e != SENTINEL {
            self.lemma_sub(e);
        }
        assert forall|j: u32| #[trigger] self.subtree(e).contains(j) implies t.reg(j, LEFT)
            == self.reg(j, LEFT) && t.reg(j, RIGHT) == self.reg(j, RIGHT) && t.reg(j, COLOR)
            == self.reg(j, COLOR) && t.key(j) == self.key(j) by {
            self.lemma_sub_trans(e, j);
            assert(j != g && j != p && j != u);
        }
        self.lemma_blacks_same(&t, e, k);
        assert(t.search_blacks(g, k) == self.search_blacks(g, k));
        // and from the root
        if g != self.root {
            assert(self.subtree(self.root).contains(g));
            assert forall|j: u32| #[trigger]
                self.live().contains(j) && !self.subtree(g).contains(j) implies {
                &&& t.key(j) == self.key(j)
                &&& t.reg(j, COLOR) == self.reg(j, COLOR)
                &&& t.reg(j, LEFT) == if self.reg(j, LEFT) == g {
                    g
                } else {
                    self.reg(j, LEFT)
                }
                &&& t.reg(j, RIGHT) == if self.reg(j, RIGHT) == g {
                    g
                } else {
                    self.reg(j, RIGHT)
                }
            } by {
                assert(self.subtree(g).contains(g));
                assert(self.subtree(g).contains(p));
                assert(self.subtree(g).contains(u));
            }
            self.lemma_blacks_above(&t, g, g, self.root, k);
        }
    }

    /// A pass of the insertion fix-up in the outer case (the uncle not red, and `x`
    /// on the same side of its parent as the parent of the grandparent) keeps, for
    /// every key, the number of black nodes that a search for it meets from the
    /// root, when the grandparent was black: the parent turns black and takes the
    /// grandparent's place, and the grandparent turns red below it. This holds on
    /// either side alike.
    pub proof fn law_outer_pass_keeps_black_counts(
        &self,
        x: u32,
        m1: Self,
        m2: Self,
        t: Self,
        y: u32,
        k: K,
    )
        requires
            self.wf(),
            t.wf(),
            self.live().contains(x),
            !self.insert_fix_done(x),
            self.is_insert_fix_pass(x, m1, m2, t, y),
            self.reg(self.uncle(x), COLOR) != RED,
            (self.left(self.parent(x)) == x) == (self.left(self.parent(self.parent(x)))
                == self.parent(x)),
            self.reg(self.parent(self.parent(x)), COLOR) == BLACK,
        ensures
            t.search_blacks(t.root_node(), k) == self.search_blacks(self.root_node(), k),
    {
        self.lemma_wf_basics();
        self.allocator.lemma_live();
        lemma_key_order::<K>();
        let p = self.parent(x);
        let g = self.parent(p);
        let dir: u32 = if self.left(g) == p {
            LEFT
        } else {
            RIGHT
        };
        let o: u32 = (1 - dir) as u32;
        let u = self.reg(g, o);
        let c = self.reg(p, o);
        let gg = self.parent(g);
        assert(self.node_ok(x));
        assert(p != SENTINEL);
        assert(self.live().contains(p));
        assert(self.node_ok(p));
        assert(self.live().contains(g));
        assert(self.node_ok(g));
        assert(self.reg(p, dir) == x);
        assert(self.reg(g, dir) == p);
        assert(m1 == *self && y == x);
        assert(m2.is_recoloring_of(self, p, BLACK, g, RED, SENTINEL, BLACK));
        assert((1 - o) as u32 == dir);
        assert(m2.reg(g, dir) == p);
        assert(t.is_rotation_of(&m2, g, o));
        self.lemma_sub(g);
        self.lemma_sub(p);
        self.lemma_sub(x);
        if c != SENTINEL {
            self.lemma_sub(c);
        }
        if u != SENTINEL {
            self.lemma_sub(u);
        }
        assert(self.live().contains(u) || u == SENTINEL);
        assert(self.live().contains(c) || c == SENTINEL);
        assert(t.live() == self.live());
        assert(m2.live() == self.live());
        // the links of the moved nodes
        assert(t.reg(p, dir) == x);
        assert(t.reg(p, o) == g);
        assert(t.reg(g, dir) == c);
        assert(t.reg(g, o) == u);
        assert(t.reg(p, COLOR) == BLACK);
        assert(t.reg(g, COLOR) == RED);
        assert(self.reg(p, COLOR) == RED);
        assert forall|j: u32| #[trigger] self.live().contains(j) implies t.key(j) == self.key(j) by {
        }
        // the subtrees that do not move count alike
        if gg != SENTINEL {
            self.lemma_parent_outside(g);
        }
        assert(!self.subtree(p).contains(g));
        assert(!self.subtree(c).contains(p));
        assert(!self.subtree(u).contains(g));
        assert(self.subtree(p).contains(p));
        assert(self.subtree(u).disjoint(self.subtree(p)));
        assert(self.subtree(c).subset_of(self.subtree(p)));
        assert(self.subtree(p).subset_of(self.subtree(g)));
        assert(self.subtree(u).subset_of(self.subtree(g)));

        assert forall|j: u32| #[trigger] self.subtree(x).contains(j) implies t.reg(j, LEFT)
            == self.reg(j, LEFT) && t.reg(j, RIGHT) == self.reg(j, RIGHT) && t.reg(j, COLOR)
            == self.reg(j, COLOR) && t.key(j) == self.key(j) by {
            self.lemma_sub_trans(x, j);
            assert(j != g && j != p && j != gg);
        }
        self.lemma_blacks_same(&t, x, k);
        assert forall|j: u32| #[trigger] self.subtree(c).contains(j) implies t.reg(j, LEFT)
            == self.reg(j, LEFT) && t.reg(j, RIGHT) == self.reg(j, RIGHT) && t.reg(j, COLOR)
            == self.reg(j, COLOR) && t.key(j) == self.key(j) by {
            self.lemma_sub_trans(c, j);
            assert(j != g && j != p && j != gg);
        }
        self.lemma_blacks_same(&t, c, k);
        assert forall|j: u32| #[trigger] self.subtree(u).contains(j) implies t.reg(j, LEFT)
            == self.reg(j, LEFT) && t.reg(j, RIGHT) == self.reg(j, RIGHT) && t.reg(j, COLOR)
            == self.reg(j, COLOR) && t.key(j) == self.key(j) by {
            self.lemma_sub_trans(u, j);
            assert(j != g && j != p && j != gg);
        }
        self.lemma_blacks_same(&t, u, k);
        // the count from the grandparent's place
        self.lemma_search_blacks(g, k);
        self.lemma_search_blacks(p, k);
        t.lemma_search_blacks(p, k);
        t.lemma_search_blacks(g, k);
        assert(self.subtree(self.reg(g, dir)).contains(p));
        if dir == LEFT {
            assert(key_lt(self.key(p), self.key(g)));
        } else {
            assert(key_lt(self.key(g), self.key(p)));
        }
        assert(t.search_blacks(p, k) == self.search_blacks(g, k));
        // and from the root
        if g == self.root {
            assert(t.root == p);
        } else {
            assert(t.root == self.root);
            assert(self.subtree(self.root).contains(g));
            assert forall|j: u32| #[trigger]
                self.live().contains(j) && !self.subtree(g).contains(j) implies {
                &&& t.key(j) == self.key(j)
                &&& t.reg(j, COLOR) == self.reg(j, COLOR)
                &&& t.reg(j, LEFT) == if self.reg(j, LEFT) == g {
                    p
                } else {
                    self.reg(j, LEFT)
                }
                &&& t.reg(j, RIGHT) == if self.reg(j, RIGHT) == g {
                    p
                } else {
                    self.reg(j, RIGHT)
                }
            } by {
                assert(self.subtree(g).contains(g));
                assert(self.subtree(g).contains(p));
                if c != SENTINEL {
                    assert(self.subtree(p).contains(c));
                }
                assert(j != g && j != p && j != c);
                assert(t.reg(j, LEFT) == m2.rot_reg(g, o, j, LEFT));
                assert(t.reg(j, RIGHT) == m2.rot_reg(g, o, j, RIGHT));
                assert(t.reg(j, COLOR) == m2.rot_reg(g, o, j, COLOR));
                assert(m2.reg(j, LEFT) == self.reg(j, LEFT));
                assert(m2.reg(j, RIGHT) == self.reg(j, RIGHT));
                assert(m2.reg(j, COLOR) == self.reg(j, COLOR));
                assert(m2.parent(g) == gg);
                assert(self.node_ok(j));
                if self.reg(j, LEFT) == g || self.reg(j, RIGHT) == g {
                    assert(j == gg);
                }
                if j == gg {
                    assert(self.node_ok(gg));
                    assert(self.left(gg) == g || self.right(gg) == g);
                    if self.left(gg) == g {
                        assert(self.subtree(self.left(gg)).contains(g));
                        assert(self.right(gg) != g);
                    }
                }
                assert(t.key(j) == self.key(j));
                assert(t.reg(j, COLOR) == self.reg(j, COLOR));
                assert(t.reg(j, LEFT) == if self.reg(j, LEFT) == g {
                    p
                } else {
                    self.reg(j, LEFT)
                });
                assert(t.reg(j, RIGHT) == if self.reg(j, RIGHT) == g {
                    p
                } else {
                    self.reg(j, RIGHT)
                });
            }
            self.lemma_blacks_above(&t, g, p, self.root, k);
        }
    }

    /// Removing a node `z` with two children whose successor `m` (the node of least
    /// key in its right subtree) is red keeps, for every key outside the gap between
    /// the keys of `z` and `m`, the number of black nodes that a search for it meets
    /// from the root: `m` takes `z`'s place and color, and losing a red node from
    /// its old place loses no black.
    pub proof fn law_remove_red_successor_keeps_black_counts(
        &self,
        new: &Self,
        z: u32,
        m: u32,
        k: K,
    )
        requires
            self.wf(),
            new.wf(),
            new.is_removal_of(self, z),
            self.is_successor(z, m),
            self.reg(m, COLOR) == RED,
            key_lt(k, self.key(z)) || key_le(self.key(m), k),
        ensures
            new.search_blacks(new.root_node(), k) == self.search_blacks(self.root_node(), k),
    {
        self.lemma_wf_basics();
        self.lemma_map();
        self.allocator.lemma_live();
        lemma_key_order::<K>();
        self.lemma_successor_facts(z, m);
        let l = self.left(z);
        let r = self.right(z);
        let pz = self.parent(z);
        let mc = self.right(m);
        let pm = self.parent(m);
        // the removal is the replacement of `z` by `m`, with no fix-up after it
        let (mid, m2, c) = choose|mid: Self, m2: u32, c: u32|
            #[trigger] mid.is_unlinking_of(self, z, m2, c) && if self.reg(m2, COLOR) == BLACK && c
                != SENTINEL {
                new.is_remove_fix_of(&mid, c)
            } else {
                *new == mid
            };
        assert(self.is_successor(z, m2));
        assert(key_le(self.key(m), self.key(m2)));
        assert(key_le(self.key(m2), self.key(m)));
        assert(self.key(m2) == self.key(m));
        assert(m2 == m);
        assert(*new == mid);
        assert(new.is_replacement_of(self, z, m));
        assert forall|j: u32, q: u32| #[trigger] new.reg(j, q) == self.replaced_reg(z, m, j, q) by {
        }
        assert(new.live() == self.live().remove(z));
        assert forall|j: u32| #[trigger] self.live().contains(j) implies new.key(j) == self.key(j) by {
        }
        assert(self.subtree(z).contains(z));
        assert(self.subtree(r).contains(m));
        if mc != SENTINEL {
            self.lemma_sub(mc);
        }
        self.lemma_sub(l);
        self.lemma_sub(r);
        self.lemma_sub(m);
        // searches below `m`'s old place are unchanged
        assert forall|j: u32| #[trigger] self.subtree(mc).contains(j) implies new.reg(j, LEFT)
            == self.reg(j, LEFT) && new.reg(j, RIGHT) == self.reg(j, RIGHT) && new.reg(j, COLOR)
            == self.reg(j, COLOR) && new.key(j) == self.key(j) && new.live().contains(j) by {
            self.lemma_sub_trans(mc, j);
            assert(self.subtree(m).contains(j));
            assert(self.subtree(r).contains(j));
            assert(j != z && j != m && j != l && j != pz);
            if pz != SENTINEL {
                assert(!self.subtree(z).contains(pz));
            }
            assert(self.subtree(z).contains(j));
        }
        self.lemma_blacks_same(new, mc, k);
        // searches into the left subtree are unchanged
        assert forall|j: u32| #[trigger] self.subtree(l).contains(j) implies new.reg(j, LEFT)
            == self.reg(j, LEFT) && new.reg(j, RIGHT) == self.reg(j, RIGHT) && new.reg(j, COLOR)
            == self.reg(j, COLOR) && new.key(j) == self.key(j) && new.live().contains(j) by {
            self.lemma_sub_trans(l, j);
            assert(!self.subtree(r).contains(j));
            assert(j != z && j != m && j != r && j != mc && j != pm);
            if pz != SENTINEL {
                assert(!self.subtree(z).contains(pz));
            }
            assert(self.subtree(z).contains(j));
        }
        self.lemma_blacks_same(new, l, k);
        // the count from `z`'s place
        self.lemma_search_blacks(z, k);
        new.lemma_search_blacks(m, k);
        self.lemma_search_blacks(m, k);
        assert(new.reg(m, COLOR) == self.reg(z, COLOR));
        assert(new.key(m) == self.key(m));
        if key_lt(k, self.key(z)) {
            assert(key_lt(k, self.key(m)));
        } else {
            assert(!key_lt(k, self.key(m)));
            assert(!key_lt(k, self.key(z)));
            if m != r {
                self.lemma_search_blacks(r, k);
                assert(self.search_blacks(m, k) == self.search_blacks(mc, k));
                assert forall|j: u32| #[trigger]
                    self.subtree(r).contains(j) && !self.subtree(m).contains(j) implies {
                    &&& new.live().contains(j)
                    &&& new.key(j) == self.key(j)
                    &&& new.reg(j, COLOR) == self.reg(j, COLOR)
                    &&& new.reg(j, LEFT) == if self.reg(j, LEFT) == m {
                        mc
                    } else {
                        self.reg(j, LEFT)
                    }
                    &&& new.reg(j, RIGHT) == if self.reg(j, RIGHT) == m {
                        mc
                    } else {
                        self.reg(j, RIGHT)
                    }
                } by {
                    self.lemma_sub_trans(r, j);
                    assert(j != z && j != m && j != l);
                    if mc != SENTINEL {
                        assert(self.subtree(m).contains(mc));
                    }
                    assert(j != mc);
                    if pz != SENTINEL {
                        assert(!self.subtree(z).contains(pz));
                        assert(self.subtree(z).contains(j));
                    }
                    assert(self.node_ok(j));
                    if self.reg(j, LEFT) == m || self.reg(j, RIGHT) == m {
                        assert(j == pm);
                    }
                    if j == pm {
                        assert(self.left(pm) == m);
                        assert(self.subtree(self.left(pm)).contains(m));
                        assert(self.right(pm) != m);
                    }
                }
                self.lemma_blacks_above(new, m, mc, r, k);
                assert(new.reg(m, RIGHT) == r);
            } else {
                assert(new.reg(m, RIGHT) == mc);
            }
        }
        assert(new.search_blacks(m, k) == self.search_blacks(z, k));
        // and from the root
        if pz == SENTINEL {
            assert(z == self.root);
            assert(new.root == m);
        } else {
            assert(new.root == self.root);
            assert(self.subtree(self.root).contains(z));
            assert(z != self.root) by {
                self.lemma_search_tree(z, z);
            }
            assert forall|j: u32| #[trigger]
                self.subtree(self.root).contains(j) && !self.subtree(z).contains(j) implies {
                &&& new.live().contains(j)
                &&& new.key(j) == self.key(j)
                &&& new.reg(j, COLOR) == self.reg(j, COLOR)
                &&& new.reg(j, LEFT) == if self.reg(j, LEFT) == z {
                    m
                } else {
                    self.reg(j, LEFT)
                }
                &&& new.reg(j, RIGHT) == if self.reg(j, RIGHT) == z {
                    m
                } else {
                    self.reg(j, RIGHT)
                }
            } by {
                self.lemma_sub_trans(self.root, j);
                assert(j != z && j != m && j != l && j != r && j != mc && j != pm);
                assert(self.node_ok(j));
                if self.reg(j, LEFT) == z || self.reg(j, RIGHT) == z {
                    assert(j == pz);
                }
                if j == pz {
                    if self.left(pz) == z {
                        assert(self.subtree(self.left(pz)).contains(z));
                        assert(self.right(pz) != z);
                    }
                }
            }
            self.lemma_blacks_above(new, z, m, self.root, k);
        }
    }

    /// Linking a new node in as a red leaf keeps, for every key, the number of black
    /// nodes that a search for it meets from the root.
    pub proof fn law_new_red_leaf_keeps_black_counts(
        &self,
        new: &Self,
        x: u32,
        n: u32,
        dir: u32,
        key: K,
        value: V,
        k: K,
    )
        requires
            self.wf(),
            new.wf(),
            new.is_linked_leaf(self, x, n, dir, key, value),
            self.is_leaf_place(x, dir, key),
            !self.live().contains(n),
            n != SENTINEL,
        ensures
            new.search_blacks(new.root_node(), k) == self.search_blacks(self.root_node(), k),
    {
        self.lemma_wf_basics();
        new.lemma_wf_basics();
        self.allocator.lemma_live();
        self.lemma_sub(x);
        assert(new.live().contains(n));
        assert(new.live().contains(x));
        assert forall|j: u32| #[trigger] self.live().contains(j) implies new.key(j) == self.key(j)
            && new.live().contains(j) by {
        }
        // the count from `x`
        self.lemma_search_blacks(x, k);
        new.lemma_search_blacks(x, k);
        new.lemma_search_blacks(n, k);
        new.lemma_search_blacks(SENTINEL, k);
        assert(new.reg(n, LEFT) == 0 && new.reg(n, RIGHT) == 0);
        assert(new.reg(n, COLOR) == RED);
        let other = self.reg(x, (1 - dir) as u32);
        assert(self.node_ok(x));
        if other != SENTINEL {
            self.lemma_sub(other);
        }
        assert forall|j: u32| #[trigger] self.subtree(other).contains(j) implies new.reg(j, LEFT)
            == self.reg(j, LEFT) && new.reg(j, RIGHT) == self.reg(j, RIGHT) && new.reg(j, COLOR)
            == self.reg(j, COLOR) && new.key(j) == self.key(j) && new.live().contains(j) by {
            self.lemma_sub_trans(other, j);
            assert(j != x);
            assert(j != n);
        }
        self.lemma_blacks_same(new, other, k);
        assert(new.search_blacks(x, k) == self.search_blacks(x, k));
        // and from the root
        if x != self.root {
            assert(self.subtree(self.root).contains(x));
            assert forall|j: u32| #[trigger]
                self.subtree(self.root).contains(j) && !self.subtree(x).contains(j) implies {
                &&& new.live().contains(j)
                &&& new.key(j) == self.key(j)
                &&& new.reg(j, COLOR) == self.reg(j, COLOR)
                &&& new.reg(j, LEFT) == if self.reg(j, LEFT) == x {
                    x
                } else {
                    self.reg(j, LEFT)
                }
                &&& new.reg(j, RIGHT) == if self.reg(j, RIGHT) == x {
                    x
                } else {
                    self.reg(j, RIGHT)
                }
            } by {
                self.lemma_sub_trans(self.root, j);
                assert(j != x && j != n);
            }
            self.lemma_blacks_above(new, x, x, self.root, k);
        }
    }

    /// The last pass of the removal fix-up at a black node `x` that is the left child
    /// of its parent `p`, whose sibling `s` (the right child of `p`) is black and has
    /// a red right child: `s` takes `p`'s place and color, `p` turns black below it
    /// on `x`'s side, and the right child of `s` turns black. A search from `p`'s
    /// place then meets one black node more when it goes towards `x` (its key is
    /// below that of `p`) and as many as before otherwise; so a search for a key not
    /// below that of `p` meets as many black nodes from the root as before.
    pub proof fn law_remove_rotation_pass_black_counts(
        &self,
        x: u32,
        m: (Self, Self, Self, Self, Self),
        t: Self,
        y: u32,
        k: K,
    )
        requires
            self.wf(),
            t.wf(),
            self.live().contains(x),
            !self.remove_fix_done(x),
            self.is_remove_fix_pass(x, m, t, y),
            self.left(self.parent(x)) == x,
            self.reg(self.right(self.parent(x)), COLOR) == BLACK,
            self.reg(self.right(self.right(self.parent(x))), COLOR) == RED,
        ensures
            t.search_blacks(self.right(self.parent(x)), k) == self.search_blacks(self.parent(x), k)
                + if key_lt(k, self.key(self.parent(x))) {
                1nat
            } else {
                0nat
            },
            !key_lt(k, self.key(self.parent(x))) ==> t.search_blacks(t.root_node(), k)
                == self.search_blacks(self.root_node(), k),
    {
        self.lemma_wf_basics();
        self.allocator.lemma_live();
        lemma_key_order::<K>();
        let p = self.parent(x);
        let s = self.right(p);
        let sl = self.left(s);
        let sr = self.right(s);
        let g = self.parent(p);
        let (m1, m2, m3, m4, m5) = m;
        assert(self.node_ok(x));
        assert(x != self.root);
        assert(p != SENTINEL);
        assert(self.live().contains(p));
        assert(self.node_ok(p));
        assert(sr != SENTINEL);
        assert(s != SENTINEL);
        assert(self.live().contains(s));
        assert(self.node_ok(s));
        assert(self.live().contains(sr));
        assert(self.node_ok(sr));
        let srl = self.left(sr);
        let srr = self.right(sr);
        // the pass: no first rotation, and the terminal case without the inner step
        assert(m1 == *self && m2 == *self);
        assert(m3 == m2 && m4 == m2);
        let cp: u32 = if self.reg(p, COLOR) == RED {
            RED
        } else {
            BLACK
        };
        assert(cp == self.reg(p, COLOR));
        assert(m5.is_recoloring_of(self, s, cp, p, BLACK, sr, BLACK));
        m5.lemma_recoloring(self, s, cp, p, BLACK, sr, BLACK);
        assert(m5.reg(p, RIGHT) == s);
        assert(t.is_rotation_of(&m5, p, LEFT));
        self.lemma_sub(p);
        self.lemma_sub(s);
        self.lemma_sub(sr);
        self.lemma_sub(x);
        if sl != SENTINEL {
            self.lemma_sub(sl);
        }
        if srl != SENTINEL {
            self.lemma_sub(srl);
        }
        if srr != SENTINEL {
            self.lemma_sub(srr);
        }
        assert(t.live() == self.live());
        assert forall|j: u32| #[trigger] self.live().contains(j) implies t.key(j) == self.key(j) by {
        }
        // the links and colors of the moved nodes
        assert(t.reg(s, LEFT) == p);
        assert(t.reg(s, RIGHT) == sr);
        assert(t.reg(p, LEFT) == x);
        assert(t.reg(p, RIGHT) == sl);
        assert(t.reg(sr, LEFT) == srl);
        assert(t.reg(sr, RIGHT) == srr);
        assert(t.reg(s, COLOR) == self.reg(p, COLOR));
        assert(t.reg(p, COLOR) == BLACK);
        assert(t.reg(sr, COLOR) == BLACK);
        // the subtrees that do not move count alike
        if g != SENTINEL {
            self.lemma_parent_outside(p);
        }
        assert(self.subtree(p).contains(s));
        assert(self.subtree(s).contains(sr));
        assert(!self.subtree(x).contains(p));
        assert(!self.subtree(s).contains(p));
        assert(!self.subtree(sl).contains(s));
        assert(!self.subtree(sr).contains(s));
        assert(!self.subtree(srl).contains(sr));
        assert(!self.subtree(srr).contains(sr));
        assert(self.subtree(x).disjoint(self.subtree(s)));
        assert(self.subtree(sl).disjoint(self.subtree(sr)));
        assert forall|j: u32| #[trigger] self.subtree(x).contains(j) implies t.reg(j, LEFT)
            == self.reg(j, LEFT) && t.reg(j, RIGHT) == self.reg(j, RIGHT) && t.reg(j, COLOR)
            == self.reg(j, COLOR) && t.key(j) == self.key(j) && t.live().contains(j) by {
            self.lemma_sub_trans(x, j);
            assert(j != p && j != s && j != sr && j != g);
        }
        self.lemma_blacks_same(&t, x, k);
        assert forall|j: u32| #[trigger] self.subtree(sl).contains(j) implies t.reg(j, LEFT)
            == self.reg(j, LEFT) && t.reg(j, RIGHT) == self.reg(j, RIGHT) && t.reg(j, COLOR)
            == self.reg(j, COLOR) && t.key(j) == self.key(j) && t.live().contains(j) by {
            self.lemma_sub_trans(sl, j);
            assert(j != p && j != s && j != sr && j != g);
        }
        self.lemma_blacks_same(&t, sl, k);
        assert forall|j: u32| #[trigger] self.subtree(srl).contains(j) implies t.reg(j, LEFT)
            == self.reg(j, LEFT) && t.reg(j, RIGHT) == self.reg(j, RIGHT) && t.reg(j, COLOR)
            == self.reg(j, COLOR) && t.key(j) == self.key(j) && t.live().contains(j) by {
            self.lemma_sub_trans(srl, j);
            assert(j != p && j != s && j != sr && j != g);
        }
        self.lemma_blacks_same(&t, srl, k);
        assert forall|j: u32| #[trigger] self.subtree(srr).contains(j) implies t.reg(j, LEFT)
            == self.reg(j, LEFT) && t.reg(j, RIGHT) == self.reg(j, RIGHT) && t.reg(j, COLOR)
            == self.reg(j, COLOR) && t.key(j) == self.key(j) && t.live().contains(j) by {
            self.lemma_sub_trans(srr, j);
            assert(j != p && j != s && j != sr && j != g);
        }
        self.lemma_blacks_same(&t, srr, k);
        // the count from `p`'s place
        self.lemma_search_blacks(p, k);
        self.lemma_search_blacks(s, k);
        self.lemma_search_blacks(sr, k);
        t.lemma_search_blacks(s, k);
        t.lemma_search_blacks(p, k);
        t.lemma_search_blacks(sr, k);
        assert(key_lt(self.key(p), self.key(s)));
        assert(key_lt(self.key(s), self.key(sr)));
        assert(t.search_blacks(s, k) == self.search_blacks(p, k) + if key_lt(k, self.key(p)) {
            1nat
        } else {
            0nat
        });
        // and from the root
        if !key_lt(k, self.key(p)) {
            if g == SENTINEL {
                assert(p == self.root);
                assert(t.root == s);
            } else {
                assert(t.root == self.root);
                assert(self.subtree(self.root).contains(p));
                assert(self.root != p);
                assert forall|j: u32| #[trigger]
                    self.subtree(self.root).contains(j) && !self.subtree(p).contains(j) implies {
                    &&& t.live().contains(j)
                    &&& t.key(j) == self.key(j)
                    &&& t.reg(j, COLOR) == self.reg(j, COLOR)
                    &&& t.reg(j, LEFT) == if self.reg(j, LEFT) == p {
                        s
                    } else {
                        self.reg(j, LEFT)
                    }
                    &&& t.reg(j, RIGHT) == if self.reg(j, RIGHT) == p {
                        s
                    } else {
                        self.reg(j, RIGHT)
                    }
                } by {
                    assert(j != p && j != s && j != sr && j != sl && j != x);
                    assert(self.node_ok(j));
                    if self.reg(j, LEFT) == p || self.reg(j, RIGHT) == p {
                        assert(j == g);
                    }
                    if j == g {
                        assert(self.node_ok(g));
                        if self.left(g) == p {
                            assert(self.subtree(self.left(g)).contains(p));
                            assert(self.right(g) != p);
                        }
                    }
                }
                self.lemma_blacks_above(&t, p, s, self.root, k);
            }
        }
    }

    /// A pass of the removal fix-up at a black node `x` whose sibling is a black node
    /// with two black children: the sibling turns red. A search from the parent of
    /// `x` then meets one black node fewer when it goes towards the sibling and as
    /// many as before when it goes towards `x`; so a search for a key on `x`'s side
    /// meets as many black nodes from the root as before. This holds on either side
    /// alike.
    pub proof fn law_remove_recolor_pass_black_counts(
        &self,
        x: u32,
        m: (Self, Self, Self, Self, Self),
        t: Self,
        y: u32,
        k: K,
    )
        requires
            self.wf(),
            t.wf(),
            self.live().contains(x),
            !self.remove_fix_done(x),
            self.is_remove_fix_pass(x, m, t, y),
            self.sibling(x) != SENTINEL,
            self.reg(self.sibling(x), COLOR) == BLACK,
            self.reg(self.left(self.sibling(x)), COLOR) == BLACK,
            self.reg(self.right(self.sibling(x)), COLOR) == BLACK,
        ensures
            t.search_blacks(self.parent(x), k) + (if key_lt(k, self.key(self.parent(x)))
                == (self.left(self.parent(x)) == x) {
                0nat
            } else {
                1nat
            }) == self.search_blacks(self.parent(x), k),
            key_lt(k, self.key(self.parent(x))) == (self.left(self.parent(x)) == x)
                ==> t.search_blacks(t.root_node(), k) == self.search_blacks(self.root_node(), k),
    {
        self.lemma_wf_basics();
        self.allocator.lemma_live();
        lemma_key_order::<K>();
        let p = self.parent(x);
        let s = self.sibling(x);
        let g = self.parent(p);
        let (m1, m2, m3, m4, m5) = m;
        assert(self.node_ok(x));
        assert(x != self.root);
        assert(p != SENTINEL);
        assert(self.live().contains(p));
        assert(self.node_ok(p));
        assert(self.live().contains(s));
        assert(self.node_ok(s));
        assert(self.left(p) == x ==> self.right(p) == s);
        assert(self.left(p) != x ==> self.right(p) == x && self.left(p) == s);
        let sl = self.left(s);
        let sr = self.right(s);
        // the pass: no rotation, and the sibling turns red
        assert(m1 == *self && m2 == *self);
        assert(t.is_recoloring_of(self, s, RED, SENTINEL, BLACK, SENTINEL, BLACK));
        t.lemma_recoloring(self, s, RED, SENTINEL, BLACK, SENTINEL, BLACK);
        self.lemma_sub(p);
        self.lemma_sub(s);
        self.lemma_sub(x);
        if sl != SENTINEL {
            self.lemma_sub(sl);
        }
        if sr != SENTINEL {
            self.lemma_sub(sr);
        }
        assert(t.live() == self.live());
        assert forall|j: u32| #[trigger] self.live().contains(j) implies t.key(j) == self.key(j) by {
        }
        assert(!self.subtree(x).contains(s));
        assert(!self.subtree(sl).contains(s));
        assert(!self.subtree(sr).contains(s));
        assert forall|j: u32| #[trigger] self.subtree(x).contains(j) implies t.reg(j, LEFT)
            == self.reg(j, LEFT) && t.reg(j, RIGHT) == self.reg(j, RIGHT) && t.reg(j, COLOR)
            == self.reg(j, COLOR) && t.key(j) == self.key(j) && t.live().contains(j) by {
            assert(j != s);
        }
        self.lemma_blacks_same(&t, x, k);
        assert forall|j: u32| #[trigger] self.subtree(sl).contains(j) implies t.reg(j, LEFT)
            == self.reg(j, LEFT) && t.reg(j, RIGHT) == self.reg(j, RIGHT) && t.reg(j, COLOR)
            == self.reg(j, COLOR) && t.key(j) == self.key(j) && t.live().contains(j) by {
            assert(j != s);
        }
        self.lemma_blacks_same(&t, sl, k);
        assert forall|j: u32| #[trigger] self.subtree(sr).contains(j) implies t.reg(j, LEFT)
            == self.reg(j, LEFT) && t.reg(j, RIGHT) == self.reg(j, RIGHT) && t.reg(j, COLOR)
            == self.reg(j, COLOR) && t.key(j) == self.key(j) && t.live().contains(j) by {
            assert(j != s);
        }
        self.lemma_blacks_same(&t, sr, k);
        // the count from the parent
        self.lemma_search_blacks(p, k);
        self.lemma_search_blacks(s, k);
        t.lemma_search_blacks(p, k);
        t.lemma_search_blacks(s, k);
        assert(t.reg(s, COLOR) == RED);
        assert(p != s);
        assert(t.reg(p, COLOR) == self.reg(p, COLOR));
        // and from the root
        if key_lt(k, self.key(p)) == (self.left(p) == x) {
            assert(t.search_blacks(p, k) == self.search_blacks(p, k));
            if g == SENTINEL {
                assert(p == self.root);
            } else {
                self.lemma_parent_outside(p);
                assert(self.subtree(self.root).contains(p));
                assert(self.root != p);
                assert forall|j: u32| #[trigger]
                    self.subtree(self.root).contains(j) && !self.subtree(p).contains(j) implies {
                    &&& t.live().contains(j)
                    &&& t.key(j) == self.key(j)
                    &&& t.reg(j, COLOR) == self.reg(j, COLOR)
                    &&& t.reg(j, LEFT) == if self.reg(j, LEFT) == p {
                        p
                    } else {
                        self.reg(j, LEFT)
                    }
                    &&& t.reg(j, RIGHT) == if self.reg(j, RIGHT) == p {
                        p
                    } else {
                        self.reg(j, RIGHT)
                    }
                } by {
                    assert(self.subtree(p).contains(s));
                    assert(j != s);
                }
                self.lemma_blacks_above(&t, p, p, self.root, k);
            }
        }
    }

    /// The first step of a pass of the removal fix-up at a black node `x` whose
    /// sibling `s` is red and whose parent `p` is black: `s` turns black and `p` red,
    /// and the tree is rotated at `p` towards `x`'s side, so that `s` takes `p`'s
    /// place. That step keeps, for every key, the number of black nodes that a
    /// search for it meets from the root. This holds on either side alike.
    pub proof fn law_remove_red_sibling_step_keeps_black_counts(
        &self,
        x: u32,
        m: (Self, Self, Self, Self, Self),
        t: Self,
        y: u32,
        k: K,
    )
        requires
            self.wf(),
            m.1.wf(),
            self.live().contains(x),
            !self.remove_fix_done(x),
            self.is_remove_fix_pass(x, m, t, y),
            self.reg(self.sibling(x), COLOR) == RED,
            self.reg(self.parent(x), COLOR) == BLACK,
        ensures
            m.1.search_blacks(m.1.root_node(), k) == self.search_blacks(self.root_node(), k),
    {
        self.lemma_wf_basics();
        self.allocator.lemma_live();
        lemma_key_order::<K>();
        let mt = m.1;
        let p = self.parent(x);
        let s = self.sibling(x);
        let g = self.parent(p);
        let dir: u32 = if self.left(p) == x {
            LEFT
        } else {
            RIGHT
        };
        let o: u32 = (1 - dir) as u32;
        assert(self.node_ok(x));
        assert(x != self.root);
        assert(p != SENTINEL);
        assert(self.live().contains(p));
        assert(self.node_ok(p));
        assert(self.reg(p, dir) == x);
        assert(self.reg(p, o) == s);
        assert(s != SENTINEL);
        assert(self.live().contains(s));
        assert(self.node_ok(s));
        let c = self.reg(s, dir);
        let b = self.reg(s, o);
        // the step: recolor, then rotate at `p`
        assert(m.0.is_recoloring_of(self, s, BLACK, p, RED, SENTINEL, BLACK));
        m.0.lemma_recoloring(self, s, BLACK, p, RED, SENTINEL, BLACK);
        assert(m.0.reg(p, o) == s);
        assert((1 - dir) as u32 == o);
        assert(mt.is_rotation_of(&m.0, p, dir));
        self.lemma_sub(p);
        self.lemma_sub(s);
        self.lemma_sub(x);
        if c != SENTINEL {
            self.lemma_sub(c);
        }
        if b != SENTINEL {
            self.lemma_sub(b);
        }
        assert(mt.live() == self.live());
        assert forall|j: u32| #[trigger] self.live().contains(j) implies mt.key(j) == self.key(j) by {
        }
        // the links and colors of the moved nodes
        assert(mt.reg(s, dir) == p);
        assert(mt.reg(s, o) == b);
        assert(mt.reg(p, dir) == x);
        assert(mt.reg(p, o) == c);
        assert(mt.reg(s, COLOR) == BLACK);
        assert(mt.reg(p, COLOR) == RED);
        // the subtrees that do not move count alike
        if g != SENTINEL {
            self.lemma_parent_outside(p);
        }
        assert(self.subtree(p).contains(s));
        assert(!self.subtree(x).contains(p));
        assert(!self.subtree(s).contains(p));
        assert(!self.subtree(c).contains(s));
        assert(!self.subtree(b).contains(s));
        assert(self.subtree(x).disjoint(self.subtree(s)));
        assert forall|j: u32| #[trigger] self.subtree(x).contains(j) implies mt.reg(j, LEFT)
            == self.reg(j, LEFT) && mt.reg(j, RIGHT) == self.reg(j, RIGHT) && mt.reg(j, COLOR)
            == self.reg(j, COLOR) && mt.key(j) == self.key(j) && mt.live().contains(j) by {
            self.lemma_sub_trans(x, j);
            assert(j != p && j != s && j != g);
        }
        self.lemma_blacks_same(&mt, x, k);
        assert forall|j: u32| #[trigger] self.subtree(c).contains(j) implies mt.reg(j, LEFT)
            == self.reg(j, LEFT) && mt.reg(j, RIGHT) == self.reg(j, RIGHT) && mt.reg(j, COLOR)
            == self.reg(j, COLOR) && mt.key(j) == self.key(j) && mt.live().contains(j) by {
            self.lemma_sub_trans(c, j);
            assert(j != p && j != s && j != g);
        }
        self.lemma_blacks_same(&mt, c, k);
        assert forall|j: u32| #[trigger] self.subtree(b).contains(j) implies mt.reg(j, LEFT)
            == self.reg(j, LEFT) && mt.reg(j, RIGHT) == self.reg(j, RIGHT) && mt.reg(j, COLOR)
            == self.reg(j, COLOR) && mt.key(j) == self.key(j) && mt.live().contains(j) by {
            self.lemma_sub_trans(b, j);
            assert(j != p && j != s && j != g);
        }
        self.lemma_blacks_same(&mt, b, k);
        // the count from `p`'s place
        self.lemma_search_blacks(p, k);
        self.lemma_search_blacks(s, k);
        mt.lemma_search_blacks(s, k);
        mt.lemma_search_blacks(p, k);
        if dir == LEFT {
            assert(key_lt(self.key(p), self.key(s)));
        } else {
            assert(key_lt(self.key(s), self.key(p)));
        }
        assert(mt.search_blacks(s, k) == self.search_blacks(p, k));
        // and from the root
        if g == SENTINEL {
            assert(p == self.root);
            assert(mt.root == s);
        } else {
            assert(mt.root == self.root);
            assert(self.subtree(self.root).contains(p));
            assert(self.root != p);
            assert forall|j: u32| #[trigger]
                self.subtree(self.root).contains(j) && !self.subtree(p).contains(j) implies {
                &&& mt.live().contains(j)
                &&& mt.key(j) == self.key(j)
                &&& mt.reg(j, COLOR) == self.reg(j, COLOR)
                &&& mt.reg(j, LEFT) == if self.reg(j, LEFT) == p {
                    s
                } else {
                    self.reg(j, LEFT)
                }
                &&& mt.reg(j, RIGHT) == if self.reg(j, RIGHT) == p {
                    s
                } else {
                    self.reg(j, RIGHT)
                }
            } by {
                assert(j != p && j != s && j != x);
                if c != SENTINEL {
                    assert(self.subtree(s).contains(c));
                }
                assert(j != c);
                assert(self.node_ok(j));
                if self.reg(j, LEFT) == p || self.reg(j, RIGHT) == p {
                    assert(j == g);
                }
                if j == g {
                    assert(self.node_ok(g));
                    if self.left(g) == p {
                        assert(self.subtree(self.left(g)).contains(p));
                        assert(self.right(g) != p);
                    }
                }
            }
            self.lemma_blacks_above(&mt, p, s, self.root, k);
        }
    }

    /// The inner step of the last pass of the removal fix-up at a black node `x`
    /// that is the left child of its parent, whose sibling `s` is black with a red
    /// left child and a black right child: that left child turns black and `s` red,
    /// and the tree is rotated at `s` away from `x`'s side, so that the former left
    /// child of `s` takes its place. That step keeps, for every key, the number of
    /// black nodes that a search for it meets from the root.
    pub proof fn law_remove_inner_step_keeps_black_counts(
        &self,
        x: u32,
        m: (Self, Self, Self, Self, Self),
        t: Self,
        y: u32,
        k: K,
    )
        requires
            self.wf(),
            m.3.wf(),
            self.live().contains(x),
            !self.remove_fix_done(x),
            self.is_remove_fix_pass(x, m, t, y),
            self.left(self.parent(x)) == x,
            self.reg(self.sibling(x), COLOR) == BLACK,
            self.reg(self.left(self.sibling(x)), COLOR) == RED,
            self.reg(self.right(self.sibling(x)), COLOR) == BLACK,
        ensures
            m.3.search_blacks(m.3.root_node(), k) == self.search_blacks(self.root_node(), k),
    {
        self.lemma_wf_basics();
        self.allocator.lemma_live();
        lemma_key_order::<K>();
        let mt = m.3;
        let p = self.parent(x);
        let w = self.sibling(x);
        assert(self.node_ok(x));
        assert(x != self.root);
        assert(p != SENTINEL);
        assert(self.live().contains(p));
        assert(self.node_ok(p));
        assert(self.right(p) == w);
        let wl = self.left(w);
        assert(wl != SENTINEL);
        assert(w != SENTINEL);
        assert(self.live().contains(w));
        assert(self.node_ok(w));
        assert(self.live().contains(wl));
        assert(self.node_ok(wl));
        let a = self.right(w);
        let c = self.right(wl);
        let b = self.left(wl);
        // the step: no first rotation; recolor, then rotate at `w`
        assert(m.0 == *self && m.1 == *self);
        assert(m.2.is_recoloring_of(self, wl, BLACK, w, RED, SENTINEL, BLACK));
        m.2.lemma_recoloring(self, wl, BLACK, w, RED, SENTINEL, BLACK);
        assert(m.2.reg(w, LEFT) == wl);
        assert(mt.is_rotation_of(&m.2, w, RIGHT));
        self.lemma_sub(p);
        self.lemma_sub(w);
        self.lemma_sub(wl);
        if a != SENTINEL {
            self.lemma_sub(a);
        }
        if c != SENTINEL {
            self.lemma_sub(c);
        }
        if b != SENTINEL {
            self.lemma_sub(b);
        }
        assert(mt.live() == self.live());
        assert forall|j: u32| #[trigger] self.live().contains(j) implies mt.key(j) == self.key(j) by {
        }
        // the links and colors of the moved nodes
        assert(mt.reg(wl, RIGHT) == w);
        assert(mt.reg(wl, LEFT) == b);
        assert(mt.reg(w, RIGHT) == a);
        assert(mt.reg(w, LEFT) == c);
        assert(mt.reg(wl, COLOR) == BLACK);
        assert(mt.reg(w, COLOR) == RED);
        // the subtrees that do not move count alike
        self.lemma_parent_outside(w);
        assert(self.subtree(w).contains(wl));
        assert(!self.subtree(a).contains(w));
        assert(!self.subtree(wl).contains(w));
        assert(!self.subtree(c).contains(wl));
        assert(!self.subtree(b).contains(wl));
        assert(self.subtree(a).disjoint(self.subtree(wl)));
        assert forall|j: u32| #[trigger] self.subtree(a).contains(j) implies mt.reg(j, LEFT)
            == self.reg(j, LEFT) && mt.reg(j, RIGHT) == self.reg(j, RIGHT) && mt.reg(j, COLOR)
            == self.reg(j, COLOR) && mt.key(j) == self.key(j) && mt.live().contains(j) by {
            self.lemma_sub_trans(a, j);
            assert(j != w && j != wl && j != p);
        }
        self.lemma_blacks_same(&mt, a, k);
        assert forall|j: u32| #[trigger] self.subtree(c).contains(j) implies mt.reg(j, LEFT)
            == self.reg(j, LEFT) && mt.reg(j, RIGHT) == self.reg(j, RIGHT) && mt.reg(j, COLOR)
            == self.reg(j, COLOR) && mt.key(j) == self.key(j) && mt.live().contains(j) by {
            self.lemma_sub_trans(c, j);
            assert(j != w && j != wl && j != p);
        }
        self.lemma_blacks_same(&mt, c, k);
        assert forall|j: u32| #[trigger] self.subtree(b).contains(j) implies mt.reg(j, LEFT)
            == self.reg(j, LEFT) && mt.reg(j, RIGHT) == self.reg(j, RIGHT) && mt.reg(j, COLOR)
            == self.reg(j, COLOR) && mt.key(j) == self.key(j) && mt.live().contains(j) by {
            self.lemma_sub_trans(b, j);
            assert(j != w && j != wl && j != p);
        }
        self.lemma_blacks_same(&mt, b, k);
        // the count from `w`'s place
        self.lemma_search_blacks(w, k);
        self.lemma_search_blacks(wl, k);
        mt.lemma_search_blacks(wl, k);
        mt.lemma_search_blacks(w, k);
        assert(key_lt(self.key(wl), self.key(w)));
        assert(mt.search_blacks(wl, k) == self.search_blacks(w, k));
        // and from the root
        assert(mt.root == self.root);
        assert(self.subtree(self.root).contains(w));
        assert(self.root != w);
        assert forall|j: u32| #[trigger]
            self.subtree(self.root).contains(j) && !self.subtree(w).contains(j) implies {
            &&& mt.live().contains(j)
            &&& mt.key(j) == self.key(j)
            &&& mt.reg(j, COLOR) == self.reg(j, COLOR)
            &&& mt.reg(j, LEFT) == if self.reg(j, LEFT) == w {
                wl
            } else {
                self.reg(j, LEFT)
            }
            &&& mt.reg(j, RIGHT) == if self.reg(j, RIGHT) == w {
                wl
            } else {
                self.reg(j, RIGHT)
            }
        } by {
            assert(j != w && j != wl && j != a);
            if c != SENTINEL {
                assert(self.subtree(wl).contains(c));
            }
            assert(j != c);
            assert(self.node_ok(j));
            if self.reg(j, LEFT) == w || self.reg(j, RIGHT) == w {
                assert(j == p);
            }
            if j == p {
                assert(self.left(p) == x);
                assert(x != w);
            }
        }
        self.lemma_blacks_above(&mt, w, wl, self.root, k);
    }

    /// The other child of the parent of `x`.
    pub open spec fn sibling(&self, x: u32) -> u32 {
        let p = self.parent(x);
        if self.left(p) == x {
            self.right(p)
        } else {
            self.left(p)
        }
    }

    /// The other child of the grandparent of `x`: the sibling of `x`'s parent.
    pub open spec fn uncle(&self, x: u32) -> u32 {
        let p = self.parent(x);
        let g = self.parent(p);
        if self.left(g) == p {
            self.right(g)
        } else {
            self.left(g)
        }
    }
}

// ----------------------------------------------------------------------
// In-order traversal
// ----------------------------------------------------------------------
impl<K: PartialOrd + Copy + Default, V: Copy + Default, const MAX_SIZE: usize> RedBlackTree<
    K,
    V,
    MAX_SIZE,
> {
    /// The nodes that a traversal still visits on account of the nodes of `s`: each
    /// node of `s` and its right subtree.
    spec fn stacked(&self, s: Seq<u32>) -> Set<u32>
        decreases s.len(),
    {
        if s.len() == 0 {
            Set::empty()
        } else {
            self.stacked(s.drop_last()).union(self.subtree(self.right(s.last()))).insert(s.last())
        }
    }

    /// The nodes that a traversal at `node` with stack `s` has not visited yet.
    spec fn trav_pending(&self, s: Seq<u32>, node: u32) -> Set<u32> {
        self.stacked(s).union(self.subtree(node))
    }

    /// The entries that a traversal at `node` with stack `s` has not visited yet.
    spec fn trav_remaining(&self, s: Seq<u32>, node: u32) -> Map<K, V> {
        Map::new(
            |k: K| exists|i: u32| self.trav_pending(s, node).contains(i) && self.key(i) == k,
            |k: K| self@[k],
        )
    }

    /// A traversal at `node` with stack `s` is consistent: every node of the stack,
    /// and `node`, lie in the left subtree of each node below them on the stack.
    spec fn trav_inv(&self, s: Seq<u32>, node: u32) -> bool {
        &&& self.wf()
        &&& node == SENTINEL || self.live().contains(node)
        &&& forall|i: int| 0 <= i < s.len() ==> self.live().contains(#[trigger] s[i])
        &&& forall|i: int, j: int|
            0 <= i < j < s.len() ==> self.subtree(self.left(#[trigger] s[i])).contains(
                #[trigger] s[j],
            )
        &&& forall|i: int|
            0 <= i < s.len() && node != SENTINEL ==> self.subtree(
                self.left(#[trigger] s[i]),
            ).contains(node)
    }

    /// A node `x` in the left subtree of every node of `s` is none of the nodes
    /// that `s` stands for, and its key is below all of theirs.
    proof fn lemma_stacked_below(&self, s: Seq<u32>, x: u32)
        requires
            self.wf(),
            forall|i: int| 0 <= i < s.len() ==> self.live().contains(#[trigger] s[i]),
            forall|i: int|
                0 <= i < s.len() ==> self.subtree(self.left(#[trigger] s[i])).contains(x),
        ensures
            !self.stacked(s).contains(x),
            forall|j: u32| #[trigger]
                self.stacked(s).contains(j) ==> key_lt(self.key(x), self.key(j)),
            self.stacked(s).subset_of(self.live()),
        decreases s.len(),
    {
        if s.len() > 0 {
            let t = s.last();
            let p = s.drop_last();
            assert forall|i: int| 0 <= i < p.len() implies self.live().contains(#[trigger] p[i]) by {
                assert(p[i] == s[i]);
            }
            assert forall|i: int| 0 <= i < p.len() implies self.subtree(self.left(#[trigger] p[i])).contains(x) by {
                assert(p[i] == s[i]);
            }
            self.lemma_stacked_below(p, x);
            assert(self.live().contains(t));
            assert(self.subtree(self.left(t)).contains(x));
            self.lemma_sub(t);
            self.lemma_wf_basics();
            lemma_key_order::<K>();
            assert forall|j: u32| #[trigger]
                self.stacked(s).contains(j) implies key_lt(self.key(x), self.key(j)) by {
                if self.subtree(self.right(t)).contains(j) {
                    assert(key_lt(self.key(x), self.key(t)));
                    assert(key_lt(self.key(t), self.key(j)));
                } else if j == t {
                } else {
                    assert(self.stacked(p).contains(j));
                }
            }
            self.lemma_sub_trans(t, t);
        }
    }

    /// The nodes that a stack of nodes of the tree stands for are nodes of the tree.
    proof fn lemma_stacked_live(&self, s: Seq<u32>)
        requires
            self.wf(),
            forall|i: int| 0 <= i < s.len() ==> self.live().contains(#[trigger] s[i]),
        ensures
            self.stacked(s).subset_of(self.live()),
        decreases s.len(),
    {
        if s.len() > 0 {
            let p = s.drop_last();
            assert forall|i: int| 0 <= i < p.len() implies self.live().contains(#[trigger] p[i]) by {
                assert(p[i] == s[i]);
            }
            self.lemma_stacked_live(p);
            assert(self.live().contains(s[s.len() - 1]));
            self.lemma_sub(s.last());
            self.lemma_wf_basics();
            self.lemma_sub_trans(s.last(), s.last());
        }
    }

    /// Two trees with the same links and subtrees stack up the same nodes.
    proof fn lemma_stacked_same(&self, other: &Self, s: Seq<u32>)
        requires
            forall|j: u32, q: u32| #[trigger] self.reg(j, q) == other.reg(j, q),
            forall|j: u32| #[trigger] self.subtree(j) == other.subtree(j),
        ensures
            self.stacked(s) == other.stacked(s),
        decreases s.len(),
    {
        if s.len() > 0 {
            self.lemma_stacked_same(other, s.drop_last());
            assert(self.right(s.last()) == other.right(s.last()));
        }
    }

    /// A traversal starts at the root with an empty stack, with every entry ahead.
    proof fn lemma_trav_start(&self)
        requires
            self.wf(),
        ensures
            self.trav_inv(Seq::empty(), self.root),
            self.trav_remaining(Seq::empty(), self.root) == self@,
    {
        self.lemma_wf_basics();
        self.lemma_map();
        assert(self.trav_pending(Seq::empty(), self.root) =~= self.live());
        assert(self.trav_remaining(Seq::empty(), self.root) =~= self@);
    }

    /// A traversal with an empty stack at the sentinel has nothing ahead.
    proof fn lemma_trav_done(&self, s: Seq<u32>, node: u32)
        requires
            self.wf(),
            s.len() == 0,
            node == SENTINEL,
        ensures
            self.trav_remaining(s, node) == Map::<K, V>::empty(),
    {
        self.lemma_wf_basics();
        assert(self.trav_pending(s, node) =~= Set::<u32>::empty());
        assert(self.trav_remaining(s, node) =~= Map::<K, V>::empty());
    }

    /// Going down to the left child of `x`, with `x` pushed, leaves the same nodes
    /// ahead.
    proof fn lemma_trav_push(&self, s: Seq<u32>, x: u32)
        requires
            self.trav_inv(s, x),
            x != SENTINEL,
        ensures
            self.trav_inv(s.push(x), self.left(x)),
            self.trav_pending(s.push(x), self.left(x)) == self.trav_pending(s, x),
            self.trav_remaining(s.push(x), self.left(x)) == self.trav_remaining(s, x),
            self.subtree(self.left(x)).len() < self.subtree(x).len(),
    {
        self.lemma_wf_basics();
        self.lemma_sub(x);
        let s1 = s.push(x);
        let l = self.left(x);
        assert(s1.drop_last() =~= s);
        assert(s1.last() == x);
        assert(self.trav_pending(s1, l) =~= self.trav_pending(s, x));
        assert(self.trav_remaining(s1, l) =~= self.trav_remaining(s, x));
        assert forall|i: int|
            0 <= i < s1.len() && l != SENTINEL implies self.subtree(self.left(#[trigger] s1[i])).contains(l) by {
            self.lemma_sub(l);
            if i < s.len() {
                let si = s[i];
                assert(s1[i] == si);
                self.lemma_sub(si);
                assert(self.subtree(self.left(si)).contains(x));
                self.lemma_sub_trans(self.left(si), x);
            }
        }
        assert forall|i: int, j: int|
            0 <= i < j < s1.len() implies self.subtree(self.left(#[trigger] s1[i])).contains(
            #[trigger] s1[j],
        ) by {
            assert(s1[i] == s[i]);
            if j < s.len() {
                assert(s1[j] == s[j]);
            }
        }
        assert forall|i: int| 0 <= i < s1.len() implies self.live().contains(#[trigger] s1[i]) by {
            if i < s.len() {
                assert(s1[i] == s[i]);
            }
        }
    }

    /// At the sentinel, the top `t` of the stack is the node of least key ahead;
    /// popping it and going to its right child leaves the rest ahead.
    proof fn lemma_trav_pop(&self, s: Seq<u32>, node: u32)
        requires
            self.trav_inv(s, node),
            node == SENTINEL,
            s.len() > 0,
        ensures
            self.live().contains(s.last()),
            self.trav_inv(s.drop_last(), self.right(s.last())),
            self.trav_pending(s.drop_last(), self.right(s.last())) == self.trav_pending(
                s,
                node,
            ).remove(s.last()),
            self.trav_remaining(s, node).contains_key(self.key(s.last())),
            self.trav_remaining(s, node)[self.key(s.last())] == self.node_at(s.last()).value,
            forall|k2: K| #[trigger]
                self.trav_remaining(s, node).contains_key(k2) ==> key_le(self.key(s.last()), k2),
            self.trav_remaining(s.drop_last(), self.right(s.last())) == self.trav_remaining(
                s,
                node,
            ).remove(self.key(s.last())),
    {
        self.lemma_wf_basics();
        self.lemma_map();
        lemma_key_order::<K>();
        let t = s.last();
        let p = s.drop_last();
        let r = self.right(t);
        assert(s[s.len() - 1] == t);
        assert(self.live().contains(t));
        self.lemma_sub(t);
        assert forall|i: int| 0 <= i < p.len() implies self.subtree(self.left(#[trigger] p[i])).contains(t) by {
            assert(p[i] == s[i]);
        }
        assert forall|i: int| 0 <= i < p.len() implies self.live().contains(#[trigger] p[i]) by {
            assert(p[i] == s[i]);
        }
        self.lemma_stacked_below(p, t);
        assert(self.trav_pending(p, r) =~= self.trav_pending(s, node).remove(t));
        assert forall|j: u32| #[trigger]
            self.trav_pending(s, node).contains(j) && j != t implies key_lt(self.key(t), self.key(j)) by {
            if self.subtree(r).contains(j) {
            } else {
                assert(self.stacked(p).contains(j));
            }
        }
        assert forall|i: int|
            0 <= i < p.len() && r != SENTINEL implies self.subtree(self.left(#[trigger] p[i])).contains(r) by {
            self.lemma_sub(p[i]);
            assert(self.subtree(self.left(p[i])).contains(t));
            self.lemma_sub_trans(self.left(p[i]), t);
            self.lemma_sub(r);
        }
        assert forall|i: int, j: int|
            0 <= i < j < p.len() implies self.subtree(self.left(#[trigger] p[i])).contains(
            #[trigger] p[j],
        ) by {
            assert(p[i] == s[i]);
            assert(p[j] == s[j]);
        }
        let k = self.key(t);
        let old_rem = self.trav_remaining(s, node);
        let new_rem = self.trav_remaining(p, r);
        assert(self.trav_pending(s, node).contains(t));
        assert(old_rem.contains_key(k));
        assert forall|k2: K| #[trigger] old_rem.contains_key(k2) implies key_le(k, k2) by {
            let j = choose|j: u32| self.trav_pending(s, node).contains(j) && self.key(j) == k2;
            if j != t {
                assert(key_lt(self.key(t), self.key(j)));
            }
        }
        assert forall|k2: K| #[trigger] new_rem.contains_key(k2) <==> old_rem.remove(k).contains_key(k2) by {
            if new_rem.contains_key(k2) {
                let j = choose|j: u32| self.trav_pending(p, r).contains(j) && self.key(j) == k2;
                assert(j != t);
                assert(self.live().contains(j));
                assert(self.trav_pending(s, node).contains(j));
            }
            if old_rem.remove(k).contains_key(k2) {
                let j = choose|j: u32| self.trav_pending(s, node).contains(j) && self.key(j) == k2;
                assert(j != t);
                assert(self.trav_pending(p, r).contains(j));
            }
        }
        assert(new_rem =~= old_rem.remove(k));
    }

    /// Whatever value is stored in node `i`, a traversal that has `i` behind it keeps
    /// its state and the entries ahead of it.
    proof fn lemma_trav_value_update(&self, i: u32, s: Seq<u32>, node: u32)
        requires
            self.trav_inv(s, node),
            self.live().contains(i),
            !self.trav_pending(s, node).contains(i),
        ensures
            forall|t: Self, v: V| #[trigger]
                t.is_value_update(self, i, v) ==> t.trav_inv(s, node) && t.trav_remaining(s, node)
                    == self.trav_remaining(s, node),
    {
        assert forall|t: Self, v: V| #[trigger]
            t.is_value_update(self, i, v) implies t.trav_inv(s, node) && t.trav_remaining(s, node)
                == self.trav_remaining(s, node) by {
            t.lemma_set_value(self, i, v);
            self.lemma_wf_basics();
            self.lemma_map();
            t.lemma_map();
            assert forall|j: u32| #[trigger] t.subtree(j) == self.subtree(j) by {
            }
            t.lemma_stacked_same(self, s);
            self.lemma_stacked_live(s);
            if node != SENTINEL {
                self.lemma_sub(node);
                self.lemma_sub_trans(node, node);
            }
            assert(t.trav_pending(s, node) == self.trav_pending(s, node));
            assert(self.trav_pending(s, node).subset_of(self.live()));
            assert forall|j: u32| self.live().contains(j) implies #[trigger] t.key(j) == self.key(j) by {
                if j != i {
                    assert(t.node_at(j) == self.node_at(j));
                }
            }
            assert forall|j: u32| self.live().contains(j) && j != i implies #[trigger] t.node_at(j) == self.node_at(j) by {
            }
            assert forall|k: K| #[trigger] t.trav_remaining(s, node).contains_key(k) <==> self.trav_remaining(s, node).contains_key(k) by {
                if t.trav_remaining(s, node).contains_key(k) {
                    let j = choose|j: u32| t.trav_pending(s, node).contains(j) && t.key(j) == k;
                    assert(self.trav_pending(s, node).contains(j) && self.key(j) == k);
                }
                if self.trav_remaining(s, node).contains_key(k) {
                    let j = choose|j: u32| self.trav_pending(s, node).contains(j) && self.key(j) == k;
                    assert(t.trav_pending(s, node).contains(j) && t.key(j) == k);
                }
            }
            assert forall|k: K| #[trigger] t.trav_remaining(s, node).contains_key(k) implies t.trav_remaining(s, node)[k] == self.trav_remaining(s, node)[k] by {
                let j = choose|j: u32| self.trav_pending(s, node).contains(j) && self.key(j) == k;
                assert(self.live().contains(j));
                assert(j != i);
                assert(t@[k] == t.node_at(j).value);
            }
            assert(t.trav_remaining(s, node) =~= self.trav_remaining(s, node));
        }
    }

    /// A traversal of the tree in increasing order of keys.
    pub fn iter(&self) -> (it: RedBlackTreeIterator<'_, K, V, MAX_SIZE>)
        requires
            self.wf(),
        ensures
            it.inv(),
            *it.tree == *self,
            it.remaining() == self@,
            it.stack@ == Seq::<u32>::empty(),
            it.node == self.root_node(),
    {
        proof {
            self.lemma_trav_start();
        }
        let it = RedBlackTreeIterator { tree: self, stack: Vec::new(), node: self.root };
        proof {
            assert(it.stack@ =~= Seq::<u32>::empty());
        }
        it
    }

    /// The key of node `i`, and a mutable reference to its value.
    fn entry_mut(&mut self, i: u32) -> (r: (&K, &mut V))
        requires
            old(self).wf(),
            old(self).live().contains(i),
        ensures
            *r.0 == old(self).key(i),
            *r.1 == old(self).node_at(i).value,
            final(self).is_value_update(old(self), i, *final(r.1)),
    {
        proof {
            self.lemma_wf_basics();
        }
        let n = self.get_node_mut(i);
        (&n.key, &mut n.value)
    }

    /// A traversal of the tree in increasing order of keys that hands out each value
    /// for update.
    pub fn iter_mut(&mut self) -> (it: RedBlackTreeIteratorMut<'_, K, V, MAX_SIZE>)
        requires
            old(self).wf(),
        ensures
            it.inv(),
            *it.tree == *old(self),
            it.remaining() == old(self)@,
            *final(self) == *final(it.tree),
            it.stack@ == Seq::<u32>::empty(),
            it.node == old(self).root_node(),
    {
        proof {
            self.lemma_trav_start();
        }
        let node = self.root;
        let it = RedBlackTreeIteratorMut { tree: self, stack: Vec::new(), node };
        proof {
            assert(it.stack@ =~= Seq::<u32>::empty());
        }
        it
    }
}

/// A traversal of a tree in increasing order of keys: it visits the subtree of
/// `node`, then each node of `stack` from the top, each followed by its right
/// subtree.
#[verifier::reject_recursive_types(K)]
pub struct RedBlackTreeIterator<'a, K: PartialOrd + Copy + Default, V: Copy + Default, const MAX_SIZE: usize> {
    pub tree: &'a RedBlackTree<K, V, MAX_SIZE>,
    pub stack: Vec<u32>,
    pub node: u32,
}

impl<'a, K: PartialOrd + Copy + Default, V: Copy + Default, const MAX_SIZE: usize> RedBlackTreeIterator<
    'a,
    K,
    V,
    MAX_SIZE,
> {
    /// The entries of the tree not visited yet.
    pub closed spec fn remaining(&self) -> Map<K, V> {
        self.tree.trav_remaining(self.stack@, self.node)
    }

    /// The traversal is in a consistent state.
    pub closed spec fn inv(&self) -> bool {
        self.tree.trav_inv(self.stack@, self.node)
    }

    /// The entry of least key not visited yet, or `None` when all were visited.
    pub fn next(&mut self) -> (r: Option<(&'a K, &'a V)>)
        requires
            old(self).inv(),
        ensures
            final(self).inv(),
            final(self).tree == old(self).tree,
            match r {
                None => {
                    &&& old(self).remaining() == Map::<K, V>::empty()
                    &&& final(self).remaining() == Map::<K, V>::empty()
                    &&& final(self).stack@ == Seq::<u32>::empty()
                    &&& final(self).node == SENTINEL
                },
                Some((k, v)) => {
                    &&& old(self).remaining().contains_key(*k)
                    &&& old(self).remaining()[*k] == *v
                    &&& forall|k2: K| #[trigger]
                        old(self).remaining().contains_key(k2) ==> key_le(*k, k2)
                    &&& final(self).remaining() == old(self).remaining().remove(*k)
                    &&& final(self).node == old(self).tree.right(old(self).tree.index_of(*k))
                },
            },
    {
        while !self.stack.is_empty() || self.node != SENTINEL
            invariant
                self.inv(),
                self.tree == old(self).tree,
                self.remaining() == old(self).remaining(),
            decreases self.tree.subtree(self.node).len(),
        {
            proof {
                self.tree.lemma_wf_basics();
            }
            if self.node != SENTINEL {
                proof {
                    self.tree.lemma_trav_push(self.stack@, self.node);
                    self.tree.lemma_sub(self.node);
                }
                self.stack.push(self.node);
                self.node = self.tree.get_left(self.node);
            } else {
                proof {
                    self.tree.lemma_trav_pop(self.stack@, self.node);
                }
                let t = self.stack.pop().unwrap();
                let node = self.tree.get_node(t);
                self.node = self.tree.get_right(t);
                proof {
                    self.tree.lemma_map();
                    assert(self.tree.index_of(self.tree.key(t)) == t);
                }
                return Some((&node.key, &node.value));
            }
        }
        proof {
            self.tree.lemma_trav_done(self.stack@, self.node);
        }
        None
    }
}

/// A traversal like `RedBlackTreeIterator` that hands out each value for update.
#[verifier::reject_recursive_types(K)]
pub struct RedBlackTreeIteratorMut<'a, K: PartialOrd + Copy + Default, V: Copy + Default, const MAX_SIZE: usize> {
    pub tree: &'a mut RedBlackTree<K, V, MAX_SIZE>,
    pub stack: Vec<u32>,
    pub node: u32,
}

impl<'a, K: PartialOrd + Copy + Default, V: Copy + Default, const MAX_SIZE: usize> RedBlackTreeIteratorMut<
    'a,
    K,
    V,
    MAX_SIZE,
> {
    /// The entries of the tree not visited yet.
    pub closed spec fn remaining(&self) -> Map<K, V> {
        self.tree.trav_remaining(self.stack@, self.node)
    }

    /// The traversal is in a consistent state.
    pub closed spec fn inv(&self) -> bool {
        self.tree.trav_inv(self.stack@, self.node)
    }

    /// The entry of least key not visited yet, with its value open for update, or
    /// `None` when all were visited. What is written through the value lands in the
    /// tree under that key.
    pub fn next(&mut self) -> (r: Option<(&K, &mut V)>)
        requires
            old(self).inv(),
        ensures
            final(self).inv(),
            final(self).tree.wf(),
            *final(final(self).tree) == *final(old(self).tree),
            match r {
                None => {
                    &&& old(self).remaining() == Map::<K, V>::empty()
                    &&& final(self).remaining() == Map::<K, V>::empty()
                    &&& *final(self).tree == *old(self).tree
                    &&& final(self).stack@ == Seq::<u32>::empty()
                    &&& final(self).node == SENTINEL
                },
                Some((k, v)) => {
                    &&& old(self).remaining().contains_key(*k)
                    &&& old(self).remaining()[*k] == *v
                    &&& forall|k2: K| #[trigger]
                        old(self).remaining().contains_key(k2) ==> key_le(*k, k2)
                    &&& final(self).remaining() == old(self).remaining().remove(*k)
                    &&& (*final(self).tree)@ == (*old(self).tree)@.insert(*k, *final(v))
                    &&& final(self).node == old(self).tree.right(old(self).tree.index_of(*k))
                },
            },
    {
        while !self.stack.is_empty() || self.node != SENTINEL
            invariant
                self.inv(),
                *self.tree == *old(self).tree,
                *final(self.tree) == *final(old(self).tree),
                self.remaining() == old(self).remaining(),
            decreases self.tree.subtree(self.node).len(),
        {
            proof {
                self.tree.lemma_wf_basics();
            }
            if self.node != SENTINEL {
                proof {
                    self.tree.lemma_trav_push(self.stack@, self.node);
                    self.tree.lemma_sub(self.node);
                }
                self.stack.push(self.node);
                self.node = self.tree.get_left(self.node);
            } else {
                let ghost s0 = self.stack@;
                let ghost t0 = *self.tree;
                proof {
                    self.tree.lemma_trav_pop(self.stack@, self.node);
                }
                let t = self.stack.pop().unwrap();
                self.node = self.tree.get_right(t);
                proof {
                    assert(self.stack@ == s0.drop_last());
                    t0.lemma_trav_value_update(t, self.stack@, self.node);
                    t0.lemma_value_update(t);
                    t0.lemma_map();
                    assert(t0.index_of(t0.key(t)) == t);
                }
                let (k, v) = self.tree.entry_mut(t);
                return Some((k, v));
            }
        }
        proof {
            self.tree.lemma_trav_done(self.stack@, self.node);
        }
        None
    }
}

} // verus!
