//! What holds across calls: the laws that relate the operations of the tree,
//! stated over the maps that the trees stand for.
use vstd::prelude::*;
use crate::key_order::{key_le, key_lt, total_key_order, lemma_key_order};
use crate::red_black_tree::{RedBlackTree, RedBlackTreeIterator};

verus! {

/// Reading back a write: once `insert(key, value)` has succeeded, `get(key)`
/// gives `value`, and every other key reads as it did before.
pub proof fn law_get_after_insert<K: PartialOrd + Copy + Default, V: Copy + Default, const MAX_SIZE: usize>(
    before: RedBlackTree<K, V, MAX_SIZE>,
    after: RedBlackTree<K, V, MAX_SIZE>,
    key: K,
    value: V,
    other: K,
)
    requires
        after@ == before@.insert(key, value),
    ensures
        after@.contains_key(key),
        after@[key] == value,
        other != key ==> (after@.contains_key(other) <==> before@.contains_key(other)),
        other != key && before@.contains_key(other) ==> after@[other] == before@[other],
{
}

/// Removing a key leaves it absent, and every other key reads as it did before.
pub proof fn law_get_after_remove<K: PartialOrd + Copy + Default, V: Copy + Default, const MAX_SIZE: usize>(
    before: RedBlackTree<K, V, MAX_SIZE>,
    after: RedBlackTree<K, V, MAX_SIZE>,
    key: K,
    other: K,
)
    requires
        after@ == before@.remove(key),
    ensures
        !after@.contains_key(key),
        other != key ==> (after@.contains_key(other) <==> before@.contains_key(other)),
        other != key && before@.contains_key(other) ==> after@[other] == before@[other],
{
}

/// Removing a key that was just inserted, and was not there before, gives back
/// the inserted value, the map as it was, and its size.
pub proof fn law_remove_undoes_insert<K: PartialOrd + Copy + Default, V: Copy + Default, const MAX_SIZE: usize>(
    before: RedBlackTree<K, V, MAX_SIZE>,
    middle: RedBlackTree<K, V, MAX_SIZE>,
    after: RedBlackTree<K, V, MAX_SIZE>,
    key: K,
    value: V,
    removed: Option<V>,
)
    requires
        before.wf(),
        !before@.contains_key(key),
        middle@ == before@.insert(key, value),
        after@ == middle@.remove(key),
        removed == if middle@.contains_key(key) {
            Some(middle@[key])
        } else {
            None::<V>
        },
    ensures
        removed == Some(value),
        after@ == before@,
        after@.len() == before@.len(),
{
    assert(after@ =~= before@);
}

/// Putting back the value that `remove` returned gives back the map as it was.
pub proof fn law_insert_undoes_remove<K: PartialOrd + Copy + Default, V: Copy + Default, const MAX_SIZE: usize>(
    before: RedBlackTree<K, V, MAX_SIZE>,
    middle: RedBlackTree<K, V, MAX_SIZE>,
    after: RedBlackTree<K, V, MAX_SIZE>,
    key: K,
    removed: V,
)
    requires
        before@.contains_key(key),
        removed == before@[key],
        middle@ == before@.remove(key),
        after@ == middle@.insert(key, removed),
    ensures
        after@ == before@,
{
    assert(after@ =~= before@);
}

/// The size grows by one when a new key is inserted, and stays when the key was
/// already present.
pub proof fn law_size_after_insert<K: PartialOrd + Copy + Default, V: Copy + Default, const MAX_SIZE: usize>(
    before: RedBlackTree<K, V, MAX_SIZE>,
    after: RedBlackTree<K, V, MAX_SIZE>,
    key: K,
    value: V,
)
    requires
        before.wf(),
        after@ == before@.insert(key, value),
    ensures
        after@.len() == before@.len() + if before@.contains_key(key) {
            0int
        } else {
            1int
        },
{
    before.lemma_nodes_hold_view();
    if before@.contains_key(key) {
        assert(after@.dom() =~= before@.dom());
    } else {
        assert(after@.dom() =~= before@.dom().insert(key));
    }
}

/// The size shrinks by one when a present key is removed, and stays otherwise.
pub proof fn law_size_after_remove<K: PartialOrd + Copy + Default, V: Copy + Default, const MAX_SIZE: usize>(
    before: RedBlackTree<K, V, MAX_SIZE>,
    after: RedBlackTree<K, V, MAX_SIZE>,
    key: K,
)
    requires
        before.wf(),
        after@ == before@.remove(key),
    ensures
        after@.len() == before@.len() - if before@.contains_key(key) {
            1int
        } else {
            0int
        },
{
    before.lemma_nodes_hold_view();
    if before@.contains_key(key) {
        assert(after@.dom() =~= before@.dom().remove(key));
    } else {
        assert(after@.dom() =~= before@.dom());
    }
}

/// A traversal gives its keys in strictly increasing order: the key that `next`
/// gives after `first` lies above `first`.
pub proof fn law_traversal_increasing<'a, K: PartialOrd + Copy + Default, V: Copy + Default, const MAX_SIZE: usize>(
    first_step: RedBlackTreeIterator<'a, K, V, MAX_SIZE>,
    first: K,
    second_step: RedBlackTreeIterator<'a, K, V, MAX_SIZE>,
    second: K,
)
    requires
        total_key_order::<K>(),
        first_step.remaining().contains_key(first),
        forall|k: K| #[trigger] first_step.remaining().contains_key(k) ==> key_le(first, k),
        second_step.remaining() == first_step.remaining().remove(first),
        second_step.remaining().contains_key(second),
    ensures
        key_lt(first, second),
{
    lemma_key_order::<K>();
    assert(first_step.remaining().contains_key(second));
    assert(second != first);
}

/// Inserting again under a key that an insertion placed in slot `i` finds that
/// same slot, and storing the value already there leaves the map as it is.
pub proof fn law_insert_again_same_slot<K: PartialOrd + Copy + Default, V: Copy + Default, const MAX_SIZE: usize>(
    tree: RedBlackTree<K, V, MAX_SIZE>,
    key: K,
    i: u32,
)
    requires
        tree.wf(),
        tree.live().contains(i),
        tree.key(i) == key,
    ensures
        tree@.contains_key(key),
        tree.index_of(key) == i,
        tree@[key] == tree.node_at(i).value,
        tree@.insert(key, tree@[key]) == tree@,
{
    tree.lemma_nodes_hold_view();
    assert(tree@.insert(key, tree@[key]) =~= tree@);
}

/// A key keeps its slot: when the slot that held a key in one well-formed tree
/// still holds that key in a later one (insertion, removal and updates of values
/// keep every other slot's key and value), the later tree finds the key there.
pub proof fn law_slot_stays<K: PartialOrd + Copy + Default, V: Copy + Default, const MAX_SIZE: usize>(
    before: RedBlackTree<K, V, MAX_SIZE>,
    after: RedBlackTree<K, V, MAX_SIZE>,
    key: K,
)
    requires
        before.wf(),
        after.wf(),
        before@.contains_key(key),
        after.live().contains(before.index_of(key)),
        after.key(before.index_of(key)) == key,
    ensures
        after@.contains_key(key),
        after.index_of(key) == before.index_of(key),
        after@[key] == after.node_at(before.index_of(key)).value,
{
    before.lemma_nodes_hold_view();
    after.lemma_nodes_hold_view();
}

/// A whole traversal: when each step takes the entry of least key still remaining
/// and the remaining entries run out, the keys come out strictly increasing, each
/// key of the starting map comes out exactly once, and each with its value.
pub proof fn law_traversal_complete<K: PartialOrd + Copy + Default, V>(
    remaining: Seq<Map<K, V>>,
    keys: Seq<K>,
    values: Seq<V>,
)
    requires
        total_key_order::<K>(),
        remaining.len() == keys.len() + 1,
        forall|i: int|
            0 <= i < keys.len() ==> (#[trigger] remaining[i]).contains_key(keys[i]) && remaining[i
                + 1] == remaining[i].remove(keys[i]) && forall|k: K| #[trigger]
                remaining[i].contains_key(k) ==> key_le(keys[i], k),
        remaining.last().dom().is_empty(),
        values.len() == keys.len(),
        forall|i: int| 0 <= i < keys.len() ==> remaining[i][keys[i]] == #[trigger] values[i],
    ensures
        forall|i: int, j: int| 0 <= i < j < keys.len() ==> key_lt(#[trigger] keys[i], #[trigger] keys[j]),
        forall|k: K| remaining[0].contains_key(k) <==> #[trigger] keys.contains(k),
        forall|i: int| 0 <= i < keys.len() ==> remaining[0][keys[i]] == #[trigger] values[i],
    decreases keys.len(),
{
    lemma_key_order::<K>();
    if keys.len() > 0 {
        let rest = remaining.drop_first();
        let ks = keys.drop_first();
        let vs = values.drop_first();
        assert forall|i: int| 0 <= i < ks.len() implies rest[i][ks[i]] == #[trigger] vs[i] by {
            assert(rest[i] == remaining[i + 1]);
            assert(ks[i] == keys[i + 1]);
            assert(vs[i] == values[i + 1]);
        }
        assert forall|i: int| 0 <= i < ks.len() implies (#[trigger] rest[i]).contains_key(ks[i])
            && rest[i + 1] == rest[i].remove(ks[i]) && forall|k: K| #[trigger]
            rest[i].contains_key(k) ==> key_le(ks[i], k) by {
            assert(rest[i] == remaining[i + 1]);
            assert(rest[i + 1] == remaining[i + 2]);
            assert(ks[i] == keys[i + 1]);
        }
        assert(rest.last() == remaining.last());
        law_traversal_complete(rest, ks, vs);
        assert(remaining[0].contains_key(keys[0]));
        assert(remaining[1] == remaining[0].remove(keys[0]));
        assert forall|i: int, j: int| 0 <= i < j < keys.len() implies key_lt(#[trigger] keys[i], #[trigger] keys[j]) by {
            if i == 0 {
                assert(ks[j - 1] == keys[j]);
                assert(rest[0].contains_key(ks[j - 1])) by {
                    assert(ks.contains(ks[j - 1]));
                }
                assert(remaining[0].contains_key(keys[j]));
                assert(key_le(keys[0], keys[j]));
                assert(keys[j] != keys[0]);
            } else {
                assert(ks[i - 1] == keys[i] && ks[j - 1] == keys[j]);
            }
        }
        assert forall|i: int| 0 <= i < keys.len() implies remaining[0][keys[i]] == #[trigger] values[i] by {
            if i > 0 {
                assert(ks[i - 1] == keys[i] && vs[i - 1] == values[i]);
                assert(rest[0][ks[i - 1]] == vs[i - 1]);
                assert(key_lt(keys[0], keys[i]));
                assert(keys[i] != keys[0]);
            }
        }
        assert forall|k: K| remaining[0].contains_key(k) <==> #[trigger] keys.contains(k) by {
            if remaining[0].contains_key(k) {
                if k == keys[0] {
                    assert(keys[0] == k);
                } else {
                    assert(rest[0].contains_key(k));
                    assert(ks.contains(k));
                    let n = choose|n: int| 0 <= n < ks.len() && ks[n] == k;
                    assert(keys[n + 1] == k);
                }
            }
            if keys.contains(k) {
                let n = choose|n: int| 0 <= n < keys.len() && keys[n] == k;
                if n > 0 {
                    assert(ks[n - 1] == k);
                    assert(ks.contains(k));
                    assert(rest[0].contains_key(k));
                }
            }
        }
    } else {
        assert forall|k: K| remaining[0].contains_key(k) <==> #[trigger] keys.contains(k) by {
            assert(!remaining.last().dom().contains(k));
        }
    }
}

} // verus!
