//! The ordering that the tree asks of its keys.
use vstd::prelude::*;
use core::cmp::Ordering;
use vstd::std_specs::cmp::PartialOrdSpec;

verus! {

/// `a` orders strictly before `b` under the key type's `PartialOrd`.
pub open spec fn key_lt<K: PartialOrd>(a: K, b: K) -> bool {
    a.partial_cmp_spec(&b) == Some(Ordering::Less)
}

/// `a` orders strictly after `b` under the key type's `PartialOrd`.
pub open spec fn key_gt<K: PartialOrd>(a: K, b: K) -> bool {
    a.partial_cmp_spec(&b) == Some(Ordering::Greater)
}

/// `a` orders before `b` or equals it.
pub open spec fn key_le<K: PartialOrd>(a: K, b: K) -> bool {
    key_lt(a, b) || a == b
}

/// The key type's `PartialOrd` is a strict total order whose equality is
/// equality of values: any two keys compare, `Equal` means the same key,
/// `Less` one way is `Greater` the other, and `Less` is transitive.
pub open spec fn total_key_order<K: PartialOrd>() -> bool {
    &&& K::obeys_partial_cmp_spec()
    &&& forall|a: K, b: K| #[trigger] a.partial_cmp_spec(&b) is Some
    &&& forall|a: K, b: K|
        (#[trigger] a.partial_cmp_spec(&b) == Some(Ordering::Equal)) <==> a == b
    &&& forall|a: K, b: K|
        #![trigger a.partial_cmp_spec(&b), b.partial_cmp_spec(&a)]
        (a.partial_cmp_spec(&b) == Some(Ordering::Less)) <==> (b.partial_cmp_spec(&a) == Some(
            Ordering::Greater,
        ))
    &&& forall|a: K, b: K, c: K|
        #![trigger a.partial_cmp_spec(&b), b.partial_cmp_spec(&c)]
        a.partial_cmp_spec(&b) == Some(Ordering::Less) && b.partial_cmp_spec(&c) == Some(
            Ordering::Less,
        ) ==> a.partial_cmp_spec(&c) == Some(Ordering::Less)
}

/// What a total key order gives: `key_lt` is irreflexive, asymmetric,
/// transitive and total, and `a > b` holds exactly when `key_lt(b, a)`.
pub proof fn lemma_key_order<K: PartialOrd>()
    requires
        total_key_order::<K>(),
    ensures
        forall|a: K| !#[trigger] key_lt(a, a),
        forall|a: K, b: K| #[trigger] key_lt(a, b) ==> !key_lt(b, a),
        forall|a: K, b: K| #![trigger key_lt(a, b)] key_lt(a, b) || key_lt(b, a) || a == b,
        forall|a: K, b: K, c: K|
            #[trigger] key_lt(a, b) && #[trigger] key_lt(b, c) ==> key_lt(a, c),
        forall|a: K, b: K| #[trigger] key_gt(a, b) <==> key_lt(b, a),
{
    assert forall|a: K| !#[trigger] key_lt(a, a) by {
        assert(a.partial_cmp_spec(&a) == Some(Ordering::Equal));
    }
    assert forall|a: K, b: K| #[trigger] key_lt(a, b) implies !key_lt(b, a) by {
        assert(b.partial_cmp_spec(&a) == Some(Ordering::Greater));
    }
    assert forall|a: K, b: K| #![trigger key_lt(a, b)] key_lt(a, b) || key_lt(b, a) || a == b by {
        let o = a.partial_cmp_spec(&b);
        assert(o is Some);
        match o.unwrap() {
            Ordering::Less => {},
            Ordering::Equal => {},
            Ordering::Greater => {
                assert(b.partial_cmp_spec(&a) == Some(Ordering::Less));
            },
        }
    }
    assert forall|a: K, b: K| #[trigger] key_gt(a, b) <==> key_lt(b, a) by {
        assert(b.partial_cmp_spec(&a) == Some(Ordering::Less) <==> a.partial_cmp_spec(&b)
            == Some(Ordering::Greater));
    }
}

/// `u64` keys are totally ordered.
pub proof fn lemma_total_key_order_u64()
    ensures
        total_key_order::<u64>(),
{
}

/// `u32` keys are totally ordered.
pub proof fn lemma_total_key_order_u32()
    ensures
        total_key_order::<u32>(),
{
}

/// `i64` keys are totally ordered.
pub proof fn lemma_total_key_order_i64()
    ensures
        total_key_order::<i64>(),
{
}

/// `i32` keys are totally ordered.
pub proof fn lemma_total_key_order_i32()
    ensures
        total_key_order::<i32>(),
{
}

/// `usize` keys are totally ordered.
pub proof fn lemma_total_key_order_usize()
    ensures
        total_key_order::<usize>(),
{
}

} // verus!
