use vstd::prelude::*;
use vstd::laws_cmp::*;
use vstd::laws_eq::*;
use vstd::std_specs::cmp::{OrdSpec, PartialOrdSpec, PartialEqSpec};
use core::cmp::Ordering;

verus! {

/// The laws a key type must obey: its `Ord` is a total order, and keys that compare
/// equal are the same value.
pub open spec fn key_order_laws<K: Ord>() -> bool {
    &&& obeys_cmp::<K>()
    &&& obeys_concrete_eq::<K>()
}

/// `a` is strictly smaller than `b` in the key order.
pub open spec fn lt<K: Ord>(a: K, b: K) -> bool {
    a.cmp_spec(&b) == Ordering::Less
}

/// The outcome of comparing two keys.
#[derive(Clone, Copy, Debug, PartialEq, Eq, Structural)]
pub enum KeyOrder {
    Less,
    Equal,
    Greater,
}

/// The key order is a strict total order in which incomparable keys are equal.
pub proof fn lemma_key_order<K: Ord>()
    requires
        key_order_laws::<K>(),
    ensures
        forall|a: K, b: K| #[trigger] lt(a, b) ==> !lt(b, a) && a != b,
        forall|a: K, b: K| !lt(a, b) && !lt(b, a) ==> a == b,
        forall|a: K, b: K, c: K| #[trigger] lt(a, b) && #[trigger] lt(b, c) ==> lt(a, c),
        forall|a: K| !(#[trigger] lt(a, a)),
{
    reveal(obeys_cmp_ord);
    reveal(obeys_partial_cmp_spec_properties);
    reveal(obeys_cmp_partial_ord);
    reveal(obeys_concrete_eq);
    reveal(obeys_eq_spec_properties);
    assert forall|a: K, b: K| #[trigger] lt(a, b) implies !lt(b, a) && a != b by {
        assert(a.partial_cmp_spec(&b) == Some(a.cmp_spec(&b)));
        assert(b.partial_cmp_spec(&a) == Some(b.cmp_spec(&a)));
        if a == b {
            assert(a.eq_spec(&b));
        }
    }
    assert forall|a: K, b: K| !lt(a, b) && !lt(b, a) implies a == b by {
        assert(a.partial_cmp_spec(&b) == Some(a.cmp_spec(&b)));
        assert(b.partial_cmp_spec(&a) == Some(b.cmp_spec(&a)));
    }
    assert forall|a: K, b: K, c: K| #[trigger] lt(a, b) && #[trigger] lt(b, c) implies lt(a, c) by {
        assert(a.partial_cmp_spec(&b) == Some(a.cmp_spec(&b)));
        assert(b.partial_cmp_spec(&c) == Some(b.cmp_spec(&c)));
        assert(a.partial_cmp_spec(&c) == Some(a.cmp_spec(&c)));
    }
    assert forall|a: K| !(#[trigger] lt(a, a)) by {
        assert(a.partial_cmp_spec(&a) == Some(a.cmp_spec(&a)));
        assert(a.eq_spec(&a));
    }
}

/// Compares two keys.
pub fn compare_keys<K: Ord>(a: &K, b: &K) -> (r: KeyOrder)
    requires
        key_order_laws::<K>(),
    ensures
        r == KeyOrder::Less <==> lt(*a, *b),
        r == KeyOrder::Equal <==> *a == *b,
        r == KeyOrder::Greater <==> lt(*b, *a),
{
    proof {
        lemma_key_order::<K>();
        reveal(obeys_cmp_ord);
        reveal(obeys_partial_cmp_spec_properties);
    }
    match a.cmp(b) {
        Ordering::Less => KeyOrder::Less,
        Ordering::Equal => {
            assert(!lt(*a, *b));
            assert(a.partial_cmp_spec(b) == Some(a.cmp_spec(b)));
            assert(b.partial_cmp_spec(a) == Some(b.cmp_spec(a)));
            KeyOrder::Equal
        },
        Ordering::Greater => {
            assert(a.partial_cmp_spec(b) == Some(a.cmp_spec(b)));
            assert(b.partial_cmp_spec(a) == Some(b.cmp_spec(a)));
            KeyOrder::Greater
        },
    }
}

} // verus!
