//! The order that values and priorities must carry.

use core::cmp::Ordering;
use vstd::prelude::*;
use vstd::std_specs::cmp::{OrdSpec, PartialEqSpec, PartialOrdSpec};

verus! {

/// `a` sorts strictly before `b`.
pub open spec fn lt<A: Ord>(a: A, b: A) -> bool {
    a.cmp_spec(&b) == Ordering::Less
}

/// `a` sorts before `b` or is `b`.
pub open spec fn le<A: Ord>(a: A, b: A) -> bool {
    a.cmp_spec(&b) != Ordering::Greater
}

/// The comparison operators of `A` describe one strict total order, and two
/// values compare equal exactly when they are the same value.
pub open spec fn total_order<A: Ord>() -> bool {
    &&& A::obeys_eq_spec()
    &&& A::obeys_partial_cmp_spec()
    &&& A::obeys_cmp_spec()
    &&& forall|x: A, y: A| #[trigger] x.eq_spec(&y) <==> x == y
    &&& forall|x: A, y: A| #[trigger] x.partial_cmp_spec(&y) == Some(x.cmp_spec(&y))
    &&& forall|x: A, y: A| (#[trigger] x.cmp_spec(&y)) == Ordering::Equal <==> x == y
    &&& forall|x: A, y: A|
        (#[trigger] x.cmp_spec(&y)) == Ordering::Less <==> y.cmp_spec(&x) == Ordering::Greater
    &&& forall|x: A, y: A, z: A|
        (#[trigger] x.cmp_spec(&y)) == Ordering::Less && (#[trigger] y.cmp_spec(&z))
            == Ordering::Less ==> x.cmp_spec(&z) == Ordering::Less
}

/// Nothing sorts before itself.
pub proof fn lemma_lt_irreflexive<A: Ord>(x: A)
    requires
        total_order::<A>(),
    ensures
        !lt(x, x),
        le(x, x),
{
    assert(x.cmp_spec(&x) == Ordering::Equal);
}

/// Of two values exactly one holds: the first sorts before the second, they
/// are the same, or the second sorts before the first.
pub proof fn lemma_trichotomy<A: Ord>(x: A, y: A)
    requires
        total_order::<A>(),
    ensures
        lt(x, y) || x == y || lt(y, x),
        !(lt(x, y) && x == y),
        !(lt(x, y) && lt(y, x)),
        !(x == y && lt(y, x)),
        le(x, y) <==> !lt(y, x),
{
    let c = x.cmp_spec(&y);
    let d = y.cmp_spec(&x);
    assert(c == Ordering::Less || c == Ordering::Equal || c == Ordering::Greater);
    assert(d == Ordering::Less <==> c == Ordering::Greater);
    lemma_lt_irreflexive(x);
}

/// Sorting before is transitive, also through `le`.
pub proof fn lemma_lt_transitive<A: Ord>(x: A, y: A, z: A)
    requires
        total_order::<A>(),
    ensures
        lt(x, y) && lt(y, z) ==> lt(x, z),
        le(x, y) && lt(y, z) ==> lt(x, z),
        lt(x, y) && le(y, z) ==> lt(x, z),
        le(x, y) && le(y, z) ==> le(x, z),
{
    lemma_trichotomy(x, y);
    lemma_trichotomy(y, z);
    lemma_trichotomy(x, z);
    assert(x.cmp_spec(&y) == Ordering::Less && y.cmp_spec(&z) == Ordering::Less
        ==> x.cmp_spec(&z) == Ordering::Less);
    assert(z.cmp_spec(&y) == Ordering::Less && y.cmp_spec(&x) == Ordering::Less
        ==> z.cmp_spec(&x) == Ordering::Less);
}

/// The unsigned 32-bit integers, by which the estimator orders its draws, are
/// totally ordered.
pub proof fn lemma_u32_total_order()
    ensures
        total_order::<u32>(),
{
}

} // verus!
