//! Priority relations for the heap.

use vstd::prelude::*;
use vstd::std_specs::cmp::PartialEqIs;
use vstd::std_specs::cmp::PartialOrdIs;
use vstd::std_specs::cmp::PartialOrdSpec;

verus! {

/// A "comes before" relation between two values: `before(a, b)` says that
/// `a` has the higher priority.
pub trait Order<T> {
    /// Whether `precedes` decides exactly the relation `before`.
    spec fn lawful(&self) -> bool;

    /// The relation itself.
    spec fn before(&self, a: &T, b: &T) -> bool;

    /// Decides the relation on two values.
    fn precedes(&self, a: &T, b: &T) -> (r: bool)
        ensures
            self.lawful() ==> r == self.before(a, b),
    ;
}

/// A relation under which a heap keeps its shape: it is decided faithfully,
/// no two values come before each other, and "does not come before" is
/// transitive (a strict weak order).
pub open spec fn consistent<T, O: Order<T>>(o: O) -> bool {
    &&& o.lawful()
    &&& forall|a: T, b: T| #[trigger] o.before(&a, &b) ==> !o.before(&b, &a)
    &&& forall|a: T, b: T, c: T|
        !#[trigger] o.before(&a, &b) && !#[trigger] o.before(&b, &c) ==> !o.before(&a, &c)
}

/// No two values come before each other.
pub proof fn lemma_one_way<T, O: Order<T>>(o: O, a: T, b: T)
    requires
        consistent(o),
        o.before(&a, &b),
    ensures
        !o.before(&b, &a),
{
}

/// "Does not come before" chains.
pub proof fn lemma_chain<T, O: Order<T>>(o: O, a: T, b: T, c: T)
    requires
        consistent(o),
        !o.before(&a, &b),
        !o.before(&b, &c),
    ensures
        !o.before(&a, &c),
{
}

/// The greater value comes first: the order of a max-heap.
pub struct MaxFirst;

impl<T: Ord> Order<T> for MaxFirst {
    open spec fn lawful(&self) -> bool {
        T::obeys_partial_cmp_spec()
    }

    open spec fn before(&self, a: &T, b: &T) -> bool {
        a.is_gt(b)
    }

    fn precedes(&self, a: &T, b: &T) -> (r: bool) {
        a > b
    }
}

/// The lesser value comes first: the order of a min-heap.
pub struct MinFirst;

impl<T: Ord> Order<T> for MinFirst {
    open spec fn lawful(&self) -> bool {
        T::obeys_partial_cmp_spec()
    }

    open spec fn before(&self, a: &T, b: &T) -> bool {
        a.is_lt(b)
    }

    fn precedes(&self, a: &T, b: &T) -> (r: bool) {
        a < b
    }
}

/// Where the comparison of `T` keeps the laws of a total order, both
/// natural orders are consistent.
pub proof fn lemma_natural_orders_consistent<T: Ord>()
    requires
        vstd::laws_cmp::obeys_cmp::<T>(),
    ensures
        consistent::<T, MaxFirst>(MaxFirst),
        consistent::<T, MinFirst>(MinFirst),
{
    reveal(vstd::laws_cmp::obeys_cmp_partial_ord);
    reveal(vstd::laws_cmp::obeys_cmp_ord);
    reveal(vstd::laws_cmp::obeys_partial_cmp_spec_properties);
    reveal(vstd::laws_eq::obeys_eq_spec_properties);
    assert forall|a: T, b: T, c: T| !a.is_gt(&b) && !b.is_gt(&c) implies !a.is_gt(&c) by {
        if a.is_gt(&c) {
            assert(c.is_lt(&a));
            assert(a.is_lt(&b) || a.is_eq(&b));
            assert(b.is_lt(&c) || b.is_eq(&c));
            if a.is_lt(&b) {
                assert(c.is_lt(&b));
            } else {
                assert(b.is_eq(&a));
            }
        }
    }
    assert forall|a: T, b: T, c: T| !a.is_lt(&b) && !b.is_lt(&c) implies !a.is_lt(&c) by {
        if a.is_lt(&c) {
            assert(c.is_gt(&a));
            assert(a.is_gt(&b) || a.is_eq(&b));
            assert(b.is_gt(&c) || b.is_eq(&c));
            if a.is_gt(&b) {
                assert(c.is_gt(&b));
            } else {
                assert(b.is_eq(&a));
            }
        }
    }
}

} // verus!
