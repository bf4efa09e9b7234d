//! What the library takes for granted of an element type.
//!
//! A set is only a set if `==` on its elements decides whether two values are
//! the same value, and an element can only be handed to an operation, which
//! takes it by value, if a clone of it is the element again. Both are
//! properties of the impls that the element type brings with it, so they are
//! stated here once and asked for by the functions that lean on them.

use vstd::prelude::*;
use vstd::std_specs::cmp::PartialEqSpec;

verus! {

/// `==` on `T` holds of two values exactly when they are the same value.
pub open spec fn decides_equality<T: PartialEq>() -> bool {
    &&& T::obeys_eq_spec()
    &&& forall|x: T, y: T| #[trigger] x.eq_spec(&y) <==> x == y
}

/// Every clone of a `T` is the value it was cloned from.
pub open spec fn clones_exactly<T: Clone>() -> bool {
    forall|x: T, y: T| #[trigger] cloned::<T>(x, y) ==> x == y
}

/// Whether two elements are the same value.
pub fn same<T: PartialEq>(a: &T, b: &T) -> (r: bool)
    requires
        decides_equality::<T>(),
    ensures
        r == (*a == *b),
{
    let r = *a == *b;
    assert(r == a.eq_spec(b));
    r
}

/// A second copy of an element, to hand to a function that takes it by value.
pub fn copy_of<T: Clone>(a: &T) -> (r: T)
    requires
        clones_exactly::<T>(),
    ensures
        r == *a,
{
    let r = a.clone();
    assert(cloned::<T>(*a, r));
    r
}

} // verus!
