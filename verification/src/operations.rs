//! Binary operations, as the functions that a caller supplies.

use std::fmt::Debug;
use std::hash::Hash;
use std::marker::PhantomData;
use vstd::prelude::*;
use vstd::std_specs::cmp::{PartialEqSpec, PartialEqSpecImpl};

verus! {

/// `f` may be called on every pair of elements.
pub open spec fn is_total<T, F: Fn(T, T) -> T>(f: F) -> bool {
    forall|a: T, b: T| #[trigger] call_requires(f, (a, b))
}

/// `f` computes the mathematical function `m`: whatever `f` returns for a
/// pair is the value of `m` on that pair.
///
/// The contracts of this library speak of an operation through the
/// functions it computes. A caller who knows what its operation returns
/// names that function and reads the contract for it.
pub open spec fn computes<T, F: Fn(T, T) -> T>(f: F, m: spec_fn(T, T) -> T) -> bool {
    forall|a: T, b: T, r: T| #[trigger] call_ensures(f, (a, b), r) ==> r == m(a, b)
}

/// Calls `f` on `a` and `b`.
pub fn apply<T, F: Fn(T, T) -> T>(f: &F, a: T, b: T) -> (r: T)
    requires
        is_total(*f),
    ensures
        call_ensures(*f, (a, b), r),
        forall|m: spec_fn(T, T) -> T| #[trigger] computes(*f, m) ==> r == m(a, b),
{
    f(a, b)
}

/// A binary operation on `T`, with the function that inverts it where the
/// caller has one.
///
/// Nothing is asked of `backwards`: whether it inverts `forwards` is for the
/// caller to know.
#[derive(Debug, Hash)]
#[verifier::reject_recursive_types(T)]
pub struct Operation<T: Clone + Hash + Eq + Debug, F: Fn(T, T) -> T, B: Fn(T) -> T> {
    /// Combines two elements.
    pub forwards: F,
    /// Gives the inverse of an element, if present.
    pub backwards: Option<B>,
    /// Whether `backwards` is present.
    pub has_backwards: bool,
    /// Ties the operation to the type of its elements.
    pub marker: PhantomData<T>,
}

impl<T: Clone + Hash + Eq + Debug, F: Fn(T, T) -> T, B: Fn(T) -> T> Operation<T, F, B> {
    /// The flag says whether the inverting function is there.
    pub open spec fn wf(&self) -> bool {
        self.has_backwards == (self.backwards is Some)
    }

    /// The operation made of the two functions.
    pub fn new(forwards: F, backwards: Option<B>) -> (op: Operation<T, F, B>)
        ensures
            op.forwards == forwards,
            op.backwards == backwards,
            op.has_backwards == (backwards is Some),
            op.wf(),
    {
        match backwards {
            None => Operation {
                forwards: forwards,
                backwards: None,
                has_backwards: false,
                marker: PhantomData,
            },
            _ => Operation {
                forwards: forwards,
                backwards: backwards,
                has_backwards: true,
                marker: PhantomData,
            },
        }
    }
}

impl<
    T: Clone + Hash + Eq + Debug,
    F: Fn(T, T) -> T + Clone,
    B: Fn(T) -> T + Clone,
> Clone for Operation<T, F, B> {
    /// The operation made of a clone of each function.
    fn clone(&self) -> (r: Self)
        ensures
            cloned::<F>(self.forwards, r.forwards),
            cloned::<Option<B>>(self.backwards, r.backwards),
            r.has_backwards == self.has_backwards,
    {
        Operation {
            forwards: self.forwards.clone(),
            backwards: self.backwards.clone(),
            has_backwards: self.has_backwards,
            marker: PhantomData,
        }
    }
}

impl<
    T: Clone + Hash + Eq + Debug,
    F: Fn(T, T) -> T + PartialEq,
    B: Fn(T) -> T + PartialEq,
> Operation<T, F, B> {
    /// `==` holds of the forwards functions and of the backwards functions,
    /// and the flags agree. This is what `==` decides.
    pub open spec fn same_as(&self, other: &Self) -> bool {
        &&& self.forwards.eq_spec(&other.forwards)
        &&& match (self.backwards, other.backwards) {
            (None, None) => true,
            (Some(a), Some(b)) => a.eq_spec(&b),
            _ => false,
        }
        &&& self.has_backwards == other.has_backwards
    }
}

impl<
    T: Clone + Hash + Eq + Debug,
    F: Fn(T, T) -> T + PartialEq,
    B: Fn(T) -> T + PartialEq,
> PartialEq for Operation<T, F, B> {
    /// Compares the two functions and the flag, by `==` on each.
    fn eq(&self, other: &Self) -> (r: bool) {
        if self.forwards != other.forwards {
            return false;
        }
        if self.backwards != other.backwards {
            return false;
        }
        self.has_backwards == other.has_backwards
    }
}

impl<
    T: Clone + Hash + Eq + Debug,
    F: Fn(T, T) -> T + PartialEq,
    B: Fn(T) -> T + PartialEq,
> PartialEqSpecImpl for Operation<T, F, B> {
    open spec fn obeys_eq_spec() -> bool {
        F::obeys_eq_spec() && B::obeys_eq_spec()
    }

    open spec fn eq_spec(&self, other: &Self) -> bool {
        self.same_as(other)
    }
}

impl<
    T: Clone + Hash + Eq + Debug,
    F: Fn(T, T) -> T + Eq,
    B: Fn(T) -> T + Eq,
> Eq for Operation<T, F, B> {

}

} // verus!
