//! Groups: the test of the group laws on a set under an operation, and the
//! relations between groups that passed it.
//!
//! All tests are exhaustive walks over the elements. Two of them are
//! narrower than the notions they are named after, and the contracts say
//! so. The first law is tested on three elements at three different
//! positions only, so on fewer than three elements neither closure nor
//! associativity is tested at all. The normality test multiplies by the
//! same element on both sides, where a conjugate would take its inverse on
//! one.

use crate::elements::{clones_exactly, copy_of, decides_equality, same};
use crate::enumeration::{
    combinations_of_three, is_rising_triple, lists_rising_triples, picks, picks_each,
};
use crate::operations::{apply, computes, is_total, Operation};
use crate::sets::FiniteSet;
use std::fmt::Debug;
use std::hash::Hash;
use std::rc::Rc;
use vstd::prelude::*;
use vstd::std_specs::cmp::{PartialEqSpec, PartialEqSpecImpl};

verus! {

/// For the elements at the positions `i`, `j`, `k`, the two ways to combine
/// them in this order agree, and what comes out is an element.
pub open spec fn triple_holds<T>(s: Seq<T>, m: spec_fn(T, T) -> T, i: int, j: int, k: int) -> bool {
    let left = m(m(s[i], s[j]), s[k]);
    let right = m(s[i], m(s[j], s[k]));
    left == right && s.contains(left)
}

/// `triple_holds` at all rising positions: the first law, as far as it is
/// tested.
pub open spec fn triples_hold<T>(s: Seq<T>, m: spec_fn(T, T) -> T) -> bool {
    forall|i: int, j: int, k: int|
        0 <= i < j < k < s.len() ==> #[trigger] triple_holds(s, m, i, j, k)
}

/// Combined with the element at position `k` on its right, the first element
/// stays what it is.
pub open spec fn fixes_first<T>(s: Seq<T>, m: spec_fn(T, T) -> T, k: int) -> bool {
    m(s[0], s[k]) == s[0]
}

/// `k` is the first position whose element fixes the first element.
pub open spec fn is_identity_position<T>(s: Seq<T>, m: spec_fn(T, T) -> T, k: int) -> bool {
    &&& 0 <= k < s.len()
    &&& fixes_first(s, m, k)
    &&& forall|j: int| 0 <= j < k ==> !#[trigger] fixes_first(s, m, j)
}

/// Some element fixes the first element.
pub open spec fn has_identity_candidate<T>(s: Seq<T>, m: spec_fn(T, T) -> T) -> bool {
    exists|k: int| is_identity_position(s, m, k)
}

/// The first element, in the order of the sequence, that fixes the first
/// element: the one candidate for the identity.
pub open spec fn identity_candidate<T>(s: Seq<T>, m: spec_fn(T, T) -> T) -> T {
    s[choose|k: int| is_identity_position(s, m, k)]
}

/// Combined with `e` on its right, the element at position `i` stays what it
/// is.
pub open spec fn kept_by<T>(s: Seq<T>, m: spec_fn(T, T) -> T, e: T, i: int) -> bool {
    m(s[i], e) == s[i]
}

/// `e` is a right identity of all elements.
pub open spec fn is_right_identity<T>(s: Seq<T>, m: spec_fn(T, T) -> T, e: T) -> bool {
    forall|i: int| 0 <= i < s.len() ==> #[trigger] kept_by(s, m, e, i)
}

/// The element at position `j` is a right inverse of the one at position `i`.
pub open spec fn inverts<T>(s: Seq<T>, m: spec_fn(T, T) -> T, e: T, i: int, j: int) -> bool {
    m(s[i], s[j]) == e
}

/// The element at position `i` has a right inverse among the elements.
pub open spec fn has_inverse<T>(s: Seq<T>, m: spec_fn(T, T) -> T, e: T, i: int) -> bool {
    exists|j: int| 0 <= j < s.len() && #[trigger] inverts(s, m, e, i, j)
}

/// Every element has a right inverse among the elements.
pub open spec fn all_have_inverses<T>(s: Seq<T>, m: spec_fn(T, T) -> T, e: T) -> bool {
    forall|i: int| 0 <= i < s.len() ==> #[trigger] has_inverse(s, m, e, i)
}

/// The elements `s` pass the group test under `m`: there is an element, the
/// triples hold, the first element has a candidate for the identity, the
/// candidate is a right identity of all, and all have right inverses.
pub open spec fn passes_group_test<T>(s: Seq<T>, m: spec_fn(T, T) -> T) -> bool {
    &&& s.len() > 0
    &&& triples_hold(s, m)
    &&& has_identity_candidate(s, m)
    &&& is_right_identity(s, m, identity_candidate(s, m))
    &&& all_have_inverses(s, m, identity_candidate(s, m))
}

/// The identity that the group test finds, where the elements pass it.
pub open spec fn verified_identity<T>(s: Seq<T>, m: spec_fn(T, T) -> T) -> Option<T> {
    if passes_group_test(s, m) {
        Some(identity_candidate(s, m))
    } else {
        None
    }
}

/// There is one identity position at most.
pub proof fn lemma_identity_position_unique<T>(s: Seq<T>, m: spec_fn(T, T) -> T, k: int)
    requires
        is_identity_position(s, m, k),
    ensures
        has_identity_candidate(s, m),
        identity_candidate(s, m) == s[k],
{
    let chosen = choose|c: int| is_identity_position(s, m, c);
    if chosen < k {
        assert(!fixes_first(s, m, chosen));
    }
    if k < chosen {
        assert(!fixes_first(s, m, k));
    }
}

/// The group test: whether the set is a group under the operation, and if
/// so, its identity.
///
/// The test goes in four steps and stops at the first that fails. It tests
/// every three elements at rising positions for `(a * b) * c == a * (b * c)`
/// and for the product being an element; it looks for the first element `e`
/// with `first * e == first`; it tests `x * e == x` for every element `x`;
/// and it looks, for every `x`, for a `y` with `x * y == e`. A set without
/// elements fails.
pub fn group_test<T: Clone + Hash + Eq + Debug, F: Fn(T, T) -> T>(
    set: &FiniteSet<T>,
    operation: &F,
) -> (identity: Option<T>)
    requires
        decides_equality::<T>(),
        clones_exactly::<T>(),
        is_total(*operation),
    ensures
        forall|m: spec_fn(T, T) -> T| #[trigger]
            computes(*operation, m) ==> identity == verified_identity(set.elements@, m),
{
    let ghost s = set.elements@;
    let ghost f = *operation;
    let n = set.elements.len();

    let combinations = combinations_of_three(&set.elements);
    let ghost positions = choose|positions: Seq<(int, int, int)>|
        lists_rising_triples(positions, s.len() as int) && #[trigger] picks_each(
            combinations@,
            s,
            positions,
        );
    let mut c: usize = 0;
    while c < combinations.len()
        invariant
            decides_equality::<T>(),
            clones_exactly::<T>(),
            is_total(*operation),
            s == set.elements@,
            f == *operation,
            c <= combinations@.len(),
            lists_rising_triples(positions, s.len() as int),
            picks_each(combinations@, s, positions),
            forall|m: spec_fn(T, T) -> T, d: int|
                #![trigger computes(f, m), positions[d]]
                computes(f, m) && 0 <= d < c ==> triple_holds(
                    s,
                    m,
                    positions[d].0,
                    positions[d].1,
                    positions[d].2,
                ),
        decreases combinations.len() - c,
    {
        let combination = &combinations[c];
        let ghost t = positions[c as int];
        assert(picks(combinations@[c as int]@, s, t));
        assert(is_rising_triple(t, s.len() as int));
        let lhs = apply(
            operation,
            apply(operation, copy_of(combination[0]), copy_of(combination[1])),
            copy_of(combination[2]),
        );
        let rhs = apply(
            operation,
            copy_of(combination[0]),
            apply(operation, copy_of(combination[1]), copy_of(combination[2])),
        );
        let holds = same(&lhs, &rhs) && set.holds(&lhs);
        assert forall|m: spec_fn(T, T) -> T| #[trigger] computes(f, m) implies triple_holds(
            s,
            m,
            t.0,
            t.1,
            t.2,
        ) == holds by {
            assert(lhs == m(m(s[t.0], s[t.1]), s[t.2]));
            assert(rhs == m(s[t.0], m(s[t.1], s[t.2])));
        }
        if !holds {
            return None;
        }
        c += 1;
    }
    assert forall|m: spec_fn(T, T) -> T| #[trigger] computes(f, m) implies triples_hold(s, m) by {
        assert forall|i: int, j: int, k: int| 0 <= i < j < k < s.len() implies #[trigger] triple_holds(
            s,
            m,
            i,
            j,
            k,
        ) by {
            assert(positions.contains((i, j, k)));
            let d = positions.index_of((i, j, k));
            assert(positions[d] == (i, j, k));
        }
    }

    if n == 0 {
        return None;
    }
    let mut k: usize = 0;
    let mut found = false;
    while k < n
        invariant_except_break
            !found,
            forall|m: spec_fn(T, T) -> T, j: int|
                #![trigger computes(f, m), fixes_first(s, m, j)]
                computes(f, m) && 0 <= j < k ==> !fixes_first(s, m, j),
        invariant
            decides_equality::<T>(),
            clones_exactly::<T>(),
            is_total(*operation),
            s == set.elements@,
            f == *operation,
            n == s.len(),
            n > 0,
            k <= n,
        ensures
            found ==> k < n && forall|m: spec_fn(T, T) -> T| #[trigger]
                computes(f, m) ==> is_identity_position(s, m, k as int),
            !found ==> forall|m: spec_fn(T, T) -> T, j: int|
                #![trigger computes(f, m), fixes_first(s, m, j)]
                computes(f, m) && 0 <= j < n ==> !fixes_first(s, m, j),
        decreases n - k,
    {
        let product = apply(operation, copy_of(&set.elements[0]), copy_of(&set.elements[k]));
        if same(&product, &set.elements[0]) {
            found = true;
            break;
        }
        k += 1;
    }
    if !found {
        assert forall|m: spec_fn(T, T) -> T| #[trigger] computes(f, m) implies !has_identity_candidate(
            s,
            m,
        ) by {
            if has_identity_candidate(s, m) {
                let j = choose|j: int| is_identity_position(s, m, j);
                assert(fixes_first(s, m, j));
            }
        }
        return None;
    }
    let identity = copy_of(&set.elements[k]);
    assert forall|m: spec_fn(T, T) -> T| #[trigger] computes(f, m) implies has_identity_candidate(
        s,
        m,
    ) && identity_candidate(s, m) == identity by {
        lemma_identity_position_unique(s, m, k as int);
    }

    let mut i: usize = 0;
    while i < n
        invariant
            decides_equality::<T>(),
            clones_exactly::<T>(),
            is_total(*operation),
            s == set.elements@,
            f == *operation,
            n == s.len(),
            i <= n,
            forall|m: spec_fn(T, T) -> T| #[trigger]
                computes(f, m) ==> identity_candidate(s, m) == identity,
            forall|m: spec_fn(T, T) -> T, j: int|
                #![trigger computes(f, m), kept_by(s, m, identity, j)]
                computes(f, m) && 0 <= j < i ==> kept_by(s, m, identity, j),
        decreases n - i,
    {
        let product = apply(operation, copy_of(&set.elements[i]), copy_of(&identity));
        if !same(&product, &set.elements[i]) {
            assert forall|m: spec_fn(T, T) -> T| #[trigger] computes(f, m) implies !is_right_identity(
                s,
                m,
                identity,
            ) by {
                assert(!kept_by(s, m, identity, i as int));
            }
            return None;
        }
        i += 1;
    }

    let mut i: usize = 0;
    while i < n
        invariant
            decides_equality::<T>(),
            clones_exactly::<T>(),
            is_total(*operation),
            s == set.elements@,
            f == *operation,
            n == s.len(),
            i <= n,
            forall|m: spec_fn(T, T) -> T| #[trigger]
                computes(f, m) ==> identity_candidate(s, m) == identity,
            forall|m: spec_fn(T, T) -> T, j: int|
                #![trigger computes(f, m), has_inverse(s, m, identity, j)]
                computes(f, m) && 0 <= j < i ==> has_inverse(s, m, identity, j),
        decreases n - i,
    {
        let mut j: usize = 0;
        let mut inverse_exists = false;
        while j < n
            invariant_except_break
                !inverse_exists,
                forall|m: spec_fn(T, T) -> T, p: int|
                    #![trigger computes(f, m), inverts(s, m, identity, i as int, p)]
                    computes(f, m) && 0 <= p < j ==> !inverts(s, m, identity, i as int, p),
            invariant
                decides_equality::<T>(),
                clones_exactly::<T>(),
                is_total(*operation),
                s == set.elements@,
                f == *operation,
                n == s.len(),
                i < n,
                j <= n,
            ensures
                forall|m: spec_fn(T, T) -> T| #[trigger]
                    computes(f, m) ==> inverse_exists == has_inverse(s, m, identity, i as int),
            decreases n - j,
        {
            let product = apply(operation, copy_of(&set.elements[i]), copy_of(&set.elements[j]));
            if same(&product, &identity) {
                assert forall|m: spec_fn(T, T) -> T| #[trigger] computes(f, m) implies has_inverse(
                    s,
                    m,
                    identity,
                    i as int,
                ) by {
                    assert(inverts(s, m, identity, i as int, j as int));
                }
                inverse_exists = true;
                break;
            }
            j += 1;
        }
        if !inverse_exists {
            return None;
        }
        i += 1;
    }

    Some(identity)
}

/// A set with an operation under which it passed the group test.
///
/// `Group::new` makes a group of nothing else. `Group::new_trusted` takes
/// the caller's word for it, for a group that was tested before.
#[derive(Debug, Hash)]
#[verifier::reject_recursive_types(T)]
pub struct Group<T: Clone + Hash + Eq + Debug, F: Fn(T, T) -> T, B: Fn(T) -> T> {
    /// The elements.
    pub set: FiniteSet<T>,
    /// The operation that combines them.
    pub operation: Operation<T, F, B>,
    /// The identity that the group test found.
    pub identity: T,
    /// Whether `supergroup` is present.
    pub has_supergroup: bool,
    /// A group of which this one passed the subgroup test.
    pub supergroup: Option<Rc<Group<T, F, B>>>,
}

impl<T: Clone + Hash + Eq + Debug, F: Fn(T, T) -> T, B: Fn(T) -> T> Group<T, F, B> {
    /// The set passes the group test under `m`, with the identity that the
    /// group holds.
    pub open spec fn is_verified_under(&self, m: spec_fn(T, T) -> T) -> bool {
        verified_identity(self.set.elements@, m) == Some(self.identity)
    }

    /// The flag says whether the link to a supergroup is there.
    pub open spec fn wf(&self) -> bool {
        self.has_supergroup == (self.supergroup is Some)
    }

    /// The group of `set` under `operation`, if the set passes the group
    /// test under it, with the identity that the test found and without a
    /// supergroup.
    pub fn new(set: FiniteSet<T>, operation: Operation<T, F, B>) -> (group: Option<Group<T, F, B>>)
        requires
            decides_equality::<T>(),
            clones_exactly::<T>(),
            is_total(operation.forwards),
        ensures
            forall|m: spec_fn(T, T) -> T| #[trigger]
                computes(operation.forwards, m) ==> {
                    &&& group is Some == passes_group_test(set.elements@, m)
                    &&& group matches Some(g) ==> g.identity == identity_candidate(set.elements@, m)
                        && g.is_verified_under(m)
                },
            group matches Some(g) ==> {
                &&& g.set == set
                &&& g.operation == operation
                &&& !g.has_supergroup
                &&& g.supergroup is None
                &&& g.wf()
            },
    {
        let identity = group_test(&set, &operation.forwards);
        match identity {
            None => None,
            Some(identity) => Some(
                Group {
                    set: set,
                    operation: operation,
                    identity: identity,
                    has_supergroup: false,
                    supergroup: None,
                },
            ),
        }
    }

    /// The group made of the parts as they are given, untested.
    pub fn new_trusted(
        set: FiniteSet<T>,
        operation: Operation<T, F, B>,
        identity: T,
        has_supergroup: bool,
        supergroup: Option<Rc<Group<T, F, B>>>,
    ) -> (group: Group<T, F, B>)
        ensures
            group.set == set,
            group.operation == operation,
            group.identity == identity,
            group.has_supergroup == has_supergroup,
            group.supergroup == supergroup,
    {
        Group {
            set: set,
            operation: operation,
            identity: identity,
            has_supergroup: has_supergroup,
            supergroup: supergroup,
        }
    }
}

/// `outer[b] * inner[a] * outer[b]` is an element of `inner`.
pub open spec fn product_stays<T>(
    inner: Seq<T>,
    outer: Seq<T>,
    m: spec_fn(T, T) -> T,
    a: int,
    b: int,
) -> bool {
    inner.contains(m(m(outer[b], inner[a]), outer[b]))
}

/// Combined with an element of `outer` on both sides, every element of
/// `inner` gives an element of `inner`.
pub open spec fn products_stay<T>(inner: Seq<T>, outer: Seq<T>, m: spec_fn(T, T) -> T) -> bool {
    forall|a: int, b: int|
        0 <= a < inner.len() && 0 <= b < outer.len() ==> #[trigger] product_stays(
            inner,
            outer,
            m,
            a,
            b,
        )
}

impl<
    T: Clone + Hash + Eq + Debug,
    F: Fn(T, T) -> T + PartialEq,
    B: Fn(T) -> T + PartialEq,
> Group<T, F, B> {
    /// The two groups have the same set, equal operations, the same identity
    /// and the same flag, and so have the groups they are linked to, all the
    /// way up. This is what `==` decides.
    pub open spec fn same_as(&self, other: &Self) -> bool
        decreases self,
    {
        &&& self.set.same_as(&other.set)
        &&& self.operation.same_as(&other.operation)
        &&& self.identity == other.identity
        &&& self.has_supergroup == other.has_supergroup
        &&& match (self.supergroup, other.supergroup) {
            (None, None) => true,
            (Some(a), Some(b)) => a.same_as(&*b),
            _ => false,
        }
    }

    /// What the subgroup test answers: the operations are equal, the
    /// identities are the same, and the set passes the subset test against
    /// the set of `other`.
    pub open spec fn is_subgroup_of(&self, other: &Self) -> bool {
        &&& self.operation.same_as(&other.operation)
        &&& self.identity == other.identity
        &&& self.set.passes_subset_test(&other.set)
    }

    /// The group is linked to a supergroup that is the same as `other`.
    pub open spec fn attached_to(&self, other: &Self) -> bool {
        &&& self.has_supergroup
        &&& self.supergroup matches Some(parent) && parent.same_as(other)
    }

    /// What the normality test answers: the group is attached to `other`,
    /// and under `m` the products with the elements of `other` stay in the
    /// group.
    pub open spec fn passes_normality_test(&self, other: &Self, m: spec_fn(T, T) -> T) -> bool {
        &&& self.attached_to(other)
        &&& products_stay(self.set.elements@, other.set.elements@, m)
    }

    /// The subgroup test, on groups taken by reference.
    ///
    /// What it answers on the operations is what `==` on the two kinds of
    /// function answers; the contract is exact where that `==` keeps to
    /// its own description.
    pub fn within(&self, supergroup: &Group<T, F, B>) -> (r: bool)
        requires
            decides_equality::<T>(),
        ensures
            F::obeys_eq_spec() && B::obeys_eq_spec() ==> r == self.is_subgroup_of(supergroup),
            r ==> self.identity == supergroup.identity && self.set.passes_subset_test(
                &supergroup.set,
            ),
    {
        if self.operation != supergroup.operation {
            return false;
        }
        if !same(&self.identity, &supergroup.identity) {
            return false;
        }
        if !self.set.included_in(&supergroup.set) {
            return false;
        }
        true
    }

    /// Links this group to `supergroup` if it passes the subgroup test
    /// against it, and says whether it did. A group that fails the test
    /// stays as it was.
    pub fn add_supergroup(&mut self, supergroup: Group<T, F, B>) -> (r: bool)
        requires
            decides_equality::<T>(),
        ensures
            F::obeys_eq_spec() && B::obeys_eq_spec() ==> r == old(self).is_subgroup_of(&supergroup),
            r ==> old(self).identity == supergroup.identity && old(self).set.passes_subset_test(
                &supergroup.set,
            ),
            r ==> {
                &&& final(self).set == old(self).set
                &&& final(self).operation == old(self).operation
                &&& final(self).identity == old(self).identity
                &&& final(self).has_supergroup
                &&& final(self).supergroup matches Some(parent) && *parent == supergroup
            },
            !r ==> *final(self) == *old(self),
            old(self).wf() ==> final(self).wf(),
    {
        if self.within(&supergroup) {
            self.supergroup = Some(Rc::new(supergroup));
            self.has_supergroup = true;
            return true;
        }
        false
    }
}

impl<T: Clone + Hash + Eq + Debug, F: Fn(T, T) -> T + Clone, B: Fn(T) -> T + Clone> Clone for Group<
    T,
    F,
    B,
> {
    /// The group made of a clone of each part, linked to the same
    /// supergroup.
    fn clone(&self) -> (r: Self)
        ensures
            r.set.elements@.len() == self.set.elements@.len(),
            r.set.superset == self.set.superset,
            clones_exactly::<T>() ==> r.set.elements@ == self.set.elements@ && r.identity
                == self.identity,
            cloned::<F>(self.operation.forwards, r.operation.forwards),
            cloned::<Option<B>>(self.operation.backwards, r.operation.backwards),
            r.operation.has_backwards == self.operation.has_backwards,
            r.has_supergroup == self.has_supergroup,
            r.supergroup == self.supergroup,
    {
        let identity = self.identity.clone();
        assert(cloned::<T>(self.identity, identity));
        Group {
            set: self.set.clone(),
            operation: self.operation.clone(),
            identity: identity,
            has_supergroup: self.has_supergroup,
            supergroup: match &self.supergroup {
                Some(parent) => Some(Rc::clone(parent)),
                None => None,
            },
        }
    }
}

impl<
    T: Clone + Hash + Eq + Debug,
    F: Fn(T, T) -> T + PartialEq,
    B: Fn(T) -> T + PartialEq,
> PartialEq for Group<T, F, B> {
    /// Compares the parts in order, then the linked supergroups.
    fn eq(&self, other: &Self) -> (r: bool)
        decreases self,
    {
        if self.set != other.set {
            return false;
        }
        if self.operation != other.operation {
            return false;
        }
        if self.identity != other.identity {
            return false;
        }
        if self.has_supergroup != other.has_supergroup {
            return false;
        }
        match (&self.supergroup, &other.supergroup) {
            (None, None) => true,
            (Some(a), Some(b)) => (**a).eq(&**b),
            _ => false,
        }
    }
}

impl<
    T: Clone + Hash + Eq + Debug,
    F: Fn(T, T) -> T + PartialEq,
    B: Fn(T) -> T + PartialEq,
> PartialEqSpecImpl for Group<T, F, B> {
    open spec fn obeys_eq_spec() -> bool {
        decides_equality::<T>() && F::obeys_eq_spec() && B::obeys_eq_spec()
    }

    open spec fn eq_spec(&self, other: &Self) -> bool {
        self.same_as(other)
    }
}

impl<T: Clone + Hash + Eq + Debug, F: Fn(T, T) -> T + Eq, B: Fn(T) -> T + Eq> Eq for Group<
    T,
    F,
    B,
> {

}

/// The subgroup test: whether `group` has an operation equal to that of
/// `supergroup`, the same identity, and a set that passes the subset test
/// against the set of `supergroup`.
pub fn subgroup_test<
    T: Clone + Hash + Debug + Eq,
    F: Fn(T, T) -> T + PartialEq,
    B: Fn(T) -> T + PartialEq,
>(group: Group<T, F, B>, supergroup: Group<T, F, B>) -> (r: bool)
    requires
        decides_equality::<T>(),
    ensures
        F::obeys_eq_spec() && B::obeys_eq_spec() ==> r == group.is_subgroup_of(&supergroup),
        r ==> group.identity == supergroup.identity && group.set.passes_subset_test(
            &supergroup.set,
        ),
{
    group.within(&supergroup)
}

/// The normality test: whether `subgroup` is attached to `supergroup` and
/// `sup * sub * sup` is an element of the subgroup for every element `sub`
/// of the subgroup and every element `sup` of the supergroup.
///
/// A subgroup that is attached to `supergroup` must bring the function that
/// inverts its operation. The test does not call it.
pub fn normality_test<
    T: Clone + Hash + Debug + Eq,
    F: Fn(T, T) -> T + PartialEq,
    B: Fn(T) -> T + PartialEq,
>(subgroup: Group<T, F, B>, supergroup: Group<T, F, B>) -> (r: bool)
    requires
        decides_equality::<T>(),
        clones_exactly::<T>(),
        is_total(subgroup.operation.forwards),
        subgroup.attached_to(&supergroup) ==> subgroup.operation.has_backwards,
    ensures
        !subgroup.has_supergroup || subgroup.supergroup is None ==> !r,
        F::obeys_eq_spec() && B::obeys_eq_spec() ==> {
            &&& !subgroup.attached_to(&supergroup) ==> !r
            &&& forall|m: spec_fn(T, T) -> T| #[trigger]
                computes(subgroup.operation.forwards, m) ==> r == subgroup.passes_normality_test(
                    &supergroup,
                    m,
                )
        },
        forall|m: spec_fn(T, T) -> T| #[trigger]
            computes(subgroup.operation.forwards, m) ==> (r ==> products_stay(
                subgroup.set.elements@,
                supergroup.set.elements@,
                m,
            )),
{
    if !subgroup.has_supergroup {
        return false;
    }
    match &subgroup.supergroup {
        None => {
            return false;
        },
        Some(parent) => {
            if **parent != supergroup {
                return false;
            }
        },
    }
    let ghost inner = subgroup.set.elements@;
    let ghost outer = supergroup.set.elements@;
    let ghost f = subgroup.operation.forwards;
    let mut a: usize = 0;
    while a < subgroup.set.elements.len()
        invariant
            decides_equality::<T>(),
            clones_exactly::<T>(),
            is_total(subgroup.operation.forwards),
            inner == subgroup.set.elements@,
            outer == supergroup.set.elements@,
            f == subgroup.operation.forwards,
            a <= inner.len(),
            forall|m: spec_fn(T, T) -> T, x: int, y: int|
                #![trigger computes(f, m), product_stays(inner, outer, m, x, y)]
                computes(f, m) && 0 <= x < a && 0 <= y < outer.len() ==> product_stays(
                    inner,
                    outer,
                    m,
                    x,
                    y,
                ),
        decreases subgroup.set.elements.len() - a,
    {
        let mut b: usize = 0;
        while b < supergroup.set.elements.len()
            invariant
                decides_equality::<T>(),
                clones_exactly::<T>(),
                is_total(subgroup.operation.forwards),
                inner == subgroup.set.elements@,
                outer == supergroup.set.elements@,
                f == subgroup.operation.forwards,
                a < inner.len(),
                b <= outer.len(),
                forall|m: spec_fn(T, T) -> T, y: int|
                    #![trigger computes(f, m), product_stays(inner, outer, m, a as int, y)]
                    computes(f, m) && 0 <= y < b ==> product_stays(inner, outer, m, a as int, y),
            decreases supergroup.set.elements.len() - b,
        {
            let product = apply(
                &subgroup.operation.forwards,
                apply(
                    &subgroup.operation.forwards,
                    copy_of(&supergroup.set.elements[b]),
                    copy_of(&subgroup.set.elements[a]),
                ),
                copy_of(&supergroup.set.elements[b]),
            );
            if !subgroup.set.holds(&product) {
                assert forall|m: spec_fn(T, T) -> T| #[trigger] computes(f, m) implies !products_stay(
                    inner,
                    outer,
                    m,
                ) by {
                    assert(!product_stays(inner, outer, m, a as int, b as int));
                }
                return false;
            }
            b += 1;
        }
        a += 1;
    }
    true
}

/// A group that is made of a set and an operation known to be one.
pub trait SymmetricGroup<T: Clone + Hash + Debug + Eq, F: Fn(T, T) -> T, B: Fn(T) -> T>: Sized {
    /// The set and the operation that `new` may be called on.
    spec fn makes_group(set: &FiniteSet<T>, operation: &Operation<T, F, B>) -> bool;

    /// This is the group that `new` makes of the set and the operation.
    spec fn made_of(&self, set: &FiniteSet<T>, operation: &Operation<T, F, B>) -> bool;

    /// The group of `set` under `operation`.
    fn new(set: FiniteSet<T>, operation: Operation<T, F, B>) -> (group: Self)
        requires
            Self::makes_group(&set, &operation),
        ensures
            group.made_of(&set, &operation),
    ;

    /// Whether this is such a group.
    fn whoami(&self) -> (r: bool);
}

impl<T: Clone + Hash + Debug + Eq, F: Fn(T, T) -> T, B: Fn(T) -> T> SymmetricGroup<
    T,
    F,
    B,
> for Group<T, F, B> {
    /// A set that passes the group test under a function that the
    /// operation computes.
    open spec fn makes_group(set: &FiniteSet<T>, operation: &Operation<T, F, B>) -> bool {
        &&& decides_equality::<T>()
        &&& clones_exactly::<T>()
        &&& is_total(operation.forwards)
        &&& exists|m: spec_fn(T, T) -> T| #[trigger]
            computes(operation.forwards, m) && passes_group_test(set.elements@, m)
    }

    /// The group that `Group::new` makes of them.
    open spec fn made_of(&self, set: &FiniteSet<T>, operation: &Operation<T, F, B>) -> bool {
        &&& self.set == *set
        &&& self.operation == *operation
        &&& forall|m: spec_fn(T, T) -> T| #[trigger]
            computes(operation.forwards, m) ==> self.is_verified_under(m)
        &&& !self.has_supergroup
        &&& self.supergroup is None
    }

    fn new(set: FiniteSet<T>, operation: Operation<T, F, B>) -> Self {
        Group::new(set, operation).unwrap()
    }

    fn whoami(&self) -> (r: bool)
        ensures
            r,
    {
        true
    }
}

} // verus!
