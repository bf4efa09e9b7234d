//! Finite sets that remember a set they are part of.

use crate::elements::{clones_exactly, copy_of, decides_equality, same};
use crate::enumeration::{
    bit_at, bit_is_set, first_occurrences, lemma_first_occurrences,
    lemma_first_occurrences_of_distinct, unique_in_order,
};
use crate::selection::{
    lemma_every_subset_is_selected, lemma_selected_distinct, lemma_selected_within,
    lemma_selections_differ, mask_of, selected,
};
use std::fmt::Debug;
use std::hash::Hash;
use std::rc::Rc;
use vstd::arithmetic::power2::pow2;
use vstd::bits::{lemma_u64_pow2_no_overflow, lemma_u64_shl_is_mul};
use vstd::prelude::*;
use vstd::std_specs::cmp::PartialEqSpecImpl;
use vstd::std_specs::hash::obeys_key_model;

verus! {

/// A finite set of `T`, kept as the sequence of its members.
///
/// The model of a set is the mathematical set of its members, `self@`. The
/// order of `elements` is the order in which the members came in; it decides
/// in which order the library walks them and nothing else.
#[derive(Debug, Hash)]
pub struct FiniteSet<T: Clone + Hash + Eq + Debug> {
    /// The members, each once, in the order in which they were added.
    pub elements: Vec<T>,
    /// A set that is known to hold every member of this one, once such a set
    /// has been established.
    pub superset: Option<Rc<FiniteSet<T>>>,
}

impl<T: Clone + Hash + Eq + Debug> View for FiniteSet<T> {
    type V = Set<T>;

    open spec fn view(&self) -> Set<T> {
        self.elements@.to_set()
    }
}

/// The sequence that an optional vector stands for: its items, or none.
pub open spec fn items_of<T>(given: Option<Vec<T>>) -> Seq<T> {
    match given {
        Some(v) => v@,
        None => Seq::empty(),
    }
}

impl<T: Clone + Hash + Eq + Debug> FiniteSet<T> {
    /// The two sets hold the same members in the same order, and so do the
    /// sets they are linked to, all the way up. This is what `==` decides.
    pub open spec fn same_as(&self, other: &Self) -> bool
        decreases self,
    {
        &&& self.elements@ == other.elements@
        &&& match (self.superset, other.superset) {
            (None, None) => true,
            (Some(a), Some(b)) => a.same_as(&*b),
            _ => false,
        }
    }

    /// No member occurs twice, and a linked superset holds every member.
    pub open spec fn wf(&self) -> bool {
        &&& self.elements@.no_duplicates()
        &&& self.superset matches Some(parent) ==> self@.subset_of(parent@)
    }

    /// The set is linked to a superset that is the same as `candidate`.
    pub open spec fn linked_to(&self, candidate: &Self) -> bool {
        self.superset matches Some(parent) && parent.same_as(candidate)
    }

    /// Adding `element` leaves the link true: the set holds the element
    /// already, or it has no link, or the linked superset holds the
    /// element too.
    pub open spec fn link_admits(&self, element: T) -> bool {
        ||| self.elements@.contains(element)
        ||| self.superset is None
        ||| self.superset->0.elements@.contains(element)
    }

    /// Every member, one by one, is a member of `candidate`.
    pub open spec fn each_member_in(&self, candidate: &Self) -> bool {
        forall|i: int|
            0 <= i < self.elements@.len() ==> candidate.elements@.contains(
                #[trigger] self.elements@[i],
            )
    }

    /// What the subset test answers: the empty set passes, a set linked to
    /// the candidate passes on the strength of the link, and any other set
    /// passes if each of its members is found in the candidate.
    pub open spec fn passes_subset_test(&self, candidate: &Self) -> bool {
        ||| self.elements@.len() == 0
        ||| self.linked_to(candidate)
        ||| self.each_member_in(candidate)
    }

    /// A set is the same as itself.
    pub proof fn lemma_same_as_itself(&self)
        ensures
            self.same_as(self),
        decreases self,
    {
        if let Some(parent) = self.superset {
            parent.lemma_same_as_itself();
        }
    }

    /// Walking the members and looking each one up decides inclusion.
    pub proof fn lemma_each_member_in(&self, candidate: &Self)
        ensures
            self.each_member_in(candidate) <==> self@.subset_of(candidate@),
    {
        if self.each_member_in(candidate) {
            assert forall|x: T| self@.contains(x) implies candidate@.contains(x) by {
                let i = self.elements@.index_of(x);
                assert(self.elements@[i] == x);
            }
        }
        if self@.subset_of(candidate@) {
            assert forall|i: int| 0 <= i < self.elements@.len() implies candidate.elements@.contains(
                #[trigger] self.elements@[i],
            ) by {
                assert(self.elements@.contains(self.elements@[i]));
                assert(self@.contains(self.elements@[i]));
            }
        }
    }

    /// For a well-formed set the subset test decides inclusion: the two
    /// shortcuts never answer otherwise than the walk would.
    pub proof fn lemma_subset_test_decides_inclusion(&self, candidate: &Self)
        requires
            self.wf(),
        ensures
            self.passes_subset_test(candidate) <==> self@.subset_of(candidate@),
    {
        self.lemma_each_member_in(candidate);
        if self.elements@.len() == 0 {
            assert(self.each_member_in(candidate));
        }
        if self.linked_to(candidate) {
            let parent = self.superset->0;
            assert(parent.elements@ == candidate.elements@);
            assert(parent@ == candidate@);
        }
    }

    /// The set of the distinct items of `vec`, in the order in which they
    /// first occur there, and of no items where there is no vector. It is
    /// linked to no superset.
    pub fn new(vec: Option<Vec<T>>) -> (s: FiniteSet<T>)
        requires
            decides_equality::<T>(),
            clones_exactly::<T>(),
            obeys_key_model::<T>(),
        ensures
            s.elements@ == first_occurrences(items_of(vec)),
            s.superset is None,
            s@ == items_of(vec).to_set(),
            s.wf(),
    {
        let given = match vec {
            Some(v) => v,
            None => Vec::new(),
        };
        let elements = unique_in_order(given);
        proof {
            lemma_first_occurrences(items_of(vec));
            assert(elements@.to_set() =~= items_of(vec).to_set());
        }
        FiniteSet { elements, superset: None }
    }

    /// The set without members and without a link.
    pub fn empty() -> (s: FiniteSet<T>)
        ensures
            s.elements@.len() == 0,
            s.superset is None,
            s@ == Set::<T>::empty(),
            s.wf(),
    {
        let s = FiniteSet { elements: Vec::new(), superset: None };
        assert(s@ =~= Set::<T>::empty());
        s
    }

    /// Whether `element` is a member, taken by reference.
    pub fn holds(&self, element: &T) -> (r: bool)
        requires
            decides_equality::<T>(),
        ensures
            r == self.elements@.contains(*element),
            r == self@.contains(*element),
    {
        let mut i: usize = 0;
        while i < self.elements.len()
            invariant
                decides_equality::<T>(),
                i <= self.elements@.len(),
                forall|j: int| 0 <= j < i ==> self.elements@[j] != *element,
            decreases self.elements.len() - i,
        {
            if same(&self.elements[i], element) {
                assert(self.elements@[i as int] == *element);
                return true;
            }
            i += 1;
        }
        false
    }

    /// Whether `element` is a member.
    pub fn contains(&self, element: T) -> (r: bool)
        requires
            decides_equality::<T>(),
        ensures
            r == self@.contains(element),
    {
        self.holds(&element)
    }

    /// The number of members.
    pub fn order(&self) -> (n: usize)
        ensures
            n == self.elements@.len(),
            self.elements@.no_duplicates() ==> n == self@.len(),
    {
        proof {
            if self.elements@.no_duplicates() {
                self.elements@.unique_seq_to_set();
            }
        }
        self.elements.len()
    }

    /// Makes `element` a member. A set that holds it already stays as it is;
    /// otherwise the element comes last.
    ///
    /// The link stays where it still covers the set. Where the linked
    /// superset does not hold the new member, the link is dropped: it
    /// would no longer say what it is there to say.
    pub fn add(&mut self, element: T)
        requires
            decides_equality::<T>(),
        ensures
            final(self).elements@ == if old(self).elements@.contains(element) {
                old(self).elements@
            } else {
                old(self).elements@.push(element)
            },
            final(self).superset == if old(self).link_admits(element) {
                old(self).superset
            } else {
                None
            },
            final(self)@ == old(self)@.insert(element),
            old(self).elements@.no_duplicates() ==> final(self).elements@.no_duplicates(),
            old(self).wf() ==> final(self).wf(),
    {
        if !self.holds(&element) {
            let admitted = match &self.superset {
                Some(parent) => parent.holds(&element),
                None => true,
            };
            if !admitted {
                self.superset = None;
            }
            self.elements.push(element);
            assert(self.elements@.to_set() =~= old(self).elements@.to_set().insert(element)) by {
                assert forall|x: T| self.elements@.contains(x) <==> (old(self).elements@.contains(x)
                    || x == element) by {
                    if self.elements@.contains(x) {
                        let i = self.elements@.index_of(x);
                        if i < old(self).elements@.len() {
                            assert(old(self).elements@[i] == x);
                        }
                    }
                    if old(self).elements@.contains(x) {
                        let i = old(self).elements@.index_of(x);
                        assert(self.elements@[i] == x);
                    }
                    if x == element {
                        assert(self.elements@[self.elements@.len() - 1] == x);
                    }
                }
            }
        } else {
            assert(self@ =~= old(self)@.insert(element));
        }
    }
}

impl<T: Clone + Hash + Eq + Debug> PartialEq for FiniteSet<T> {
    /// Compares the members in order, then the linked supersets.
    fn eq(&self, other: &Self) -> (r: bool)
        decreases self,
    {
        if self.elements.len() != other.elements.len() {
            return false;
        }
        let mut i: usize = 0;
        while i < self.elements.len()
            invariant
                i <= self.elements@.len(),
                self.elements@.len() == other.elements@.len(),
                decides_equality::<T>() ==> forall|j: int|
                    0 <= j < i ==> self.elements@[j] == other.elements@[j],
            decreases self.elements.len() - i,
        {
            if self.elements[i] != other.elements[i] {
                assert(decides_equality::<T>() ==> self.elements@[i as int]
                    != other.elements@[i as int]);
                return false;
            }
            i += 1;
        }
        assert(decides_equality::<T>() ==> self.elements@ =~= other.elements@);
        match (&self.superset, &other.superset) {
            (None, None) => true,
            (Some(a), Some(b)) => (**a).eq(&**b),
            _ => false,
        }
    }
}

impl<T: Clone + Hash + Eq + Debug> PartialEqSpecImpl for FiniteSet<T> {
    open spec fn obeys_eq_spec() -> bool {
        decides_equality::<T>()
    }

    open spec fn eq_spec(&self, other: &Self) -> bool {
        self.same_as(other)
    }
}

impl<T: Clone + Hash + Eq + Debug> Eq for FiniteSet<T> {

}

impl<T: Clone + Hash + Eq + Debug> Clone for FiniteSet<T> {
    /// A set with a clone of each member, linked to the same superset.
    fn clone(&self) -> (r: Self)
        ensures
            r.elements@.len() == self.elements@.len(),
            forall|i: int|
                0 <= i < self.elements@.len() ==> cloned::<T>(
                    self.elements@[i],
                    #[trigger] r.elements@[i],
                ),
            r.superset == self.superset,
            clones_exactly::<T>() ==> r.elements@ == self.elements@ && r.same_as(self),
            clones_exactly::<T>() && self.wf() ==> r.wf(),
    {
        let elements = self.elements.clone();
        let superset = match &self.superset {
            Some(parent) => Some(Rc::clone(parent)),
            None => None,
        };
        let r = FiniteSet { elements, superset };
        proof {
            if clones_exactly::<T>() {
                assert(r.elements@ =~= self.elements@);
                self.lemma_same_as_itself();
            }
        }
        r
    }
}

/// The set at position `m` of `sets` has exactly the members `wanted`.
pub open spec fn is_the_set<T: Clone + Hash + Eq + Debug>(
    sets: Seq<FiniteSet<T>>,
    wanted: Set<T>,
    m: int,
) -> bool {
    0 <= m < sets.len() && sets[m]@ == wanted
}

/// One of `sets` has exactly the members `wanted`.
pub open spec fn holds_the_set<T: Clone + Hash + Eq + Debug>(
    sets: Seq<FiniteSet<T>>,
    wanted: Set<T>,
) -> bool {
    exists|m: int| is_the_set(sets, wanted, m)
}

impl<T: Clone + Hash + Eq + Debug> FiniteSet<T> {
    /// The set has the members of `other` in the same order and the very
    /// link of `other`.
    pub open spec fn copies(&self, other: &Self) -> bool {
        &&& self.elements@ == other.elements@
        &&& self.superset == other.superset
    }

    /// `member` is the subset that the powerset of this set holds under
    /// `number`: its members are those whose position is a set bit of
    /// `number`, and it is linked to a copy of this set.
    pub open spec fn has_subset_numbered(&self, member: &FiniteSet<T>, number: int) -> bool {
        &&& member.elements@ == first_occurrences(selected(self.elements@, number as u64))
        &&& member.superset matches Some(parent) && parent.copies(self)
    }

    /// A copy of a set is the same as that set.
    pub proof fn lemma_copy_is_same(&self, other: &Self)
        requires
            self.copies(other),
        ensures
            self.same_as(other),
    {
        if let Some(parent) = self.superset {
            parent.lemma_same_as_itself();
        }
    }

    /// Each subset that the powerset holds is well-formed and a subset of
    /// this set, by its link and member by member alike. Where this set
    /// holds nothing twice, its members are the selected ones as they stand.
    pub proof fn lemma_numbered_subset(&self, member: &FiniteSet<T>, number: int)
        requires
            self.has_subset_numbered(member, number),
        ensures
            member.wf(),
            member.linked_to(self),
            member.each_member_in(self),
            member@.subset_of(self@),
            member.elements@.len() <= self.elements@.len(),
            self.elements@.no_duplicates() ==> member.elements@ == selected(
                self.elements@,
                number as u64,
            ),
    {
        let chosen = selected(self.elements@, number as u64);
        let parent = member.superset->0;
        lemma_selected_within(self.elements@, number as u64);
        lemma_first_occurrences(chosen);
        parent.lemma_copy_is_same(self);
        assert forall|i: int| 0 <= i < member.elements@.len() implies self.elements@.contains(
            #[trigger] member.elements@[i],
        ) by {
            assert(member.elements@.contains(member.elements@[i]));
            assert(chosen.contains(member.elements@[i]));
        }
        member.lemma_each_member_in(self);
        assert(parent@ == self@);
        if self.elements@.no_duplicates() {
            lemma_selected_distinct(self.elements@, number as u64);
            lemma_first_occurrences_of_distinct(chosen);
        }
    }

    /// Among the subsets numbered from 0 to 2^n - 1, every set of members
    /// of this set is found, the empty set and the set of all members too.
    pub proof fn lemma_subsets_complete(&self, subsets: Seq<FiniteSet<T>>, wanted: Set<T>)
        requires
            self.elements@.len() < 64,
            subsets.len() == pow2(self.elements@.len()),
            forall|m: int|
                0 <= m < subsets.len() ==> self.has_subset_numbered(#[trigger] &subsets[m], m),
            wanted.subset_of(self@),
        ensures
            holds_the_set(subsets, wanted),
    {
        let mask = mask_of(self.elements@, wanted);
        lemma_every_subset_is_selected(self.elements@, wanted);
        let member = subsets[mask as int];
        assert(self.has_subset_numbered(&member, mask as int));
        let chosen = selected(self.elements@, mask);
        lemma_first_occurrences(chosen);
        assert(member.elements@.to_set() =~= chosen.to_set());
        assert(is_the_set(subsets, wanted, mask as int));
    }

    /// The subsets of a set that holds nothing twice, numbered from 0 to
    /// 2^n - 1, are all different.
    pub proof fn lemma_subsets_distinct(&self, subsets: Seq<FiniteSet<T>>)
        requires
            self.elements@.len() < 64,
            self.elements@.no_duplicates(),
            subsets.len() == pow2(self.elements@.len()),
            forall|m: int|
                0 <= m < subsets.len() ==> self.has_subset_numbered(#[trigger] &subsets[m], m),
        ensures
            subsets.no_duplicates(),
    {
        lemma_u64_pow2_no_overflow(self.elements@.len());
        assert forall|a: int, b: int|
            0 <= a < subsets.len() && 0 <= b < subsets.len() && a != b implies subsets[a]
            != subsets[b] by {
            assert(self.has_subset_numbered(&subsets[a], a));
            assert(self.has_subset_numbered(&subsets[b], b));
            self.lemma_numbered_subset(&subsets[a], a);
            self.lemma_numbered_subset(&subsets[b], b);
            lemma_selections_differ(self.elements@, a as u64, b as u64);
        }
    }

    /// The subset test, on sets taken by reference.
    pub fn included_in(&self, candidate: &FiniteSet<T>) -> (r: bool)
        requires
            decides_equality::<T>(),
        ensures
            r == self.passes_subset_test(candidate),
            self.wf() ==> r == self@.subset_of(candidate@),
    {
        proof {
            if self.wf() {
                self.lemma_subset_test_decides_inclusion(candidate);
            }
        }
        if self.elements.len() == 0 {
            return true;
        }
        if let Some(parent) = &self.superset {
            if **parent == *candidate {
                return true;
            }
        }
        let mut i: usize = 0;
        while i < self.elements.len()
            invariant
                decides_equality::<T>(),
                i <= self.elements@.len(),
                self.elements@.len() > 0,
                !self.linked_to(candidate),
                forall|j: int|
                    0 <= j < i ==> candidate.elements@.contains(#[trigger] self.elements@[j]),
            decreases self.elements.len() - i,
        {
            if !candidate.holds(&self.elements[i]) {
                return false;
            }
            i += 1;
        }
        true
    }

    /// Whether this set is a subset of `superset`: the subset test. Neither
    /// set is changed by it.
    pub fn is_subset(&mut self, superset: FiniteSet<T>) -> (r: bool)
        requires
            decides_equality::<T>(),
        ensures
            r == old(self).passes_subset_test(&superset),
            old(self).wf() ==> r == old(self)@.subset_of(superset@),
            *final(self) == *old(self),
    {
        self.included_in(&superset)
    }

    /// Links this set to `superset` if it passes the subset test against it,
    /// and says whether it did. A set that fails the test stays as it was.
    pub fn add_superset(&mut self, superset: FiniteSet<T>) -> (r: bool)
        requires
            decides_equality::<T>(),
        ensures
            r == old(self).passes_subset_test(&superset),
            old(self).wf() ==> r == old(self)@.subset_of(superset@),
            r ==> final(self).elements == old(self).elements && (final(self).superset matches Some(
                parent,
            ) && *parent == superset),
            !r ==> *final(self) == *old(self),
            old(self).wf() ==> final(self).wf(),
    {
        if self.included_in(&superset) {
            self.superset = Some(Rc::new(superset));
            true
        } else {
            false
        }
    }

    /// The set of all subsets of this set.
    ///
    /// The subsets come in the order of the numbers from 0 to 2^n - 1, n
    /// being the number of members: the subset under a number holds the
    /// member at position `i` exactly when bit `i` of the number is set.
    /// Every subset is linked to one and the same copy of this set. The
    /// numbers are 64 bits wide, so the set may have 63 members at most.
    pub fn powerset(&self) -> (r: FiniteSet<FiniteSet<T>>)
        requires
            self.elements@.len() < 64,
            decides_equality::<T>(),
            clones_exactly::<T>(),
        ensures
            r.superset is None,
            r.elements@.len() == pow2(self.elements@.len()),
            forall|m: int|
                0 <= m < r.elements@.len() ==> self.has_subset_numbered(
                    #[trigger] &r.elements@[m],
                    m,
                ),
            forall|m: int|
                0 <= m < r.elements@.len() ==> {
                    &&& (#[trigger] r.elements@[m]).wf()
                    &&& r.elements@[m].linked_to(self)
                    &&& r.elements@[m].each_member_in(self)
                    &&& r.elements@[m]@.subset_of(self@)
                },
            forall|a: int, b: int|
                0 <= a < r.elements@.len() && 0 <= b < r.elements@.len() ==> (
                #[trigger] r.elements@[a]).superset == (#[trigger] r.elements@[b]).superset,
            forall|wanted: Set<T>| #[trigger]
                wanted.subset_of(self@) ==> holds_the_set(r.elements@, wanted),
            self.elements@.no_duplicates() ==> r.wf(),
    {
        let current_length = self.elements.len();
        let shift = current_length as u64;
        proof {
            lemma_u64_pow2_no_overflow(shift as nat);
            lemma_u64_shl_is_mul(1u64, shift);
        }
        let new_length: u64 = 1u64 << shift;
        let link = Rc::new(self.clone());
        let mut subsets: Vec<FiniteSet<T>> = Vec::new();
        let mut n: u64 = 0;
        while n < new_length
            invariant
                decides_equality::<T>(),
                clones_exactly::<T>(),
                current_length == self.elements@.len(),
                current_length < 64,
                new_length == pow2(self.elements@.len()),
                n <= new_length,
                link.copies(self),
                subsets@.len() == n,
                forall|m: int|
                    0 <= m < n ==> self.has_subset_numbered(#[trigger] &subsets@[m], m),
                forall|m: int| 0 <= m < n ==> (#[trigger] subsets@[m]).superset == Some(link),
            decreases new_length - n,
        {
            let mut temp: FiniteSet<T> = FiniteSet::empty();
            let mut i: usize = 0;
            while i < current_length
                invariant
                    decides_equality::<T>(),
                    clones_exactly::<T>(),
                    current_length == self.elements@.len(),
                    current_length < 64,
                    i <= current_length,
                    temp.superset is None,
                    temp.elements@ == first_occurrences(
                        selected(self.elements@.take(i as int), n),
                    ),
                decreases current_length - i,
            {
                proof {
                    let upto = self.elements@.take(i + 1);
                    assert(upto.drop_last() =~= self.elements@.take(i as int));
                    assert(upto.last() == self.elements@[i as int]);
                    let chosen = selected(upto, n);
                    if bit_is_set(n, i as int) {
                        assert(chosen.drop_last() =~= selected(upto.drop_last(), n));
                    }
                }
                if bit_at(n, i) {
                    temp.add(copy_of(&self.elements[i]));
                }
                i += 1;
            }
            assert(self.elements@.take(current_length as int) =~= self.elements@);
            temp.superset = Some(Rc::clone(&link));
            subsets.push(temp);
            n += 1;
        }
        let r = FiniteSet { elements: subsets, superset: None };
        proof {
            assert forall|m: int| 0 <= m < r.elements@.len() implies {
                &&& (#[trigger] r.elements@[m]).wf()
                &&& r.elements@[m].linked_to(self)
                &&& r.elements@[m].each_member_in(self)
                &&& r.elements@[m]@.subset_of(self@)
            } by {
                assert(self.has_subset_numbered(&r.elements@[m], m));
                self.lemma_numbered_subset(&r.elements@[m], m);
            }
            assert forall|wanted: Set<T>| #[trigger] wanted.subset_of(self@) implies holds_the_set(
                r.elements@,
                wanted,
            ) by {
                self.lemma_subsets_complete(r.elements@, wanted);
            }
            if self.elements@.no_duplicates() {
                self.lemma_subsets_distinct(r.elements@);
            }
        }
        r
    }
}

} // verus!
