//! Enumerations that the library takes from other crates, each behind a
//! wrapper whose contract states what the crate documents.

use crate::elements::{clones_exactly, decides_equality};
use bitvec::order::Lsb0;
use bitvec::view::BitView;
use itertools::Itertools;
use std::hash::Hash;
use vstd::prelude::*;
use vstd::std_specs::hash::obeys_key_model;

verus! {

/// The items of a sequence in the order in which they first occur, each once.
pub open spec fn first_occurrences<T>(items: Seq<T>) -> Seq<T>
    decreases items.len(),
{
    if items.len() == 0 {
        Seq::empty()
    } else {
        let kept = first_occurrences(items.drop_last());
        if kept.contains(items.last()) {
            kept
        } else {
            kept.push(items.last())
        }
    }
}

/// What `first_occurrences` keeps is what the sequence holds, and it holds
/// nothing twice.
pub proof fn lemma_first_occurrences<T>(items: Seq<T>)
    ensures
        first_occurrences(items).no_duplicates(),
        first_occurrences(items).len() <= items.len(),
        forall|x: T| first_occurrences(items).contains(x) <==> items.contains(x),
    decreases items.len(),
{
    if items.len() > 0 {
        let front = items.drop_last();
        let kept = first_occurrences(front);
        let all = first_occurrences(items);
        lemma_first_occurrences(front);
        assert forall|x: T| all.contains(x) implies items.contains(x) by {
            let p = all.index_of(x);
            if p < kept.len() {
                assert(kept[p] == x);
                assert(kept.contains(x));
                assert(front.contains(x));
                let i = front.index_of(x);
                assert(front[i] == x);
                assert(items[i] == x);
            } else {
                assert(items[items.len() - 1] == x);
            }
        }
        assert forall|x: T| items.contains(x) implies all.contains(x) by {
            let i = items.index_of(x);
            if i < items.len() - 1 {
                assert(front[i] == x);
                assert(front.contains(x));
                let p = kept.index_of(x);
                assert(all[p] == x);
            } else if kept.contains(x) {
                let p = kept.index_of(x);
                assert(all[p] == x);
            } else {
                assert(all[kept.len() as int] == x);
            }
        }
    }
}

/// A sequence that holds nothing twice is its own `first_occurrences`.
pub proof fn lemma_first_occurrences_of_distinct<T>(items: Seq<T>)
    requires
        items.no_duplicates(),
    ensures
        first_occurrences(items) == items,
    decreases items.len(),
{
    if items.len() > 0 {
        let front = items.drop_last();
        lemma_first_occurrences_of_distinct(front);
        if front.contains(items.last()) {
            let i = choose|i: int| 0 <= i < front.len() && front[i] == items.last();
            assert(items[i] == items[items.len() - 1]);
        }
        assert(front.push(items.last()) =~= items);
    }
}

/// Three positions below `n`, in rising order.
pub open spec fn is_rising_triple(t: (int, int, int), n: int) -> bool {
    0 <= t.0 < t.1 < t.2 < n
}

/// Lexicographic order on triples of positions.
pub open spec fn lex_before(a: (int, int, int), b: (int, int, int)) -> bool {
    a.0 < b.0 || (a.0 == b.0 && (a.1 < b.1 || (a.1 == b.1 && a.2 < b.2)))
}

/// `positions` holds every rising triple below `n`, and nothing else, in
/// lexicographic order. There is exactly one such sequence for each `n`.
pub open spec fn lists_rising_triples(positions: Seq<(int, int, int)>, n: int) -> bool {
    &&& forall|c: int| 0 <= c < positions.len() ==> is_rising_triple(#[trigger] positions[c], n)
    &&& forall|c: int, d: int|
        0 <= c < d < positions.len() ==> lex_before(#[trigger] positions[c], #[trigger] positions[d])
    &&& forall|i: int, j: int, k: int|
        0 <= i < j < k < n ==> #[trigger] positions.contains((i, j, k))
}

/// `chosen` holds the three items that stand at the positions `t`.
pub open spec fn picks<T>(chosen: Seq<&T>, items: Seq<T>, t: (int, int, int)) -> bool {
    &&& chosen.len() == 3
    &&& *chosen[0] == items[t.0]
    &&& *chosen[1] == items[t.1]
    &&& *chosen[2] == items[t.2]
}

/// `combinations` picks, one after the other, the items at the positions
/// that `positions` lists.
pub open spec fn picks_each<T>(
    combinations: Seq<Vec<&T>>,
    items: Seq<T>,
    positions: Seq<(int, int, int)>,
) -> bool {
    &&& combinations.len() == positions.len()
    &&& forall|c: int|
        0 <= c < combinations.len() ==> picks((#[trigger] combinations[c])@, items, positions[c])
}

/// `combinations` holds the items of every rising triple of positions in
/// `items`, in lexicographic order of the positions.
pub open spec fn holds_triples_of<T>(combinations: Seq<Vec<&T>>, items: Seq<T>) -> bool {
    exists|positions: Seq<(int, int, int)>|
        lists_rising_triples(positions, items.len() as int) && #[trigger] picks_each(
            combinations,
            items,
            positions,
        )
}

/// Whether bit `i` of `mask` is set, bit 0 being the least significant.
pub open spec fn bit_is_set(mask: u64, i: int) -> bool {
    0 <= i < 64 && mask & (1u64 << (i as u64)) != 0
}

/// Calls `Itertools::unique` on the items and collects what it yields.
///
/// Trusted: the adaptor yields a clone of each item that is not equal to an
/// earlier one, in the order of the input. It finds earlier items in a hash
/// map, so the claim rests on `T` hashing equal values alike, on `==`
/// deciding equality and on clones being exact.
#[verifier::external_body]
pub(crate) fn unique_in_order<T: Clone + Hash + Eq>(items: Vec<T>) -> (r: Vec<T>)
    requires
        decides_equality::<T>(),
        clones_exactly::<T>(),
        obeys_key_model::<T>(),
    ensures
        r@ == first_occurrences(items@),
{
    items.into_iter().unique().collect()
}

/// Calls `Itertools::combinations` with `k = 3` on the items and collects
/// what it yields.
///
/// Trusted: the adaptor goes by position, not by value. It yields one vector
/// of three references for each choice of three rising positions, in
/// lexicographic order of the positions, and nothing when there are fewer
/// than three items.
#[verifier::external_body]
pub(crate) fn combinations_of_three<T>(items: &Vec<T>) -> (r: Vec<Vec<&T>>)
    ensures
        holds_triples_of(r@, items@),
{
    items.iter().combinations(3).collect()
}

/// Reads bit `i` of `mask` through `BitView::view_bits` in `Lsb0` order.
///
/// Trusted: the view of a `u64` has 64 bits, indexing it past that panics,
/// and in `Lsb0` order index `i` selects the bit `1 << i`.
#[verifier::external_body]
pub(crate) fn bit_at(mask: u64, i: usize) -> (b: bool)
    requires
        i < 64,
    ensures
        b == bit_is_set(mask, i as int),
{
    mask.view_bits::<Lsb0>()[i]
}

} // verus!
