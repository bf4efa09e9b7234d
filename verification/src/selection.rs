//! Selections from a sequence by the bits of a number, which is how the
//! subsets of a set are numbered.

use crate::enumeration::bit_is_set;
use vstd::arithmetic::power2::{lemma2_to64, pow2};
use vstd::bits::{lemma_u64_pow2_no_overflow, lemma_u64_shl_is_mul};
use vstd::prelude::*;

verus! {

/// The items of `items` that stand at a position whose bit is set in `mask`,
/// in their order.
pub open spec fn selected<T>(items: Seq<T>, mask: u64) -> Seq<T>
    decreases items.len(),
{
    if items.len() == 0 {
        Seq::empty()
    } else {
        let front = selected(items.drop_last(), mask);
        if bit_is_set(mask, items.len() - 1) {
            front.push(items.last())
        } else {
            front
        }
    }
}

/// A selection holds only items of the sequence it was made from, and no
/// more of them than there are.
pub proof fn lemma_selected_within<T>(items: Seq<T>, mask: u64)
    ensures
        selected(items, mask).len() <= items.len(),
        forall|x: T| selected(items, mask).contains(x) ==> items.contains(x),
    decreases items.len(),
{
    if items.len() > 0 {
        let front = items.drop_last();
        lemma_selected_within(front, mask);
        assert forall|x: T| selected(items, mask).contains(x) implies items.contains(x) by {
            let p = selected(items, mask).index_of(x);
            if p < selected(front, mask).len() {
                assert(selected(front, mask)[p] == x);
                assert(selected(front, mask).contains(x));
                assert(front.contains(x));
                let i = front.index_of(x);
                assert(front[i] == x);
                assert(items[i] == x);
            } else {
                assert(items[items.len() - 1] == x);
            }
        }
    }
}

/// A selection from a sequence that holds nothing twice holds nothing twice.
pub proof fn lemma_selected_distinct<T>(items: Seq<T>, mask: u64)
    requires
        items.no_duplicates(),
    ensures
        selected(items, mask).no_duplicates(),
    decreases items.len(),
{
    if items.len() > 0 {
        let front = items.drop_last();
        lemma_selected_distinct(front, mask);
        lemma_selected_within(front, mask);
        if selected(front, mask).contains(items.last()) {
            assert(front.contains(items.last()));
            let i = front.index_of(items.last());
            assert(front[i] == items.last());
            assert(items[i] == items[items.len() - 1]);
        }
    }
}

/// `x` stands in `items` at position `i`, and bit `i` of `mask` is set.
pub open spec fn picked_at<T>(items: Seq<T>, mask: u64, x: T, i: int) -> bool {
    0 <= i < items.len() && items[i] == x && bit_is_set(mask, i)
}

/// A selection holds an item exactly if the item stands at a position whose
/// bit is set.
pub proof fn lemma_selected_contains<T>(items: Seq<T>, mask: u64, x: T)
    ensures
        selected(items, mask).contains(x) <==> exists|i: int| picked_at(items, mask, x, i),
    decreases items.len(),
{
    if items.len() > 0 {
        let front = items.drop_last();
        let last = items.len() - 1;
        lemma_selected_contains(front, mask, x);
        if selected(items, mask).contains(x) {
            let p = selected(items, mask).index_of(x);
            if p < selected(front, mask).len() {
                assert(selected(front, mask)[p] == x);
                assert(selected(front, mask).contains(x));
                let i = choose|i: int| picked_at(front, mask, x, i);
                assert(picked_at(items, mask, x, i));
            } else {
                assert(picked_at(items, mask, x, last));
            }
        }
        if exists|i: int| picked_at(items, mask, x, i) {
            let i = choose|i: int| picked_at(items, mask, x, i);
            if i < last {
                assert(picked_at(front, mask, x, i));
                assert(selected(front, mask).contains(x));
                let p = selected(front, mask).index_of(x);
                assert(selected(items, mask)[p] == x);
            } else {
                assert(selected(items, mask)[selected(front, mask).len() as int] == x);
            }
        }
    } else {
        if exists|i: int| picked_at(items, mask, x, i) {
            let i = choose|i: int| picked_at(items, mask, x, i);
        }
    }
}

/// The number whose bit `i` is set exactly if `wanted` holds the item at
/// position `i`.
pub open spec fn mask_of<T>(items: Seq<T>, wanted: Set<T>) -> u64
    decreases items.len(),
{
    if items.len() == 0 {
        0
    } else {
        let lower = mask_of(items.drop_last(), wanted);
        if wanted.contains(items.last()) {
            lower | (1u64 << ((items.len() - 1) as u64))
        } else {
            lower
        }
    }
}

/// `mask_of` is below `2^n` for `n` items, and its bits say which items are
/// wanted.
pub proof fn lemma_mask_of<T>(items: Seq<T>, wanted: Set<T>)
    requires
        items.len() < 64,
    ensures
        mask_of(items, wanted) < pow2(items.len()),
        forall|i: int|
            0 <= i < items.len() ==> #[trigger] bit_is_set(mask_of(items, wanted), i)
                == wanted.contains(items[i]),
    decreases items.len(),
{
    if items.len() == 0 {
        lemma2_to64();
    } else {
        let front = items.drop_last();
        let lower = mask_of(front, wanted);
        lemma_mask_of(front, wanted);
        lemma_set_next_bit(lower, front.len());
        assert forall|i: int| 0 <= i < items.len() implies #[trigger] bit_is_set(
            mask_of(items, wanted),
            i,
        ) == wanted.contains(items[i]) by {
            if i < front.len() {
                assert(front[i] == items[i]);
                assert(bit_is_set(lower, i) == wanted.contains(front[i]));
            }
        }
    }
}

/// Every set of items of a sequence is the set of one of its selections.
pub proof fn lemma_every_subset_is_selected<T>(items: Seq<T>, wanted: Set<T>)
    requires
        items.len() < 64,
        wanted.subset_of(items.to_set()),
    ensures
        mask_of(items, wanted) < pow2(items.len()),
        selected(items, mask_of(items, wanted)).to_set() == wanted,
{
    let mask = mask_of(items, wanted);
    lemma_mask_of(items, wanted);
    assert forall|x: T| selected(items, mask).contains(x) <==> wanted.contains(x) by {
        lemma_selected_contains(items, mask, x);
        if selected(items, mask).contains(x) {
            let i = choose|i: int| picked_at(items, mask, x, i);
            assert(bit_is_set(mask, i) == wanted.contains(items[i]));
        }
        if wanted.contains(x) {
            assert(items.to_set().contains(x));
            assert(items.contains(x));
            let i = items.index_of(x);
            assert(bit_is_set(mask, i) == wanted.contains(items[i]));
            assert(picked_at(items, mask, x, i));
        }
    }
    assert(selected(items, mask).to_set() =~= wanted);
}

/// Two different numbers below `2^n` select differently from `n` items that
/// hold nothing twice.
pub proof fn lemma_selections_differ<T>(items: Seq<T>, a: u64, b: u64)
    requires
        items.len() < 64,
        items.no_duplicates(),
        a < pow2(items.len()),
        b < pow2(items.len()),
        a != b,
    ensures
        selected(items, a) != selected(items, b),
{
    lemma_numbers_differ_in_a_bit(a, b, items.len());
    let i = choose|i: int|
        0 <= i < items.len() && #[trigger] bit_is_set(a, i) != bit_is_set(b, i);
    let x = items[i];
    lemma_selected_contains(items, a, x);
    lemma_selected_contains(items, b, x);
    if bit_is_set(a, i) {
        assert(picked_at(items, a, x, i));
        if selected(items, b).contains(x) {
            let j = choose|j: int| picked_at(items, b, x, j);
            assert(items[j] == items[i]);
        }
    } else {
        assert(picked_at(items, b, x, i));
        if selected(items, a).contains(x) {
            let j = choose|j: int| picked_at(items, a, x, j);
            assert(items[j] == items[i]);
        }
    }
}

/// Two different numbers below `2^n` differ in one of their `n` lowest bits.
pub proof fn lemma_numbers_differ_in_a_bit(a: u64, b: u64, n: nat)
    requires
        n <= 63,
        a < pow2(n),
        b < pow2(n),
        a != b,
    ensures
        exists|i: int| 0 <= i < n && #[trigger] bit_is_set(a, i) != bit_is_set(b, i),
    decreases n,
{
    let k = n as u64;
    lemma_u64_pow2_no_overflow(n);
    lemma_u64_shl_is_mul(1u64, k);
    if n == 0 {
        assert(pow2(0) == 1) by {
            lemma2_to64();
        }
    } else {
        let top = 1u64 << ((k - 1) as u64);
        let low_a = a & !top;
        let low_b = b & !top;
        lemma_u64_pow2_no_overflow((n - 1) as nat);
        lemma_u64_shl_is_mul(1u64, (k - 1) as u64);
        assert(low_a < (1u64 << ((k - 1) as u64)) && low_b < (1u64 << ((k - 1) as u64)) && (((a
            & top != 0) == (b & top != 0)) ==> low_a != low_b)) by (bit_vector)
            requires
                1 <= k <= 63,
                a < (1u64 << k),
                b < (1u64 << k),
                a != b,
                top == 1u64 << ((k - 1) as u64),
                low_a == a & !top,
                low_b == b & !top,
        ;
        if (a & top != 0) != (b & top != 0) {
            assert(bit_is_set(a, n - 1) != bit_is_set(b, n - 1));
        } else {
            lemma_numbers_differ_in_a_bit(low_a, low_b, (n - 1) as nat);
            let i = choose|i: int|
                0 <= i < n - 1 && #[trigger] bit_is_set(low_a, i) != bit_is_set(low_b, i);
            let j = i as u64;
            assert((low_a & (1u64 << j) != 0) == (a & (1u64 << j) != 0) && (low_b & (1u64 << j)
                != 0) == (b & (1u64 << j) != 0)) by (bit_vector)
                requires
                    1 <= k <= 63,
                    j < k - 1,
                    top == 1u64 << ((k - 1) as u64),
                    low_a == a & !top,
                    low_b == b & !top,
            ;
            assert(bit_is_set(a, i) != bit_is_set(b, i));
        }
    }
}

/// Setting bit `n` of a number below `2^n` gives a number below `2^(n+1)`
/// with that bit set and the lower bits as they were; a number below `2^n`
/// is below `2^(n+1)` and has bit `n` clear.
pub proof fn lemma_set_next_bit(lower: u64, n: nat)
    requires
        n < 63,
        lower < pow2(n),
    ensures
        lower < pow2(n + 1),
        !bit_is_set(lower, n as int),
        (lower | (1u64 << (n as u64))) < pow2(n + 1),
        bit_is_set(lower | (1u64 << (n as u64)), n as int),
        forall|i: int|
            0 <= i < n ==> #[trigger] bit_is_set(lower | (1u64 << (n as u64)), i) == bit_is_set(
                lower,
                i,
            ),
{
    let k = n as u64;
    let raised = lower | (1u64 << k);
    lemma_u64_pow2_no_overflow(n);
    lemma_u64_shl_is_mul(1u64, k);
    lemma_u64_pow2_no_overflow(n + 1);
    lemma_u64_shl_is_mul(1u64, (k + 1) as u64);
    assert(lower < (1u64 << ((k + 1) as u64)) && lower & (1u64 << k) == 0 && raised < (1u64 << ((k
        + 1) as u64)) && raised & (1u64 << k) != 0) by (bit_vector)
        requires
            k < 63,
            lower < (1u64 << k),
            raised == lower | (1u64 << k),
    ;
    assert forall|i: int| 0 <= i < n implies #[trigger] bit_is_set(raised, i) == bit_is_set(
        lower,
        i,
    ) by {
        let j = i as u64;
        assert((raised & (1u64 << j) != 0) == (lower & (1u64 << j) != 0)) by (bit_vector)
            requires
                k < 63,
                j < k,
                raised == lower | (1u64 << k),
        ;
    }
}

} // verus!
