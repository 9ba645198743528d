//! Sorting IEEE 754 double-precision numbers, each given by its 64 bits.
//!
//! Bit 63 is the sign; the 63 bits below it, exponent over fraction, are the
//! magnitude. A magnitude above that of infinity is a NaN. Among the other
//! values a larger magnitude is further from zero, so magnitudes order them:
//! upwards where the sign is clear, downwards where it is set.
//!
//! Comparison by value cannot place a NaN and does not tell the two zeros
//! apart. The order produced here does both:
//!
//! | -inf | < 0 | -0 | +0 | > 0 | +inf | NaN |

use crate::compare::orders;
use crate::order::{lemma_sorted_rearrangement_unique, sorted_by};
use crate::seqs::{
    at, exchange, lemma_rearranged_within, lemma_rearranges_elements, pos, rearranges,
};
use crate::sort::sort_by;
use std::cmp::Ordering;
use vstd::prelude::*;

verus! {

/// The sign bit alone: the bits of negative zero.
pub const SIGN_BIT: u64 = 0x8000_0000_0000_0000;

/// The bits of positive infinity, the greatest magnitude that is not a NaN.
pub const INFINITY: u64 = 0x7ff0_0000_0000_0000;

/// The bits of positive zero.
pub const ZERO: u64 = 0;

/// The bits of negative zero.
pub const NEG_ZERO: u64 = 0x8000_0000_0000_0000;

/// The bits below the sign bit.
pub open spec fn magnitude(b: u64) -> int {
    if b >= SIGN_BIT {
        b - SIGN_BIT
    } else {
        b as int
    }
}

/// The sign bit is set.
pub open spec fn spec_is_sign_negative(b: u64) -> bool {
    b >= SIGN_BIT
}

/// The magnitude is above that of infinity.
pub open spec fn spec_is_nan(b: u64) -> bool {
    magnitude(b) > INFINITY
}

/// The magnitude is zero.
pub open spec fn spec_is_zero(b: u64) -> bool {
    magnitude(b) == 0
}

/// The sign bit is set, and the magnitude is neither zero nor that of a NaN.
pub open spec fn spec_is_below_zero(b: u64) -> bool {
    b > SIGN_BIT && !spec_is_nan(b)
}

/// Whether the sign bit is set.
#[verifier::when_used_as_spec(spec_is_sign_negative)]
pub fn is_sign_negative(b: u64) -> (r: bool)
    ensures
        r == spec_is_sign_negative(b),
{
    b >= SIGN_BIT
}

/// Whether the bits are those of a NaN.
#[verifier::when_used_as_spec(spec_is_nan)]
pub fn is_nan(b: u64) -> (r: bool)
    ensures
        r == spec_is_nan(b),
{
    if b >= SIGN_BIT {
        b - SIGN_BIT > INFINITY
    } else {
        b > INFINITY
    }
}

/// Whether the bits are those of positive or of negative zero.
#[verifier::when_used_as_spec(spec_is_zero)]
pub fn is_zero(b: u64) -> (r: bool)
    ensures
        r == spec_is_zero(b),
{
    b == ZERO || b == NEG_ZERO
}

/// Whether the bits are those of a number less than zero. A NaN is not.
#[verifier::when_used_as_spec(spec_is_below_zero)]
pub fn is_below_zero(b: u64) -> (r: bool)
    ensures
        r == spec_is_below_zero(b),
{
    b > SIGN_BIT && !is_nan(b)
}

/// An integer that orders the values other than NaN as the numbers they
/// stand for; both zeros have 0.
pub open spec fn value_key(b: u64) -> int {
    if b >= SIGN_BIT {
        -magnitude(b)
    } else {
        magnitude(b)
    }
}

/// An integer that orders all values: as `value_key` does, but negative zero
/// before positive zero and every NaN after everything else.
pub open spec fn rank(b: u64) -> int {
    if is_nan(b) {
        SIGN_BIT as int
    } else if b >= SIGN_BIT {
        -magnitude(b) - 1
    } else {
        magnitude(b)
    }
}

/// No element has a higher rank than one that comes after it.
pub open spec fn ranked(s: Seq<u64>) -> bool {
    forall|i: int, j: int| 0 <= i < j < s.len() ==> rank(#[trigger] s[i]) <= rank(#[trigger] s[j])
}

/// The first `n` elements are not NaN, and all others are.
pub open spec fn nans_from(s: Seq<u64>, n: int) -> bool {
    &&& forall|k: int| 0 <= k < n && k < s.len() ==> !is_nan(#[trigger] s[k])
    &&& forall|k: int| n <= k < s.len() ==> is_nan(#[trigger] s[k])
}

/// No element is a NaN.
pub open spec fn all_numbers(s: Seq<u64>) -> bool {
    forall|k: int| 0 <= k < s.len() ==> !is_nan(#[trigger] s[k])
}

/// No NaN comes before a value that is not one.
pub open spec fn nans_last(s: Seq<u64>) -> bool {
    forall|i: int, j: int|
        0 <= i < j < s.len() && is_nan(#[trigger] s[i]) ==> is_nan(#[trigger] s[j])
}

/// Moves every NaN behind all other values and returns how many others
/// there are. Where the NaNs are at the end already, nothing moves.
pub fn nans_to_end(v: &mut [u64]) -> (n: usize)
    ensures
        n <= final(v)@.len(),
        final(v)@.len() == old(v)@.len(),
        rearranges(final(v)@, old(v)@),
        nans_from(final(v)@, pos(n)),
        nans_last(old(v)@) ==> final(v)@ == old(v)@,
{
    let mut end: usize = v.len();
    while end > 0 && is_nan(v[end - 1])
        invariant
            end <= v@.len(),
            v@ == old(v)@,
            forall|k: int| end <= k < v@.len() ==> is_nan(#[trigger] v@[k]),
        decreases end,
    {
        end -= 1;
    }
    let mut p: usize = end;
    while p > 0
        invariant
            p <= end <= v@.len(),
            v@.len() == old(v)@.len(),
            rearranges(v@, old(v)@),
            forall|k: int| p <= k < end ==> !is_nan(#[trigger] v@[k]),
            forall|k: int| end <= k < v@.len() ==> is_nan(#[trigger] v@[k]),
            nans_last(old(v)@) ==> v@ == old(v)@,
        decreases p,
    {
        p -= 1;
        if is_nan(v[p]) {
            end -= 1;
            exchange(v, p, end);
        }
    }
    end
}

/// No number below zero comes after one that is not.
pub open spec fn negatives_first(s: Seq<u64>) -> bool {
    forall|i: int, j: int|
        0 <= i < j < s.len() && is_below_zero(#[trigger] s[j]) ==> is_below_zero(#[trigger] s[i])
}

/// Finds where the numbers below zero end: the position of the first element
/// that is not below zero, or the length where there is none.
pub fn find_first_zero(v: &[u64]) -> (left: usize)
    ensures
        left <= v@.len(),
        left < v@.len() ==> !is_below_zero(at(v@, left)),
        negatives_first(v@) ==> forall|k: int| 0 <= k < left ==> is_below_zero(#[trigger] v@[k]),
        negatives_first(v@) ==> forall|k: int|
            left <= k < v@.len() ==> !is_below_zero(#[trigger] v@[k]),
{
    if v.len() == 0 {
        return 0;
    }
    let mut hi: usize = v.len() - 1;
    let mut left: usize = 0;
    while left < hi
        invariant
            left <= hi < v@.len(),
            negatives_first(v@) ==> forall|k: int| 0 <= k < left ==> is_below_zero(#[trigger] v@[k]),
        decreases hi - left,
    {
        let mid: usize = ((hi - left) / 2) + left;
        if is_below_zero(v[mid]) {
            left = mid + 1;
        } else {
            hi = mid;
        }
    }
    while left < v.len() && is_below_zero(v[left])
        invariant
            left <= v@.len(),
            negatives_first(v@) ==> forall|k: int| 0 <= k < left ==> is_below_zero(#[trigger] v@[k]),
        decreases v@.len() - left,
    {
        left += 1;
    }
    left
}

/// The number of zeros in a row from position `from` on.
pub open spec fn zero_run(s: Seq<u64>, from: int) -> nat
    decreases s.len() - from,
{
    if 0 <= from < s.len() && is_zero(s[from]) {
        1 + zero_run(s, from + 1)
    } else {
        0
    }
}

/// The number of elements from `from` up to `to` that have the sign bit set.
pub open spec fn negatives_in(s: Seq<u64>, from: int, to: int) -> nat
    decreases to - from,
{
    if from < to {
        negatives_in(s, from, to - 1) + if is_sign_negative(s[to - 1]) {
            1nat
        } else {
            0nat
        }
    } else {
        0
    }
}

/// `s` with the run of zeros that starts at `left` put in order: as many
/// negative zeros as the run holds, then positive zeros to its end.
pub open spec fn zeros_ordered(s: Seq<u64>, left: int) -> Seq<u64> {
    let run = zero_run(s, left);
    let negatives = negatives_in(s, left, left + run);
    Seq::new(
        s.len(),
        |k: int|
            if left <= k < left + negatives {
                NEG_ZERO
            } else if left + negatives <= k < left + run {
                ZERO
            } else {
                s[k]
            },
    )
}

/// `a` negative zeros followed by `b` positive zeros.
pub open spec fn two_runs(a: nat, b: nat) -> Seq<u64> {
    Seq::new(
        a + b,
        |k: int|
            if k < a {
                NEG_ZERO
            } else {
                ZERO
            },
    )
}

/// Zeros from `left` up to `to`, with none at `to`, are the run at `left`.
proof fn lemma_zero_run_ends(s: Seq<u64>, left: int, to: int)
    requires
        0 <= left <= to <= s.len(),
        forall|k: int| left <= k < to ==> is_zero(#[trigger] s[k]),
        to < s.len() ==> !is_zero(s[to]),
    ensures
        zero_run(s, left) == to - left,
    decreases to - left,
{
    if left < to {
        lemma_zero_run_ends(s, left + 1, to);
    }
}

/// The run of zeros at `left` holds zeros and stops at the first other
/// element.
proof fn lemma_zero_run_holds(s: Seq<u64>, left: int)
    requires
        0 <= left <= s.len(),
    ensures
        left + zero_run(s, left) <= s.len(),
        forall|k: int| left <= k < left + zero_run(s, left) ==> is_zero(#[trigger] s[k]),
        left + zero_run(s, left) < s.len() ==> !is_zero(s[left + zero_run(s, left)]),
    decreases s.len() - left,
{
    if left < s.len() && is_zero(s[left]) {
        lemma_zero_run_holds(s, left + 1);
    }
}

/// At most every element of a range has the sign bit set.
proof fn lemma_negatives_in_bound(s: Seq<u64>, from: int, to: int)
    requires
        from <= to,
    ensures
        negatives_in(s, from, to) <= to - from,
    decreases to - from,
{
    if from < to {
        lemma_negatives_in_bound(s, from, to - 1);
    }
}

/// A range of zeros is a rearrangement of its negative zeros followed by its
/// positive zeros.
proof fn lemma_zeros_are_two_runs(s: Seq<u64>, from: int, to: int)
    requires
        0 <= from <= to <= s.len(),
        forall|k: int| from <= k < to ==> is_zero(#[trigger] s[k]),
    ensures
        negatives_in(s, from, to) <= to - from,
        rearranges(
            s.subrange(from, to),
            two_runs(
                negatives_in(s, from, to),
                (to - from - negatives_in(s, from, to)) as nat,
            ),
        ),
    decreases to - from,
{
    lemma_negatives_in_bound(s, from, to);
    if from < to {
        lemma_zeros_are_two_runs(s, from, to - 1);
        lemma_negatives_in_bound(s, from, to - 1);
        let a: nat = negatives_in(s, from, to - 1);
        let b: nat = (to - 1 - from - a) as nat;
        let before = two_runs(a, b);
        assert(s.subrange(from, to) =~= s.subrange(from, to - 1).push(s[to - 1]));
        vstd::seq_lib::to_multiset_build(s.subrange(from, to - 1), s[to - 1]);
        if is_sign_negative(s[to - 1]) {
            assert(two_runs(a + 1, b) =~= before.insert(a as int, NEG_ZERO));
            vstd::seq_lib::to_multiset_insert(before, a as int, NEG_ZERO);
        } else {
            assert(two_runs(a, b + 1) =~= before.push(ZERO));
            vstd::seq_lib::to_multiset_build(before, ZERO);
        }
    } else {
        assert(s.subrange(from, to) =~= two_runs(0, 0));
    }
}

/// Putting a run of zeros in order rearranges the sequence.
proof fn lemma_zeros_ordered_rearranges(s: Seq<u64>, left: int)
    requires
        0 <= left <= s.len(),
    ensures
        rearranges(zeros_ordered(s, left), s),
{
    let run: nat = zero_run(s, left);
    let to: int = left + run;
    let negatives: nat = negatives_in(s, left, to);
    let t = zeros_ordered(s, left);
    lemma_zero_run_holds(s, left);
    lemma_zeros_are_two_runs(s, left, to);
    assert(t.subrange(left, to) =~= two_runs(negatives, (run - negatives) as nat));
    lemma_rearranged_within(t, s, left, to);
}

/// Puts the run of zeros that starts at `left` in order, negative zeros
/// first: counts the zeros of each sign, then writes them out.
pub fn order_zeros(v: &mut [u64], left: usize)
    requires
        left <= old(v)@.len(),
    ensures
        final(v)@ == zeros_ordered(old(v)@, left as int),
        rearranges(final(v)@, old(v)@),
        (forall|k: int| left <= k < old(v)@.len() ==> !is_zero(#[trigger] old(v)@[k]))
            ==> final(v)@ == old(v)@,
{
    let n: usize = v.len();
    let mut end: usize = left;
    let mut neg_zeros: usize = 0;
    while end < n && is_zero(v[end])
        invariant
            left <= end <= n,
            n == v@.len(),
            v@ == old(v)@,
            forall|k: int| left <= k < end ==> is_zero(#[trigger] v@[k]),
            neg_zeros == negatives_in(v@, left as int, end as int),
            neg_zeros <= end - left,
        decreases n - end,
    {
        if is_sign_negative(v[end]) {
            neg_zeros += 1;
        }
        end += 1;
    }
    proof {
        lemma_zero_run_ends(v@, left as int, end as int);
        lemma_zeros_ordered_rearranges(v@, left as int);
    }
    let turn: usize = left + neg_zeros;
    let mut k: usize = left;
    while k < turn
        invariant
            left <= k <= turn <= end <= n,
            n == v@.len(),
            n == old(v)@.len(),
            forall|j: int| left <= j < k ==> #[trigger] v@[j] == NEG_ZERO,
            forall|j: int| 0 <= j < left || k <= j < n ==> #[trigger] v@[j] == old(v)@[j],
        decreases turn - k,
    {
        v[k] = NEG_ZERO;
        k += 1;
    }
    while k < end
        invariant
            left <= turn <= k <= end <= n,
            n == v@.len(),
            n == old(v)@.len(),
            forall|j: int| left <= j < turn ==> #[trigger] v@[j] == NEG_ZERO,
            forall|j: int| turn <= j < k ==> #[trigger] v@[j] == ZERO,
            forall|j: int| 0 <= j < left || k <= j < n ==> #[trigger] v@[j] == old(v)@[j],
        decreases end - k,
    {
        v[k] = ZERO;
        k += 1;
    }
}

/// How the numbers that `a` and `b` stand for compare. The two zeros are
/// equal.
pub open spec fn value_ordering(a: u64, b: u64) -> Ordering {
    if value_key(a) < value_key(b) {
        Ordering::Less
    } else if value_key(a) == value_key(b) {
        Ordering::Equal
    } else {
        Ordering::Greater
    }
}

/// Compares two values by the numbers they stand for, where both stand for
/// one: a NaN compares with nothing, not with itself either.
pub fn partial_compare(a: &u64, b: &u64) -> (o: Option<Ordering>)
    ensures
        o == (if is_nan(*a) || is_nan(*b) {
            None
        } else {
            Some(value_ordering(*a, *b))
        }),
{
    if is_nan(*a) || is_nan(*b) {
        return None;
    }
    let a_negative: bool = is_sign_negative(*a);
    let b_negative: bool = is_sign_negative(*b);
    let a_size: u64 = if a_negative {
        *a - SIGN_BIT
    } else {
        *a
    };
    let b_size: u64 = if b_negative {
        *b - SIGN_BIT
    } else {
        *b
    };
    if a_size == 0 && b_size == 0 {
        Some(Ordering::Equal)
    } else if a_negative && !b_negative {
        Some(Ordering::Less)
    } else if !a_negative && b_negative {
        Some(Ordering::Greater)
    } else if a_size == b_size {
        Some(Ordering::Equal)
    } else if (a_size < b_size) == a_negative {
        Some(Ordering::Greater)
    } else {
        Some(Ordering::Less)
    }
}

/// Compares two values, neither of them a NaN, by the numbers they stand
/// for. With no NaN to compare there is always an answer.
pub fn compare_values(a: &u64, b: &u64) -> (o: Ordering)
    requires
        !is_nan(*a),
        !is_nan(*b),
    ensures
        o == value_ordering(*a, *b),
{
    partial_compare(a, b).unwrap()
}

/// The order of the numbers that the values stand for.
pub open spec fn by_value() -> spec_fn(u64, u64) -> bool {
    |a: u64, b: u64| value_key(a) <= value_key(b)
}

/// Numbers sorted by value, with their zeros put in order, are sorted by
/// rank.
proof fn lemma_ranked_numbers(s: Seq<u64>, left: int)
    requires
        0 <= left <= s.len(),
        all_numbers(s),
        sorted_by(s, by_value()),
        forall|k: int| 0 <= k < left ==> is_below_zero(#[trigger] s[k]),
        forall|k: int| left <= k < s.len() ==> !is_below_zero(#[trigger] s[k]),
    ensures
        ranked(zeros_ordered(s, left)),
        all_numbers(zeros_ordered(s, left)),
{
    let run: nat = zero_run(s, left);
    let to: int = left + run;
    let t = zeros_ordered(s, left);
    lemma_zero_run_holds(s, left);
    lemma_negatives_in_bound(s, left, to);
    // After the zeros everything is above zero: the first is, and the rest
    // is not below it.
    assert forall|k: int| to <= k < s.len() implies value_key(#[trigger] s[k]) > 0 by {
        assert(k == to || by_value()(s[to], s[k]));
    }
    // Outside the zeros the rank goes with the value, and the zeros lie
    // between what is below zero and what is above.
    assert forall|i: int, j: int| 0 <= i < j < t.len() implies rank(#[trigger] t[i]) <= rank(
        #[trigger] t[j],
    ) by {
        assert(by_value()(s[i], s[j]));
    }
}

/// Ranked numbers followed by NaNs are ranked.
proof fn lemma_ranked_with_nans(s: Seq<u64>, n: int)
    requires
        0 <= n <= s.len(),
        nans_from(s, n),
        ranked(s.subrange(0, n)),
    ensures
        ranked(s),
{
    assert forall|i: int, j: int| 0 <= i < j < s.len() implies rank(#[trigger] s[i]) <= rank(
        #[trigger] s[j],
    ) by {
        if j < n {
            let head = s.subrange(0, n);
            assert(rank(head[i]) <= rank(head[j]));
        }
    }
}

/// The order of ranks.
pub open spec fn by_rank() -> spec_fn(u64, u64) -> bool {
    |a: u64, b: u64| rank(a) <= rank(b)
}

/// Ranked values, sorted by value and with their zeros put in order again,
/// are what they were.
proof fn lemma_ranked_stay(s: Seq<u64>, t: Seq<u64>)
    requires
        all_numbers(s),
        ranked(s),
        ranked(t),
        rearranges(t, s),
    ensures
        t == s,
{
    // No two values other than NaN have the same rank.
    assert forall|a: u64, b: u64|
        s.contains(a) && s.contains(b) && #[trigger] by_rank()(a, b) && #[trigger] by_rank()(
            b,
            a,
        ) implies a == b by {
        let i: int = choose|i: int| 0 <= i < s.len() && s[i] == a;
        let j: int = choose|j: int| 0 <= j < s.len() && s[j] == b;
        assert(!is_nan(s[i]) && !is_nan(s[j]));
    }
    assert(sorted_by(s, by_rank())) by {
        assert forall|i: int, j: int| 0 <= i < j < s.len() implies by_rank()(
            #[trigger] s[i],
            #[trigger] s[j],
        ) by {
            assert(rank(s[i]) <= rank(s[j]));
        }
    }
    assert(sorted_by(t, by_rank())) by {
        assert forall|i: int, j: int| 0 <= i < j < t.len() implies by_rank()(
            #[trigger] t[i],
            #[trigger] t[j],
        ) by {
            assert(rank(t[i]) <= rank(t[j]));
        }
    }
    lemma_sorted_rearrangement_unique(t, s, by_rank());
}

/// Sorts the values in place into the order
///
/// | -inf | < 0 | -0 | +0 | > 0 | +inf | NaN |
///
/// First every NaN is moved to the end. What is left is sorted by value, for
/// which the comparison needs no case for a NaN. The sort cannot tell the two
/// zeros apart, so the zeros are found by bisection and put in order
/// afterwards.
///
/// The result holds the bits that the input held, in ascending rank. The
/// NaNs come last, in no stated order. An input that is in ascending rank is
/// left as it is.
pub fn sort_floats(v: &mut [u64])
    ensures
        rearranges(final(v)@, old(v)@),
        final(v)@.len() == old(v)@.len(),
        ranked(final(v)@),
        old(v)@.len() <= 1 ==> final(v)@ == old(v)@,
        ranked(old(v)@) ==> final(v)@ == old(v)@,
{
    if v.len() <= 1 {
        return ;
    }
    let n: usize = nans_to_end(v);
    let ghost parted = v@;
    let (numbers, _) = v.split_at_mut(n);
    let ghost unsorted = numbers@;
    sort_by(numbers, &compare_values);
    let ghost sorted = numbers@;
    proof {
        lemma_rearranges_elements(sorted, unsorted);
        assert(all_numbers(sorted)) by {
            assert forall|k: int| 0 <= k < sorted.len() implies !is_nan(#[trigger] sorted[k]) by {
                assert(unsorted.contains(sorted[k]));
            }
        }
        assert(orders(&compare_values, by_value(), unsorted));
        assert(negatives_first(sorted)) by {
            assert forall|i: int, j: int|
                0 <= i < j < sorted.len() && is_below_zero(
                    #[trigger] sorted[j],
                ) implies is_below_zero(#[trigger] sorted[i]) by {
                assert(by_value()(sorted[i], sorted[j]));
            }
        }
    }
    let left: usize = find_first_zero(numbers);
    order_zeros(numbers, left);
    proof {
        lemma_ranked_numbers(sorted, pos(left));
        assert(v@.subrange(0, pos(n)) =~= numbers@);
        lemma_ranked_with_nans(v@, pos(n));
        lemma_rearranged_within(v@, parted, 0, pos(n));
        if ranked(old(v)@) {
            // The NaNs were last, so none has moved, and the numbers were in
            // the one order that is ranked.
            assert(nans_last(old(v)@)) by {
                assert forall|i: int, j: int|
                    0 <= i < j < old(v)@.len() && is_nan(#[trigger] old(v)@[i]) implies is_nan(
                    #[trigger] old(v)@[j],
                ) by {
                    assert(rank(old(v)@[i]) <= rank(old(v)@[j]));
                }
            }
            assert(ranked(unsorted)) by {
                assert forall|i: int, j: int| 0 <= i < j < unsorted.len() implies rank(
                    #[trigger] unsorted[i],
                ) <= rank(#[trigger] unsorted[j]) by {
                    assert(rank(parted[i]) <= rank(parted[j]));
                }
            }
            lemma_ranked_stay(unsorted, numbers@);
        }
    }
}

} // verus!
