//! The introspective sort: quicksort that hands short slices to insertion
//! sort and, once it has gone too deep, the rest to heap sort.

use crate::compare::{
    comparable, exceeds, lemma_comparable_on_fewer, lemma_orders_on_fewer, orders,
};
use crate::heap::heapsort;
use crate::insertion::insertion_sort;
use crate::order::{
    front_between, lemma_preorder_reflexive, lemma_sorted_around, partitioned_at, sorted_by,
    total_preorder_on,
};
use crate::seqs::{at, exchange, lemma_part_elements, lemma_rearranged_within, pos, rearranges};
use std::cmp::Ordering;
use vstd::prelude::*;
use vstd::std_specs::cmp::OrdSpec;

verus! {

/// Slices of at most this length are sorted by insertion.
pub const SMALL: usize = 16;

/// The number of times `n` can be halved before it reaches one.
pub open spec fn log2_floor(n: nat) -> nat
    decreases n,
{
    if n <= 1 {
        0
    } else {
        1 + log2_floor(n / 2)
    }
}

/// Twice the logarithm of a number is at most the number.
proof fn lemma_log2_floor_small(n: nat)
    ensures
        2 * log2_floor(n) <= n,
    decreases n,
{
    if n >= 4 {
        lemma_log2_floor_small(n / 2);
    } else if n >= 2 {
        assert(log2_floor(n / 2) == 0);
    }
}

/// How deep the quicksort may recurse on a slice of length `n` before it
/// gives up on partitioning.
pub fn depth_limit(n: usize) -> (d: usize)
    ensures
        d == 2 * log2_floor(n as nat),
{
    let mut m: usize = n;
    let mut d: usize = 0;
    while m > 1
        invariant
            d + 2 * log2_floor(m as nat) == 2 * log2_floor(n as nat),
        decreases m,
    {
        proof {
            lemma_log2_floor_small(n as nat);
        }
        m = m / 2;
        d = d + 2;
    }
    d
}

/// Brings a median of the first, the middle and the last element to the
/// front.
fn median_to_front<T, F: Fn(&T, &T) -> Ordering>(v: &mut [T], cmp: &F)
    requires
        old(v)@.len() >= 3,
        comparable(cmp, old(v)@),
    ensures
        rearranges(final(v)@, old(v)@),
        final(v)@.len() == old(v)@.len(),
        forall|a: T| final(v)@.contains(a) <==> old(v)@.contains(a),
        forall|leq: spec_fn(T, T) -> bool| #[trigger]
            orders(cmp, leq, old(v)@) ==> front_between(final(v)@, leq),
{
    let n: usize = v.len();
    let mid: usize = n / 2;
    let last: usize = n - 1;
    if exceeds(cmp, &v[0], &v[mid]) {
        exchange(v, 0, mid);
    }
    if exceeds(cmp, &v[mid], &v[last]) {
        exchange(v, mid, last);
        if exceeds(cmp, &v[0], &v[mid]) {
            exchange(v, 0, mid);
        }
    }
    proof {
        assert forall|leq: spec_fn(T, T) -> bool| #[trigger]
            orders(cmp, leq, old(v)@) implies leq(v@[0], at(v@, mid)) && leq(
            at(v@, mid),
            at(v@, last),
        ) by {
            assert(old(v)@.contains(v@[0]) && old(v)@.contains(at(v@, mid)) && old(v)@.contains(
                at(v@, last),
            ));
        }
    }
    exchange(v, 0, mid);
}

/// Partitions `v` around a pivot and returns the position where the pivot
/// comes to rest: nothing before it is above it, and it is above nothing
/// after it.
fn partition<T, F: Fn(&T, &T) -> Ordering>(v: &mut [T], cmp: &F) -> (p: usize)
    requires
        old(v)@.len() >= 3,
        comparable(cmp, old(v)@),
    ensures
        p < final(v)@.len(),
        final(v)@.len() == old(v)@.len(),
        rearranges(final(v)@, old(v)@),
        forall|a: T| final(v)@.contains(a) <==> old(v)@.contains(a),
        forall|leq: spec_fn(T, T) -> bool| #[trigger]
            orders(cmp, leq, old(v)@) ==> partitioned_at(final(v)@, leq, pos(p)),
{
    median_to_front(v, cmp);
    let n: usize = v.len();
    let mut store: usize = 1;
    let mut i: usize = 1;
    while i < n
        invariant
            1 <= store <= i <= n,
            n == v@.len(),
            n == old(v)@.len(),
            comparable(cmp, old(v)@),
            rearranges(v@, old(v)@),
            forall|a: T| v@.contains(a) <==> old(v)@.contains(a),
            forall|leq: spec_fn(T, T) -> bool| #[trigger]
                orders(cmp, leq, old(v)@) ==> forall|k: int|
                    1 <= k < store ==> leq(#[trigger] v@[k], v@[0]),
            forall|leq: spec_fn(T, T) -> bool| #[trigger]
                orders(cmp, leq, old(v)@) ==> forall|k: int|
                    store <= k < i ==> leq(v@[0], #[trigger] v@[k]),
        decreases n - i,
    {
        if !exceeds(cmp, &v[i], &v[0]) {
            exchange(v, i, store);
            store += 1;
        }
        i += 1;
    }
    exchange(v, 0, store - 1);
    proof {
        assert forall|leq: spec_fn(T, T) -> bool| #[trigger]
            orders(cmp, leq, old(v)@) implies partitioned_at(v@, leq, store - 1) by {
            lemma_preorder_reflexive(leq, old(v)@, 0);
        }
    }
    store - 1
}

/// Sorts `v`, recursing at most `depth` levels deep.
fn introsort<T, F: Fn(&T, &T) -> Ordering>(v: &mut [T], depth: usize, cmp: &F)
    requires
        comparable(cmp, old(v)@),
    ensures
        rearranges(final(v)@, old(v)@),
        final(v)@.len() == old(v)@.len(),
        forall|leq: spec_fn(T, T) -> bool| #[trigger]
            orders(cmp, leq, old(v)@) ==> sorted_by(final(v)@, leq),
    decreases depth,
{
    let n: usize = v.len();
    if n <= SMALL {
        insertion_sort(v, cmp);
        return ;
    }
    if depth == 0 {
        heapsort(v, cmp);
        return ;
    }
    let p: usize = partition(v, cmp);
    let ghost parted = v@;
    proof {
        lemma_part_elements(parted, 0, pos(p));
        lemma_part_elements(parted, p + 1, pos(n));
        lemma_comparable_on_fewer(cmp, old(v)@, parted.subrange(0, pos(p)));
        lemma_comparable_on_fewer(cmp, old(v)@, parted.subrange(p + 1, pos(n)));
    }
    let (left, _) = v.split_at_mut(p);
    introsort(left, depth - 1, cmp);
    let ghost low = left@;
    let ghost half = v@;
    proof {
        assert(half.subrange(0, pos(p)) =~= low);
        assert(half.subrange(p + 1, pos(n)) =~= parted.subrange(p + 1, pos(n)));
        lemma_rearranged_within(half, parted, 0, pos(p));
    }
    let (_, right) = v.split_at_mut(p + 1);
    introsort(right, depth - 1, cmp);
    let ghost high = right@;
    proof {
        assert(v@.subrange(0, pos(p)) =~= low);
        assert(v@.subrange(p + 1, pos(n)) =~= high);
        lemma_rearranged_within(v@, half, p + 1, pos(n));
        assert forall|leq: spec_fn(T, T) -> bool| #[trigger]
            orders(cmp, leq, old(v)@) implies sorted_by(v@, leq) by {
            lemma_orders_on_fewer(cmp, leq, old(v)@, parted);
            lemma_orders_on_fewer(cmp, leq, old(v)@, parted.subrange(0, pos(p)));
            lemma_orders_on_fewer(cmp, leq, old(v)@, parted.subrange(p + 1, pos(n)));
            lemma_sorted_around(v@, parted, leq, pos(p));
        }
    }
}

/// Sorts `v` in place by the comparator.
///
/// The result is a rearrangement of the input whatever the comparator answers,
/// and it is sorted by every total preorder that the comparator answers by.
/// Elements that the order does not tell apart may come out in any order. A
/// slice of fewer than two elements is returned as it is, without a call of
/// the comparator.
pub fn sort_by<T, F: Fn(&T, &T) -> Ordering>(v: &mut [T], cmp: &F)
    requires
        old(v)@.len() > 1 ==> comparable(cmp, old(v)@),
    ensures
        rearranges(final(v)@, old(v)@),
        final(v)@.len() == old(v)@.len(),
        old(v)@.len() <= 1 ==> final(v)@ == old(v)@,
        forall|leq: spec_fn(T, T) -> bool| #[trigger]
            orders(cmp, leq, old(v)@) ==> sorted_by(final(v)@, leq),
{
    let n: usize = v.len();
    if n <= 1 {
        proof {
            assert forall|leq: spec_fn(T, T) -> bool| #[trigger]
                orders(cmp, leq, old(v)@) implies sorted_by(v@, leq) by {}
        }
        return ;
    }
    introsort(v, depth_limit(n), cmp);
}

/// The order of `T` itself: `a` is not greater than `b`.
pub open spec fn natural_leq<T: Ord>() -> spec_fn(T, T) -> bool {
    |a: T, b: T| a.cmp_spec(&b) != Ordering::Greater
}

/// Sorts `v` in place by the order of its element type.
///
/// The result is a rearrangement of the input. Where `T::cmp` answers as
/// `cmp_spec` says and that is a total preorder on the elements, the result
/// is sorted by it.
pub fn sort<T: Ord>(v: &mut [T])
    ensures
        rearranges(final(v)@, old(v)@),
        final(v)@.len() == old(v)@.len(),
        old(v)@.len() <= 1 ==> final(v)@ == old(v)@,
        T::obeys_cmp_spec() && total_preorder_on(natural_leq::<T>(), old(v)@) ==> sorted_by(
            final(v)@,
            natural_leq::<T>(),
        ),
{
    let by_order = |a: &T, b: &T| -> (o: Ordering)
        ensures
            T::obeys_cmp_spec() ==> o == a.cmp_spec(b),
        { a.cmp(b) };
    proof {
        if T::obeys_cmp_spec() && total_preorder_on(natural_leq::<T>(), v@) {
            assert(orders(&by_order, natural_leq::<T>(), v@));
        }
    }
    sort_by(v, &by_order);
}

} // verus!
