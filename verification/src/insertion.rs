//! Insertion sort.

use crate::compare::{comparable, exceeds, orders};
use crate::order::sorted_by;
use crate::seqs::{at, exchange, rearranges};
use std::cmp::Ordering;
use vstd::prelude::*;

verus! {

/// Sorts `v` in place by inserting each element into the sorted run before it.
///
/// The result is a rearrangement of the input whatever the comparator answers.
/// It is sorted by every total preorder that the comparator answers by, and an
/// input that is already sorted is left as it is. A slice of fewer than two
/// elements is returned without a call of the comparator.
pub fn insertion_sort<T, F: Fn(&T, &T) -> Ordering>(v: &mut [T], cmp: &F)
    requires
        old(v)@.len() > 1 ==> comparable(cmp, old(v)@),
    ensures
        rearranges(final(v)@, old(v)@),
        final(v)@.len() == old(v)@.len(),
        old(v)@.len() <= 1 ==> final(v)@ == old(v)@,
        forall|leq: spec_fn(T, T) -> bool| #[trigger]
            orders(cmp, leq, old(v)@) ==> sorted_by(final(v)@, leq),
        forall|leq: spec_fn(T, T) -> bool| #[trigger]
            orders(cmp, leq, old(v)@) && sorted_by(old(v)@, leq) ==> final(v)@ == old(v)@,
{
    let n: usize = v.len();
    let mut i: usize = 1;
    while i < n
        invariant
            1 <= i,
            n == v@.len(),
            n == old(v)@.len(),
            rearranges(v@, old(v)@),
            forall|a: T| v@.contains(a) <==> old(v)@.contains(a),
            n > 1 ==> comparable(cmp, old(v)@),
            n <= 1 ==> v@ == old(v)@,
            forall|leq: spec_fn(T, T) -> bool| #[trigger]
                orders(cmp, leq, old(v)@) ==> forall|a: int, b: int|
                    0 <= a < b < i && b < n ==> leq(#[trigger] v@[a], #[trigger] v@[b]),
            forall|leq: spec_fn(T, T) -> bool| #[trigger]
                orders(cmp, leq, old(v)@) && sorted_by(old(v)@, leq) ==> v@ == old(v)@,
        decreases n - i,
    {
        let mut j: usize = i;
        while j > 0
            invariant
                j <= i < n,
                n == v@.len(),
                n == old(v)@.len(),
                rearranges(v@, old(v)@),
                forall|a: T| v@.contains(a) <==> old(v)@.contains(a),
                comparable(cmp, old(v)@),
                forall|leq: spec_fn(T, T) -> bool| #[trigger]
                    orders(cmp, leq, old(v)@) ==> forall|a: int, b: int|
                        0 <= a < b <= i && a != j && b != j ==> leq(
                            #[trigger] v@[a],
                            #[trigger] v@[b],
                        ),
                forall|leq: spec_fn(T, T) -> bool| #[trigger]
                    orders(cmp, leq, old(v)@) ==> forall|b: int|
                        j < b <= i ==> leq(at(v@, j), #[trigger] v@[b]),
                forall|leq: spec_fn(T, T) -> bool| #[trigger]
                    orders(cmp, leq, old(v)@) && sorted_by(old(v)@, leq) ==> v@ == old(v)@,
            ensures
                forall|leq: spec_fn(T, T) -> bool| #[trigger]
                    orders(cmp, leq, old(v)@) ==> forall|a: int, b: int|
                        0 <= a < b <= i ==> leq(#[trigger] v@[a], #[trigger] v@[b]),
            decreases j,
        {
            if !exceeds(cmp, &v[j - 1], &v[j]) {
                proof {
                    // What is before `j - 1` is not above it, and it is not
                    // above `j`.
                    assert forall|leq: spec_fn(T, T) -> bool| #[trigger]
                        orders(cmp, leq, old(v)@) implies forall|a: int|
                        0 <= a < j ==> leq(#[trigger] v@[a], at(v@, j)) by {
                        assert forall|a: int| 0 <= a < j implies leq(#[trigger] v@[a], at(v@, j)) by {
                            assert(leq(v@[a], v@[j - 1]) && leq(v@[j - 1], at(v@, j)));
                        }
                    }
                }
                break ;
            }
            exchange(v, j - 1, j);
            j -= 1;
        }
        i += 1;
    }
}

} // verus!
