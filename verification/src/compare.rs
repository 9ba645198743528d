//! Comparators: functions that answer `Less`, `Equal` or `Greater` for a pair
//! of elements, and the orders they answer by.
//!
//! Verus knows a function value only by the answers it may give, so nothing
//! here asks what a comparator returns. An order `leq` is tied to a comparator
//! by saying that every answer the comparator can give agrees with it.

use crate::order::{sorted_by, total_preorder_on};
use crate::seqs::{lemma_rearranges_elements, rearranges};
use std::cmp::Ordering;
use vstd::prelude::*;

verus! {

/// The comparator may be called on every pair of elements of `s`.
pub open spec fn comparable<T, F: Fn(&T, &T) -> Ordering>(cmp: &F, s: Seq<T>) -> bool {
    forall|a: T, b: T|
        s.contains(a) && s.contains(b) ==> #[trigger] call_requires(*cmp, (&a, &b))
}

/// On the elements of `s`, the comparator answers `Greater` for a pair exactly
/// when the first is not `leq` the second.
pub open spec fn answers_by<T, F: Fn(&T, &T) -> Ordering>(
    cmp: &F,
    leq: spec_fn(T, T) -> bool,
    s: Seq<T>,
) -> bool {
    forall|a: T, b: T, o: Ordering|
        s.contains(a) && s.contains(b) && #[trigger] call_ensures(*cmp, (&a, &b), o) ==> (o
            == Ordering::Greater <==> !leq(a, b))
}

/// `leq` is a total preorder on the elements of `s`, and the comparator
/// answers by it.
pub open spec fn orders<T, F: Fn(&T, &T) -> Ordering>(
    cmp: &F,
    leq: spec_fn(T, T) -> bool,
    s: Seq<T>,
) -> bool {
    total_preorder_on(leq, s) && answers_by(cmp, leq, s)
}

/// A comparator that may be called on the elements of `s` may be called on
/// the elements of any sequence that holds no others.
pub proof fn lemma_comparable_on_fewer<T, F: Fn(&T, &T) -> Ordering>(
    cmp: &F,
    s: Seq<T>,
    t: Seq<T>,
)
    requires
        comparable(cmp, s),
        forall|a: T| t.contains(a) ==> s.contains(a),
    ensures
        comparable(cmp, t),
{
}

/// An order of the elements of `s` orders the elements of any sequence that
/// holds no others.
pub proof fn lemma_orders_on_fewer<T, F: Fn(&T, &T) -> Ordering>(
    cmp: &F,
    leq: spec_fn(T, T) -> bool,
    s: Seq<T>,
    t: Seq<T>,
)
    requires
        orders(cmp, leq, s),
        forall|a: T| t.contains(a) ==> s.contains(a),
    ensures
        orders(cmp, leq, t),
{
}

/// Where the comparator answers by an order of the input, it never reports
/// an element of the sorted output greater than a later one.
pub proof fn lemma_sorted_never_greater<T, F: Fn(&T, &T) -> Ordering>(
    cmp: &F,
    leq: spec_fn(T, T) -> bool,
    input: Seq<T>,
    output: Seq<T>,
    i: int,
    j: int,
    o: Ordering,
)
    requires
        orders(cmp, leq, input),
        rearranges(output, input),
        sorted_by(output, leq),
        0 <= i < j < output.len(),
        call_ensures(*cmp, (&output[i], &output[j]), o),
    ensures
        o != Ordering::Greater,
{
    lemma_rearranges_elements(output, input);
}

/// Asks the comparator whether `a` is greater than `b`.
pub fn exceeds<T, F: Fn(&T, &T) -> Ordering>(cmp: &F, a: &T, b: &T) -> (r: bool)
    requires
        call_requires(*cmp, (a, b)),
    ensures
        forall|leq: spec_fn(T, T) -> bool, s: Seq<T>| #[trigger]
            answers_by(cmp, leq, s) && s.contains(*a) && s.contains(*b) ==> (r <==> !leq(*a, *b)),
        exists|o: Ordering| call_ensures(*cmp, (a, b), o) && (r <==> o == Ordering::Greater),
{
    match cmp(a, b) {
        Ordering::Greater => true,
        _ => false,
    }
}

} // verus!
