//! Heap sort.
//!
//! The slice is read as an implicit binary tree: the children of position `k`
//! are `2k + 1` and `2k + 2`. A max-heap keeps every element `leq` its parent.

use crate::compare::{
    comparable, exceeds, lemma_comparable_on_fewer, lemma_orders_on_fewer, orders,
};
use crate::order::{lemma_preorder_on_fewer, lemma_preorder_reflexive, sorted_by, total_preorder_on};
use crate::seqs::{at, exchange, pos, rearranges, swapped};
use std::cmp::Ordering;
use vstd::prelude::*;

verus! {

/// The position of the parent of position `k`, for `k > 0`.
pub open spec fn parent(k: int) -> int {
    (k - 1) / 2
}

/// Before `hi`, every element whose parent is at `lo` or after it is `leq`
/// that parent.
pub open spec fn heap_from<T>(s: Seq<T>, leq: spec_fn(T, T) -> bool, lo: int, hi: int) -> bool {
    forall|k: int| 0 < k < hi && lo <= parent(k) ==> leq(#[trigger] s[k], s[parent(k)])
}

/// As `heap_from`, but for the element at `hole`, which may be smaller than
/// its children; they are `leq` the parent of `hole` where it has one at `lo`
/// or after it.
pub open spec fn heap_but<T>(
    s: Seq<T>,
    leq: spec_fn(T, T) -> bool,
    lo: int,
    hi: int,
    hole: int,
) -> bool {
    &&& forall|k: int|
        0 < k < hi && lo <= parent(k) && parent(k) != hole ==> leq(#[trigger] s[k], s[parent(k)])
    &&& forall|k: int|
        0 < k < hi && parent(k) == hole && lo < hole ==> leq(#[trigger] s[k], s[parent(hole)])
}

/// `x` is an element of `s` at a position from `lo` up to `hi`.
pub open spec fn found_in<T>(x: T, s: Seq<T>, lo: int, hi: int) -> bool {
    exists|m: int| #![trigger s[m]] lo <= m < hi && x == s[m]
}

/// Each element of `t` in the window from `lo` up to `hi` is an element of
/// `s` in that window, and outside the window the two agree.
pub open spec fn stays_within<T>(t: Seq<T>, s: Seq<T>, lo: int, hi: int) -> bool {
    &&& t.len() == s.len()
    &&& forall|k: int| 0 <= k < lo || hi <= k < t.len() ==> #[trigger] t[k] == s[k]
    &&& forall|k: int| lo <= k < hi ==> found_in(#[trigger] t[k], s, lo, hi)
}

/// A heap with a hole at a position without children is a heap.
proof fn lemma_hole_at_leaf<T>(s: Seq<T>, leq: spec_fn(T, T) -> bool, lo: int, hi: int, hole: int)
    requires
        heap_but(s, leq, lo, hi, hole),
        hi <= 2 * hole + 1,
    ensures
        heap_from(s, leq, lo, hi),
{
}

/// A heap with a hole whose element is not below its larger child is a heap.
proof fn lemma_hole_settled<T>(
    s: Seq<T>,
    leq: spec_fn(T, T) -> bool,
    lo: int,
    hi: int,
    hole: int,
    child: int,
)
    requires
        total_preorder_on(leq, s),
        heap_but(s, leq, lo, hi, hole),
        0 <= lo <= hole,
        hi <= s.len(),
        child < hi,
        child == 2 * hole + 1 || child == 2 * hole + 2,
        forall|k: int| 0 < k < hi && parent(k) == hole ==> leq(#[trigger] s[k], s[child]),
        leq(s[child], s[hole]),
    ensures
        heap_from(s, leq, lo, hi),
{
    // A child of the hole is not above the larger child, which is not above
    // the hole.
    assert forall|k: int| 0 < k < hi && parent(k) == hole implies leq(#[trigger] s[k], s[hole]) by {
        assert(leq(s[k], s[child]));
    }
}

/// Exchanging the element in the hole with its larger child moves the hole
/// to that child.
proof fn lemma_hole_moves<T>(
    s: Seq<T>,
    leq: spec_fn(T, T) -> bool,
    lo: int,
    hi: int,
    hole: int,
    child: int,
)
    requires
        total_preorder_on(leq, s),
        heap_but(s, leq, lo, hi, hole),
        0 <= lo <= hole,
        hi <= s.len(),
        child < hi,
        child == 2 * hole + 1 || child == 2 * hole + 2,
        forall|k: int| 0 < k < hi && parent(k) == hole ==> leq(#[trigger] s[k], s[child]),
        leq(s[hole], s[child]),
    ensures
        heap_but(swapped(s, hole, child), leq, lo, hi, child),
{
    let t = swapped(s, hole, child);
    assert forall|k: int| 0 < k < hi && lo <= parent(k) && parent(k) != child implies leq(
        #[trigger] t[k],
        t[parent(k)],
    ) by {
        if k == hole {
            // The larger child comes under the parent of the hole.
            assert(leq(s[child], s[parent(hole)]));
        } else if parent(k) == hole {
            // The element from the hole, or the smaller child, comes under
            // the larger child.
            assert(leq(s[k], s[child]));
        } else {
            assert(leq(s[k], s[parent(k)]));
        }
    }
    assert forall|k: int| 0 < k < hi && parent(k) == child && lo < child implies leq(
        #[trigger] t[k],
        t[parent(child)],
    ) by {
        // The children of the new hole were under the larger child.
        assert(leq(s[k], s[child]));
    }
}

/// In a heap no element is above the first.
proof fn lemma_heap_first_is_greatest<T>(s: Seq<T>, leq: spec_fn(T, T) -> bool, hi: int, k: int)
    requires
        total_preorder_on(leq, s),
        heap_from(s, leq, 0, hi),
        0 <= k < hi <= s.len(),
    ensures
        leq(s[k], s[0]),
    decreases k,
{
    if k == 0 {
        lemma_preorder_reflexive(leq, s, 0);
    } else {
        lemma_heap_first_is_greatest(s, leq, hi, parent(k));
        assert(leq(s[k], s[parent(k)]) && leq(s[parent(k)], s[0]));
    }
}

/// From `end` on the elements are sorted, and none before `end` is above
/// any of them.
pub open spec fn tail_sorted<T>(s: Seq<T>, leq: spec_fn(T, T) -> bool, end: int) -> bool {
    &&& forall|a: int, b: int| end <= a < b < s.len() ==> leq(#[trigger] s[a], #[trigger] s[b])
    &&& forall|a: int, b: int| 0 <= a < end <= b < s.len() ==> leq(#[trigger] s[a], #[trigger] s[b])
}

/// Exchanging the first element of a heap with its last puts the greatest
/// element in front of the sorted tail.
proof fn lemma_greatest_to_tail<T>(s: Seq<T>, leq: spec_fn(T, T) -> bool, end: int)
    requires
        total_preorder_on(leq, s),
        0 < end < s.len(),
        heap_from(s, leq, 0, end + 1),
        tail_sorted(s, leq, end + 1),
    ensures
        heap_from(swapped(s, 0, end), leq, 1, end),
        tail_sorted(swapped(s, 0, end), leq, end),
{
    let t = swapped(s, 0, end);
    assert forall|a: int, b: int| 0 <= a < end <= b < t.len() implies leq(
        #[trigger] t[a],
        #[trigger] t[b],
    ) by {
        if b == end {
            // What was first is now at `end`, and nothing in the heap was
            // above it.
            lemma_heap_first_is_greatest(
                s,
                leq,
                end + 1,
                if a == 0 {
                    end
                } else {
                    a
                },
            );
        }
    }
}

/// Rearranging the elements before a sorted tail among themselves keeps
/// them not above the tail.
proof fn lemma_tail_sorted_stays<T>(s: Seq<T>, t: Seq<T>, leq: spec_fn(T, T) -> bool, end: int)
    requires
        tail_sorted(s, leq, end),
        stays_within(t, s, 0, end),
        0 <= end <= s.len(),
    ensures
        tail_sorted(t, leq, end),
{
    assert forall|a: int, b: int| 0 <= a < end <= b < t.len() implies leq(
        #[trigger] t[a],
        #[trigger] t[b],
    ) by {
        let m: int = choose|m: int| #![trigger s[m]] 0 <= m < end && t[a] == s[m];
        assert(leq(s[m], s[b]));
    }
}

/// Lets the element at `start` sink until neither child is above it, within
/// the positions before `end`.
fn sift_down<T, F: Fn(&T, &T) -> Ordering>(v: &mut [T], start: usize, end: usize, cmp: &F)
    requires
        start < end <= old(v)@.len(),
        comparable(cmp, old(v)@),
    ensures
        rearranges(final(v)@, old(v)@),
        forall|a: T| final(v)@.contains(a) <==> old(v)@.contains(a),
        stays_within(final(v)@, old(v)@, pos(start), pos(end)),
        forall|leq: spec_fn(T, T) -> bool| #[trigger]
            orders(cmp, leq, old(v)@) && heap_from(old(v)@, leq, start + 1, pos(end))
                ==> heap_from(final(v)@, leq, pos(start), pos(end)),
{
    let mut root: usize = start;
    loop
        invariant
            start <= root < end <= v@.len(),
            comparable(cmp, old(v)@),
            rearranges(v@, old(v)@),
            forall|a: T| v@.contains(a) <==> old(v)@.contains(a),
            stays_within(v@, old(v)@, pos(start), pos(end)),
            forall|leq: spec_fn(T, T) -> bool| #[trigger]
                orders(cmp, leq, old(v)@) && heap_from(old(v)@, leq, start + 1, pos(end))
                    ==> heap_but(v@, leq, pos(start), pos(end), pos(root)),
        ensures
            rearranges(v@, old(v)@),
            forall|a: T| v@.contains(a) <==> old(v)@.contains(a),
            stays_within(v@, old(v)@, pos(start), pos(end)),
            forall|leq: spec_fn(T, T) -> bool| #[trigger]
                orders(cmp, leq, old(v)@) && heap_from(old(v)@, leq, start + 1, pos(end))
                    ==> heap_from(v@, leq, pos(start), pos(end)),
        decreases end - root,
    {
        if root >= end / 2 {
            proof {
                assert forall|leq: spec_fn(T, T) -> bool| #[trigger]
                    orders(cmp, leq, old(v)@) && heap_from(
                        old(v)@,
                        leq,
                        start + 1,
                        pos(end),
                    ) implies heap_from(v@, leq, pos(start), pos(end)) by {
                    lemma_hole_at_leaf(v@, leq, pos(start), pos(end), pos(root));
                }
            }
            break ;
        }
        let left: usize = 2 * root + 1;
        let mut child: usize = left;
        if left + 1 < end {
            if exceeds(cmp, &v[left + 1], &v[left]) {
                child = left + 1;
            }
        }
        let sinks: bool = exceeds(cmp, &v[child], &v[root]);
        let ghost before = v@;
        proof {
            assert forall|leq: spec_fn(T, T) -> bool| #[trigger]
                orders(cmp, leq, old(v)@) && heap_from(
                    old(v)@,
                    leq,
                    start + 1,
                    pos(end),
                ) implies (if sinks {
                heap_but(swapped(before, pos(root), pos(child)), leq, pos(start), pos(end), pos(child))
            } else {
                heap_from(before, leq, pos(start), pos(end))
            }) by {
                lemma_preorder_on_fewer(leq, old(v)@, before);
                lemma_preorder_reflexive(leq, before, pos(child));
                assert forall|k: int| 0 < k < end && parent(k) == root implies leq(
                    #[trigger] before[k],
                    at(before, child),
                ) by {
                    assert(k == left || k == left + 1);
                }
                if sinks {
                    lemma_hole_moves(before, leq, pos(start), pos(end), pos(root), pos(child));
                } else {
                    lemma_hole_settled(before, leq, pos(start), pos(end), pos(root), pos(child));
                }
            }
        }
        if !sinks {
            break ;
        }
        exchange(v, root, child);
        root = child;
    }
}

/// Sorts `v` in place: arranges it as a max-heap, then moves the greatest
/// element to the end of the heap again and again, shrinking the heap by one
/// each time.
///
/// The result is a rearrangement of the input whatever the comparator answers,
/// and it is sorted by every total preorder that the comparator answers by.
/// A slice of fewer than two elements is returned as it is, without a call of
/// the comparator.
pub fn heapsort<T, F: Fn(&T, &T) -> Ordering>(v: &mut [T], cmp: &F)
    requires
        old(v)@.len() > 1 ==> comparable(cmp, old(v)@),
    ensures
        rearranges(final(v)@, old(v)@),
        final(v)@.len() == old(v)@.len(),
        old(v)@.len() <= 1 ==> final(v)@ == old(v)@,
        forall|leq: spec_fn(T, T) -> bool| #[trigger]
            orders(cmp, leq, old(v)@) ==> sorted_by(final(v)@, leq),
{
    let n: usize = v.len();
    if n < 2 {
        return ;
    }
    let mut start: usize = n / 2;
    while start > 0
        invariant
            start <= n / 2,
            2 <= n == v@.len(),
            n == old(v)@.len(),
            comparable(cmp, old(v)@),
            rearranges(v@, old(v)@),
            forall|a: T| v@.contains(a) <==> old(v)@.contains(a),
            forall|leq: spec_fn(T, T) -> bool| #[trigger]
                orders(cmp, leq, old(v)@) ==> heap_from(v@, leq, pos(start), pos(n)),
        decreases start,
    {
        start -= 1;
        let ghost before = v@;
        proof {
            lemma_comparable_on_fewer(cmp, old(v)@, before);
        }
        sift_down(v, start, n, cmp);
        proof {
            assert forall|leq: spec_fn(T, T) -> bool| #[trigger]
                orders(cmp, leq, old(v)@) implies heap_from(v@, leq, pos(start), pos(n)) by {
                lemma_orders_on_fewer(cmp, leq, old(v)@, before);
            }
        }
    }
    let mut end: usize = n;
    while end > 1
        invariant
            1 <= end <= n,
            2 <= n == v@.len(),
            n == old(v)@.len(),
            comparable(cmp, old(v)@),
            rearranges(v@, old(v)@),
            forall|a: T| v@.contains(a) <==> old(v)@.contains(a),
            forall|leq: spec_fn(T, T) -> bool| #[trigger]
                orders(cmp, leq, old(v)@) ==> heap_from(v@, leq, 0, pos(end)) && tail_sorted(
                    v@,
                    leq,
                    pos(end),
                ),
        decreases end,
    {
        end -= 1;
        let ghost before = v@;
        exchange(v, 0, end);
        let ghost exchanged = v@;
        proof {
            lemma_comparable_on_fewer(cmp, old(v)@, exchanged);
        }
        sift_down(v, 0, end, cmp);
        proof {
            assert forall|leq: spec_fn(T, T) -> bool| #[trigger]
                orders(cmp, leq, old(v)@) implies heap_from(v@, leq, 0, pos(end)) && tail_sorted(
                v@,
                leq,
                pos(end),
            ) by {
                lemma_orders_on_fewer(cmp, leq, old(v)@, before);
                lemma_orders_on_fewer(cmp, leq, old(v)@, exchanged);
                lemma_greatest_to_tail(before, leq, pos(end));
                lemma_tail_sorted_stays(exchanged, v@, leq, pos(end));
            }
        }
    }
}

} // verus!
