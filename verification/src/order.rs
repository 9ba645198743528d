//! Total preorders on the elements of a sequence, and what it means for a
//! sequence to be sorted by one.

use crate::seqs::{lemma_part_elements, lemma_rearranges_elements, rearranges};
use vstd::prelude::*;

verus! {

/// On the elements of `s`, `leq` is total and transitive.
pub open spec fn total_preorder_on<T>(leq: spec_fn(T, T) -> bool, s: Seq<T>) -> bool {
    &&& forall|a: T, b: T| s.contains(a) && s.contains(b) ==> #[trigger] leq(a, b) || leq(b, a)
    &&& forall|a: T, b: T, c: T|
        s.contains(a) && s.contains(b) && s.contains(c) && #[trigger] leq(a, b) && #[trigger] leq(
            b,
            c,
        ) ==> leq(a, c)
}

/// Every element of `s` is `leq` every element that comes after it.
pub open spec fn sorted_by<T>(s: Seq<T>, leq: spec_fn(T, T) -> bool) -> bool {
    forall|i: int, j: int| 0 <= i < j < s.len() ==> leq(#[trigger] s[i], #[trigger] s[j])
}

/// On the elements of `s`, `leq` holds both ways only between an element and
/// itself.
pub open spec fn antisymmetric_on<T>(leq: spec_fn(T, T) -> bool, s: Seq<T>) -> bool {
    forall|a: T, b: T|
        s.contains(a) && s.contains(b) && #[trigger] leq(a, b) && #[trigger] leq(b, a) ==> a == b
}

/// No element before position `p` is above the one at `p`, which is above
/// none after it.
pub open spec fn partitioned_at<T>(s: Seq<T>, leq: spec_fn(T, T) -> bool, p: int) -> bool {
    &&& forall|k: int| 0 <= k < p ==> leq(#[trigger] s[k], s[p])
    &&& forall|k: int| p < k < s.len() ==> leq(s[p], #[trigger] s[k])
}

/// The first element lies between the middle one and the last.
pub open spec fn front_between<T>(s: Seq<T>, leq: spec_fn(T, T) -> bool) -> bool {
    leq(s[(s.len() / 2) as int], s[0]) && leq(s[0], s[s.len() - 1])
}

/// A total preorder on the elements of `s` is one on the elements of any
/// sequence that holds no others.
pub proof fn lemma_preorder_on_fewer<T>(leq: spec_fn(T, T) -> bool, s: Seq<T>, t: Seq<T>)
    requires
        total_preorder_on(leq, s),
        forall|a: T| t.contains(a) ==> s.contains(a),
    ensures
        total_preorder_on(leq, t),
{
}

/// Under a total preorder every element is `leq` itself.
pub proof fn lemma_preorder_reflexive<T>(leq: spec_fn(T, T) -> bool, s: Seq<T>, i: int)
    requires
        total_preorder_on(leq, s),
        0 <= i < s.len(),
    ensures
        leq(s[i], s[i]),
{
}

/// Sorting each side of a partition sorts the whole.
pub proof fn lemma_sorted_around<T>(t: Seq<T>, s: Seq<T>, leq: spec_fn(T, T) -> bool, p: int)
    requires
        total_preorder_on(leq, s),
        partitioned_at(s, leq, p),
        t.len() == s.len(),
        0 <= p < s.len(),
        t[p] == s[p],
        rearranges(t.subrange(0, p), s.subrange(0, p)),
        rearranges(t.subrange(p + 1, t.len() as int), s.subrange(p + 1, s.len() as int)),
        sorted_by(t.subrange(0, p), leq),
        sorted_by(t.subrange(p + 1, t.len() as int), leq),
    ensures
        sorted_by(t, leq),
{
    let n: int = s.len() as int;
    let (tl, sl) = (t.subrange(0, p), s.subrange(0, p));
    let (tr, sr) = (t.subrange(p + 1, n), s.subrange(p + 1, n));
    lemma_rearranges_elements(tl, sl);
    lemma_rearranges_elements(tr, sr);
    lemma_part_elements(s, 0, p);
    lemma_part_elements(s, p + 1, n);
    assert forall|k: int| 0 <= k < p implies leq(#[trigger] t[k], s[p]) && s.contains(t[k]) by {
        assert(sl.contains(tl[k]));
        let m: int = choose|m: int| 0 <= m < sl.len() && sl[m] == tl[k];
        assert(leq(s[m], s[p]));
    }
    assert forall|k: int| p < k < n implies leq(s[p], #[trigger] t[k]) && s.contains(t[k]) by {
        assert(sr.contains(tr[k - (p + 1)]));
        let m: int = choose|m: int| 0 <= m < sr.len() && sr[m] == tr[k - (p + 1)];
        assert(leq(s[p], s[p + 1 + m]));
    }
    assert forall|i: int, j: int| 0 <= i < j < n implies leq(#[trigger] t[i], #[trigger] t[j]) by {
        if j < p {
            assert(leq(tl[i], tl[j]));
        } else if i > p {
            assert(leq(tr[i - (p + 1)], tr[j - (p + 1)]));
        } else if i < p && p < j {
            assert(leq(t[i], s[p]) && leq(s[p], t[j]));
        }
    }
}

/// A sequence has at most one sorted rearrangement where the order tells
/// all its elements apart. So whatever sorts a sorted sequence returns it as
/// it is, and sorting twice gives what sorting once gives.
pub proof fn lemma_sorted_rearrangement_unique<T>(t: Seq<T>, s: Seq<T>, leq: spec_fn(T, T) -> bool)
    requires
        antisymmetric_on(leq, s),
        rearranges(t, s),
        sorted_by(s, leq),
        sorted_by(t, leq),
    ensures
        t == s,
    decreases s.len(),
{
    lemma_rearranges_elements(t, s);
    if s.len() > 0 {
        // Each first element occurs in the other sequence, at the front or
        // after it, so each is `leq` the other.
        assert(s.contains(t[0]) && t.contains(s[0]));
        let i: int = choose|i: int| 0 <= i < s.len() && s[i] == t[0];
        let j: int = choose|j: int| 0 <= j < t.len() && t[j] == s[0];
        assert(s[0] == t[0]) by {
            if i > 0 && j > 0 {
                assert(leq(s[0], s[i]) && leq(t[0], t[j]));
            }
        }
        let (s1, t1) = (s.drop_first(), t.drop_first());
        vstd::seq_lib::to_multiset_remove(s, 0);
        vstd::seq_lib::to_multiset_remove(t, 0);
        assert(s1 =~= s.remove(0) && t1 =~= t.remove(0));
        lemma_part_elements(s, 1, s.len() as int);
        assert forall|a: int, b: int| 0 <= a < b < s1.len() implies leq(
            #[trigger] s1[a],
            #[trigger] s1[b],
        ) by {
            assert(leq(s[a + 1], s[b + 1]));
        }
        assert forall|a: int, b: int| 0 <= a < b < t1.len() implies leq(
            #[trigger] t1[a],
            #[trigger] t1[b],
        ) by {
            assert(leq(t[a + 1], t[b + 1]));
        }
        lemma_sorted_rearrangement_unique(t1, s1, leq);
        assert(s =~= seq![s[0]] + s1);
        assert(t =~= seq![t[0]] + t1);
    }
}

} // verus!
