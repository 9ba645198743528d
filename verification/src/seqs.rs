//! Sequence vocabulary shared by the sorting routines: positions, exchanges
//! and rearrangements, with the facts about them that the proofs rest on.

use vstd::prelude::*;

verus! {

/// The element of `s` at position `i`.
#[verifier::inline]
pub open spec fn at<T>(s: Seq<T>, i: usize) -> T {
    s[i as int]
}

/// The position `i` as a mathematical integer.
#[verifier::inline]
pub open spec fn pos(i: usize) -> int {
    i as int
}

/// `s` with the elements at positions `i` and `j` exchanged.
pub open spec fn swapped<T>(s: Seq<T>, i: int, j: int) -> Seq<T> {
    s.update(i, s[j]).update(j, s[i])
}

/// `t` holds exactly the elements of `s`, each as often as `s` does.
pub open spec fn rearranges<T>(t: Seq<T>, s: Seq<T>) -> bool {
    t.to_multiset() == s.to_multiset()
}

/// `<[T]>::swap` exchanges the elements at the two positions and leaves every
/// other position as it was. It panics when a position is out of bounds, so
/// both are required to be in bounds.
pub assume_specification<Elem>[ <[Elem]>::swap ](slice: &mut [Elem], a: usize, b: usize)
    requires
        a < old(slice)@.len(),
        b < old(slice)@.len(),
    ensures
        final(slice)@ == swapped(old(slice)@, a as int, b as int),
;

/// Exchanging two elements rearranges a sequence.
pub proof fn lemma_swapped_rearranges<T>(s: Seq<T>, i: int, j: int)
    requires
        0 <= i < s.len(),
        0 <= j < s.len(),
    ensures
        rearranges(swapped(s, i, j), s),
        swapped(s, i, j).len() == s.len(),
{
    // Each update takes one element out of the multiset and puts one in.
    let mid = s.update(i, s[j]);
    vstd::seq_lib::to_multiset_update(s, i, s[j]);
    vstd::seq_lib::to_multiset_update(mid, j, s[i]);
    vstd::seq_lib::to_multiset_contains(s, s[i]);
    assert(swapped(s, i, j).to_multiset() =~= s.to_multiset());
}

/// A rearrangement has the same length and the same elements.
pub proof fn lemma_rearranges_elements<T>(t: Seq<T>, s: Seq<T>)
    requires
        rearranges(t, s),
    ensures
        t.len() == s.len(),
        forall|a: T| t.contains(a) <==> s.contains(a),
{
    vstd::seq_lib::to_multiset_len(t);
    vstd::seq_lib::to_multiset_len(s);
    assert forall|a: T| t.contains(a) <==> s.contains(a) by {
        vstd::seq_lib::to_multiset_contains(t, a);
        vstd::seq_lib::to_multiset_contains(s, a);
    }
}

/// The elements of a part of a sequence are elements of the sequence.
pub proof fn lemma_part_elements<T>(s: Seq<T>, lo: int, hi: int)
    requires
        0 <= lo <= hi <= s.len(),
    ensures
        forall|a: T| s.subrange(lo, hi).contains(a) ==> s.contains(a),
{
    assert forall|a: T| s.subrange(lo, hi).contains(a) implies s.contains(a) by {
        let k: int = choose|k: int| 0 <= k < hi - lo && s.subrange(lo, hi)[k] == a;
        assert(s[lo + k] == a);
    }
}

/// Rearranging the elements from `lo` up to `hi` among themselves
/// rearranges the whole.
pub proof fn lemma_rearranged_within<T>(t: Seq<T>, s: Seq<T>, lo: int, hi: int)
    requires
        t.len() == s.len(),
        0 <= lo <= hi <= s.len(),
        forall|k: int| 0 <= k < lo || hi <= k < s.len() ==> t[k] == s[k],
        rearranges(t.subrange(lo, hi), s.subrange(lo, hi)),
    ensures
        rearranges(t, s),
{
    let n: int = s.len() as int;
    assert(s =~= s.subrange(0, lo) + s.subrange(lo, hi) + s.subrange(hi, n));
    assert(t =~= t.subrange(0, lo) + t.subrange(lo, hi) + t.subrange(hi, n));
    assert(t.subrange(0, lo) =~= s.subrange(0, lo));
    assert(t.subrange(hi, n) =~= s.subrange(hi, n));
    vstd::seq_lib::lemma_multiset_commutative(s.subrange(0, lo), s.subrange(lo, hi));
    vstd::seq_lib::lemma_multiset_commutative(
        s.subrange(0, lo) + s.subrange(lo, hi),
        s.subrange(hi, n),
    );
    vstd::seq_lib::lemma_multiset_commutative(t.subrange(0, lo), t.subrange(lo, hi));
    vstd::seq_lib::lemma_multiset_commutative(
        t.subrange(0, lo) + t.subrange(lo, hi),
        t.subrange(hi, n),
    );
}

/// Exchanges the elements at positions `i` and `j`.
pub fn exchange<T>(v: &mut [T], i: usize, j: usize)
    requires
        i < old(v)@.len(),
        j < old(v)@.len(),
    ensures
        final(v)@ == swapped(old(v)@, i as int, j as int),
        final(v)@.len() == old(v)@.len(),
        rearranges(final(v)@, old(v)@),
        forall|a: T| final(v)@.contains(a) <==> old(v)@.contains(a),
{
    v.swap(i, j);
    proof {
        lemma_swapped_rearranges(old(v)@, i as int, j as int);
        lemma_rearranges_elements(v@, old(v)@);
    }
}

} // verus!
