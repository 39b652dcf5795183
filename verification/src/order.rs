//! What it means for a sequence to be sorted and to be a rearrangement of
//! another, with the facts about both that the algorithms rely on.

use vstd::multiset::*;
use vstd::prelude::*;
use vstd::relations::{sorted_by, total_ordering};
use vstd::seq_lib::*;

verus! {

/// The positions `lo..hi` of `s` hold a non-decreasing run.
pub open spec fn sorted_between(s: Seq<u32>, lo: int, hi: int) -> bool {
    forall|i: int, j: int| lo <= i <= j < hi ==> s[i] <= s[j]
}

/// The whole of `s` is non-decreasing.
pub open spec fn is_sorted(s: Seq<u32>) -> bool {
    sorted_between(s, 0, s.len() as int)
}

/// `b` is `a` with the positions `lo..hi` rearranged among themselves and
/// every other position left alone.
pub open spec fn permuted_between(a: Seq<u32>, b: Seq<u32>, lo: int, hi: int) -> bool {
    &&& a.len() == b.len()
    &&& 0 <= lo <= hi <= a.len()
    &&& a.subrange(lo, hi).to_multiset() == b.subrange(lo, hi).to_multiset()
    &&& forall|k: int| 0 <= k < a.len() && !(lo <= k < hi) ==> a[k] == b[k]
}

/// `s` with the elements at `i` and `j` exchanged.
pub open spec fn swapped(s: Seq<u32>, i: int, j: int) -> Seq<u32> {
    s.update(i, s[j]).update(j, s[i])
}

/// The number of unordered pairs among `n` things: `n * (n - 1) / 2`.
pub open spec fn pairs(n: nat) -> nat
    decreases n,
{
    if n == 0 {
        0
    } else {
        pairs((n - 1) as nat) + (n - 1) as nat
    }
}

/// The closed form of [`pairs`].
pub proof fn lemma_pairs_closed_form(n: nat)
    ensures
        2 * pairs(n) == n * (n - 1),
        pairs(n) <= n * n,
    decreases n,
{
    if n > 0 {
        let m = (n - 1) as nat;
        let p = pairs(m);
        lemma_pairs_closed_form(m);
        assert(2 * (p + m) == (m + 1) * m) by (nonlinear_arith)
            requires
                2 * p == m * (m - 1),
        ;
        assert(pairs(n) == p + m);
        assert(n * (n - 1) <= 2 * (n * n)) by (nonlinear_arith)
            requires
                n >= 1,
        ;
    } else {
        assert(n * (n - 1) == 0) by (nonlinear_arith)
            requires
                n == 0,
        ;
        assert(n * n == 0) by (nonlinear_arith)
            requires
                n == 0,
        ;
    }
}

/// An empty sequence holds no values.
pub proof fn lemma_empty_to_multiset(s: Seq<u32>)
    requires
        s.len() == 0,
    ensures
        s.to_multiset() == Multiset::<u32>::empty(),
{
    s.to_multiset_ensures();
    lemma_multiset_empty_len(s.to_multiset());
}

/// Exchanging two positions inside `lo..hi` rearranges `lo..hi`.
pub proof fn lemma_swap_permutes(s: Seq<u32>, i: int, j: int, lo: int, hi: int)
    requires
        0 <= lo <= i < hi <= s.len(),
        lo <= j < hi,
    ensures
        permuted_between(s, swapped(s, i, j), lo, hi),
{
    broadcast use group_multiset_axioms;

    let part = s.subrange(lo, hi);
    let once = part.update(i - lo, s[j]);
    let twice = once.update(j - lo, s[i]);
    assert(swapped(s, i, j).subrange(lo, hi) =~= twice);
    to_multiset_update(part, i - lo, s[j]);
    to_multiset_update(once, j - lo, s[i]);
    part.to_multiset_ensures();
    assert(part.contains(part[i - lo]));
    assert(part.contains(part[j - lo]));
    assert(twice.to_multiset() =~= part.to_multiset());
}

/// A rearrangement of `lo..hi` is also one of any wider range.
pub proof fn lemma_permuted_widen(a: Seq<u32>, b: Seq<u32>, lo: int, hi: int, lo2: int, hi2: int)
    requires
        permuted_between(a, b, lo, hi),
        0 <= lo2 <= lo,
        hi <= hi2 <= a.len(),
    ensures
        permuted_between(a, b, lo2, hi2),
{
    let head = a.subrange(lo2, lo);
    let tail = a.subrange(hi, hi2);
    assert(b.subrange(lo2, lo) =~= head);
    assert(b.subrange(hi, hi2) =~= tail);
    assert(a.subrange(lo2, hi2) =~= head + a.subrange(lo, hi) + tail);
    assert(b.subrange(lo2, hi2) =~= head + b.subrange(lo, hi) + tail);
    lemma_multiset_commutative(head, a.subrange(lo, hi));
    lemma_multiset_commutative(head + a.subrange(lo, hi), tail);
    lemma_multiset_commutative(head, b.subrange(lo, hi));
    lemma_multiset_commutative(head + b.subrange(lo, hi), tail);
}

/// Two rearrangements of `lo..hi`, one after the other, are one.
pub proof fn lemma_permuted_trans(a: Seq<u32>, b: Seq<u32>, c: Seq<u32>, lo: int, hi: int)
    requires
        permuted_between(a, b, lo, hi),
        permuted_between(b, c, lo, hi),
    ensures
        permuted_between(a, c, lo, hi),
{
}

/// Rearranging the whole sequence keeps its multiset of values.
pub proof fn lemma_permuted_whole(a: Seq<u32>, b: Seq<u32>)
    requires
        permuted_between(a, b, 0, a.len() as int),
    ensures
        a.to_multiset() == b.to_multiset(),
{
    assert(a.subrange(0, a.len() as int) =~= a);
    assert(b.subrange(0, b.len() as int) =~= b);
}

/// Every value found in `lo..hi` after a rearrangement was there before.
pub proof fn lemma_permuted_member(a: Seq<u32>, b: Seq<u32>, lo: int, hi: int, k: int) -> (w: int)
    requires
        permuted_between(a, b, lo, hi),
        lo <= k < hi,
    ensures
        lo <= w < hi,
        a[w] == b[k],
{
    let pa = a.subrange(lo, hi);
    let pb = b.subrange(lo, hi);
    pa.to_multiset_ensures();
    pb.to_multiset_ensures();
    assert(pb[k - lo] == b[k]);
    assert(pb.contains(b[k]));
    assert(pb.to_multiset().count(b[k]) > 0);
    assert(pa.to_multiset().count(b[k]) > 0);
    assert(pa.contains(b[k]));
    let t = choose|t: int| 0 <= t < pa.len() && pa[t] == b[k];
    t + lo
}

/// An upper bound on `lo..hi` survives a rearrangement of `lo..hi`.
pub proof fn lemma_permuted_upper_bound(a: Seq<u32>, b: Seq<u32>, lo: int, hi: int, v: u32)
    requires
        permuted_between(a, b, lo, hi),
        forall|k: int| lo <= k < hi ==> a[k] <= v,
    ensures
        forall|k: int| lo <= k < hi ==> b[k] <= v,
{
    assert forall|k: int| lo <= k < hi implies b[k] <= v by {
        let w = lemma_permuted_member(a, b, lo, hi, k);
    }
}

/// `t` is `s` with the positions `lo..hi` put in non-decreasing order.
pub open spec fn is_sorted_range_of(s: Seq<u32>, t: Seq<u32>, lo: int, hi: int) -> bool {
    permuted_between(s, t, lo, hi) && sorted_between(t, lo, hi)
}

/// `s` with the positions `lo..hi` put in non-decreasing order and the
/// rest left alone.
pub open spec fn sorted_range(s: Seq<u32>, lo: int, hi: int) -> Seq<u32> {
    choose|t: Seq<u32>| is_sorted_range_of(s, t, lo, hi)
}

/// There is only one way to put a range in order.
pub proof fn lemma_sorted_range_unique(s: Seq<u32>, t: Seq<u32>, lo: int, hi: int)
    requires
        is_sorted_range_of(s, t, lo, hi),
    ensures
        t == sorted_range(s, lo, hi),
{
    let u = sorted_range(s, lo, hi);
    assert(is_sorted_range_of(s, u, lo, hi));
    let leq = |x: u32, y: u32| x <= y;
    let tp = t.subrange(lo, hi);
    let up = u.subrange(lo, hi);
    assert(sorted_by(tp, leq)) by {
        assert forall|a: int, b: int| 0 <= a < b < tp.len() implies #[trigger] leq(
            tp[a],
            tp[b],
        ) by {
            assert(tp[a] == t[lo + a] && tp[b] == t[lo + b]);
        }
    }
    assert(sorted_by(up, leq)) by {
        assert forall|a: int, b: int| 0 <= a < b < up.len() implies #[trigger] leq(
            up[a],
            up[b],
        ) by {
            assert(up[a] == u[lo + a] && up[b] == u[lo + b]);
        }
    }
    assert(total_ordering(leq));
    lemma_sorted_unique(tp, up, leq);
    assert forall|k: int| 0 <= k < t.len() implies t[k] == u[k] by {
        if lo <= k < hi {
            assert(tp[k - lo] == t[k]);
            assert(up[k - lo] == u[k]);
        }
    }
    assert(t =~= u);
}

/// A sorted sequence is the only sorted arrangement of its values: sorting
/// what is already sorted changes nothing.
pub proof fn lemma_sorted_arrangement_unique(a: Seq<u32>, b: Seq<u32>)
    requires
        is_sorted(a),
        is_sorted(b),
        a.to_multiset() == b.to_multiset(),
    ensures
        a == b,
{
    let leq = |x: u32, y: u32| x <= y;
    assert(sorted_by(a, leq));
    assert(sorted_by(b, leq));
    assert(total_ordering(leq));
    lemma_sorted_unique(a, b, leq);
}

} // verus!
