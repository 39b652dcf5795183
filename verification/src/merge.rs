//! Merge sort: split into halves down to single elements, then merge.

use crate::emitter::{FrameDriver, Snapshot, StepEmitter};
use crate::model::ArrayModel;
use crate::order::{
    is_sorted, lemma_empty_to_multiset, lemma_permuted_trans, lemma_permuted_whole,
    lemma_permuted_widen, lemma_sorted_arrangement_unique, lemma_sorted_range_unique,
    permuted_between, sorted_between, sorted_range,
};
use vstd::arithmetic::power2::{lemma2_to64, lemma_pow2_unfold, pow2};
use vstd::multiset::*;
use vstd::prelude::*;
use vstd::seq_lib::*;

verus! {

/// The number of writes merge sort makes on `n` elements: every merge
/// writes its whole range back.
pub open spec fn merge_writes(n: nat) -> nat
    decreases n,
{
    if n < 2 {
        0
    } else {
        merge_writes(n / 2) + merge_writes((n - n / 2) as nat) + n
    }
}

/// The number of steps merge sort emits on `n` elements: one per merge.
pub open spec fn merge_steps(n: nat) -> nat {
    if n == 0 {
        0
    } else {
        (n - 1) as nat
    }
}

/// How many times `n` elements are halved before single elements remain:
/// the least `d` with `n <= 2^d`.
pub open spec fn halvings(n: nat) -> nat
    decreases n,
{
    if n < 2 {
        0
    } else {
        1 + halvings((n - n / 2) as nat)
    }
}

/// What a snapshot emitted by merge sort on `lo..hi` looks like: nothing is
/// highlighted, and the values are those from before with `lo..hi`
/// rearranged.
pub open spec fn merge_snapshot(before: Seq<u32>, lo: int, hi: int, shot: Snapshot) -> bool {
    &&& shot.active_pair == None::<(usize, usize)>
    &&& permuted_between(before, shot.values, lo, hi)
}

/// The snapshots merge sort emits on `lo..hi` of `s`, in order: those of
/// the left half, those of the right half, and the one that shows the
/// merged range, with nothing highlighted.
pub open spec fn merge_trace(s: Seq<u32>, lo: int, hi: int) -> Seq<Snapshot>
    decreases hi - lo,
{
    if hi - lo < 2 {
        Seq::empty()
    } else {
        let mid = lo + (hi - lo) / 2;
        merge_trace(s, lo, mid) + merge_trace(sorted_range(s, lo, mid), mid, hi) + seq![
            Snapshot { values: sorted_range(s, lo, hi), active_pair: None },
        ]
    }
}

/// A snapshot of a merge sort on part of `lo..hi`, started from a
/// rearrangement of `lo..hi`, is one of a merge sort on `lo..hi`.
pub proof fn lemma_merge_snapshot_lift(
    before: Seq<u32>,
    between: Seq<u32>,
    lo: int,
    hi: int,
    sub_lo: int,
    sub_hi: int,
    shot: Snapshot,
)
    requires
        permuted_between(before, between, lo, hi),
        lo <= sub_lo,
        sub_hi <= hi,
        merge_snapshot(between, sub_lo, sub_hi, shot),
    ensures
        merge_snapshot(before, lo, hi, shot),
{
    lemma_permuted_widen(between, shot.values, sub_lo, sub_hi, lo, hi);
    lemma_permuted_trans(before, between, shot.values, lo, hi);
}

/// Merges the sorted runs `lo..mid` and `mid..hi` into one sorted run
/// `lo..hi`, writes it back element by element and emits one step with no
/// pair highlighted. On equal fronts the left run goes first.
pub fn merge<D: FrameDriver>(
    model: &mut ArrayModel,
    emitter: &mut StepEmitter<D>,
    lo: usize,
    mid: usize,
    hi: usize,
)
    requires
        old(model).wf(),
        lo <= mid <= hi <= old(model)@.len(),
        sorted_between(old(model)@, lo as int, mid as int),
        sorted_between(old(model)@, mid as int, hi as int),
    ensures
        final(model).wf(),
        sorted_between(final(model)@, lo as int, hi as int),
        permuted_between(old(model)@, final(model)@, lo as int, hi as int),
        final(model).active() == None::<(usize, usize)>,
        final(model).writes() == old(model).writes() + (hi - lo),
        final(emitter).steps() == old(emitter).steps() + 1,
        final(emitter).offered() == old(emitter).offered().push(
            (Snapshot { values: final(model)@, active_pair: None }),
        ),
{
    let ghost before = model@;
    let mut merged: Vec<u32> = Vec::new();
    let mut i: usize = lo;
    let mut j: usize = mid;
    proof {
        broadcast use group_multiset_axioms;

        lemma_empty_to_multiset(merged@);
        lemma_empty_to_multiset(before.subrange(lo as int, i as int));
        lemma_empty_to_multiset(before.subrange(mid as int, j as int));
        assert(merged@.to_multiset() =~= before.subrange(lo as int, i as int).to_multiset().add(
            before.subrange(mid as int, j as int).to_multiset(),
        ));
    }
    while i < mid || j < hi
        invariant
            lo <= i <= mid <= j <= hi <= before.len(),
            model@ == before,
            *model == *old(model),
            sorted_between(before, lo as int, mid as int),
            sorted_between(before, mid as int, hi as int),
            merged@.len() == (i - lo) + (j - mid),
            merged@.to_multiset() == before.subrange(lo as int, i as int).to_multiset().add(
                before.subrange(mid as int, j as int).to_multiset(),
            ),
            sorted_between(merged@, 0, merged@.len() as int),
            forall|k: int| 0 <= k < merged@.len() && i < mid ==> merged@[k] <= before[i as int],
            forall|k: int| 0 <= k < merged@.len() && j < hi ==> merged@[k] <= before[j as int],
        decreases (mid - i) + (hi - j),
    {
        broadcast use group_multiset_axioms;

        let take_left = if j >= hi {
            true
        } else if i >= mid {
            false
        } else {
            model.get(i) <= model.get(j)
        };
        let ghost prior = merged@;
        if take_left {
            let value = model.get(i);
            merged.push(value);
            proof {
                assert(before.subrange(lo as int, i + 1) =~= before.subrange(
                    lo as int,
                    i as int,
                ).push(value));
                to_multiset_build(before.subrange(lo as int, i as int), value);
                to_multiset_build(prior, value);
            }
            i += 1;
        } else {
            let value = model.get(j);
            merged.push(value);
            proof {
                assert(before.subrange(mid as int, j + 1) =~= before.subrange(
                    mid as int,
                    j as int,
                ).push(value));
                to_multiset_build(before.subrange(mid as int, j as int), value);
                to_multiset_build(prior, value);
            }
            j += 1;
        }
        assert(merged@.to_multiset() =~= before.subrange(lo as int, i as int).to_multiset().add(
            before.subrange(mid as int, j as int).to_multiset(),
        ));
    }
    proof {
        assert(before.subrange(lo as int, hi as int) =~= before.subrange(lo as int, mid as int)
            + before.subrange(mid as int, hi as int));
        lemma_multiset_commutative(
            before.subrange(lo as int, mid as int),
            before.subrange(mid as int, hi as int),
        );
    }
    let mut k: usize = 0;
    while k < merged.len()
        invariant
            lo <= hi <= before.len(),
            model@.len() == before.len(),
            merged@.len() == hi - lo,
            k <= merged@.len(),
            forall|t: int| 0 <= t < before.len() && !(lo <= t < lo + k) ==> model@[t] == before[t],
            forall|t: int| 0 <= t < k ==> model@[lo + t] == merged@[t],
            model.writes() == old(model).writes() + k,
            model.active() == old(model).active(),
        decreases merged@.len() - k,
    {
        model.set(lo + k, merged[k]);
        k += 1;
    }
    model.clear_active();
    emitter.step(model);
    proof {
        assert(model@.subrange(lo as int, hi as int) =~= merged@);
        assert forall|a: int, b: int| lo <= a <= b < hi implies model@[a] <= model@[b] by {
            assert(model@[lo + (a - lo)] == merged@[a - lo]);
            assert(model@[lo + (b - lo)] == merged@[b - lo]);
        }
    }
}

/// Sorts the positions `lo..hi` by merge sort and leaves the rest alone.
pub fn merge_sort_between<D: FrameDriver>(
    model: &mut ArrayModel,
    emitter: &mut StepEmitter<D>,
    lo: usize,
    hi: usize,
)
    requires
        old(model).wf(),
        lo <= hi <= old(model)@.len(),
    ensures
        final(model).wf(),
        sorted_between(final(model)@, lo as int, hi as int),
        permuted_between(old(model)@, final(model)@, lo as int, hi as int),
        final(model).writes() == old(model).writes() + merge_writes((hi - lo) as nat),
        final(emitter).steps() == old(emitter).steps() + merge_steps((hi - lo) as nat),
        final(emitter).offered() == old(emitter).offered() + merge_trace(
            old(model)@,
            lo as int,
            hi as int,
        ),
        forall|k: int|
            old(emitter).steps() <= k < final(emitter).steps() ==> merge_snapshot(
                old(model)@,
                lo as int,
                hi as int,
                #[trigger] final(emitter).offered()[k],
            ),
        hi - lo >= 2 ==> final(emitter).offered().last().values == final(model)@,
    decreases hi - lo,
{
    if hi - lo < 2 {
        assert(emitter.offered() =~= emitter.offered() + merge_trace(model@, lo as int, hi as int));
        return ;
    }
    let mid = lo + (hi - lo) / 2;
    let ghost before = model@;
    let ghost shots0 = emitter.offered();
    merge_sort_between(model, emitter, lo, mid);
    let ghost left_done = model@;
    let ghost shots1 = emitter.offered();
    merge_sort_between(model, emitter, mid, hi);
    let ghost both_done = model@;
    let ghost shots2 = emitter.offered();
    proof {
        lemma_permuted_widen(before, left_done, lo as int, mid as int, lo as int, hi as int);
        lemma_permuted_widen(left_done, both_done, mid as int, hi as int, lo as int, hi as int);
        lemma_permuted_trans(before, left_done, both_done, lo as int, hi as int);
    }
    merge(model, emitter, lo, mid, hi);
    proof {
        lemma_permuted_trans(before, both_done, model@, lo as int, hi as int);
        let shots = emitter.offered();
        lemma_sorted_range_unique(before, left_done, lo as int, mid as int);
        lemma_sorted_range_unique(before, model@, lo as int, hi as int);
        assert(shots =~= shots0 + merge_trace(before, lo as int, hi as int));
        assert forall|k: int| shots0.len() <= k < shots.len() implies merge_snapshot(
            before,
            lo as int,
            hi as int,
            #[trigger] shots[k],
        ) by {
            if k < shots1.len() {
                assert(shots[k] == shots1[k]);
                lemma_merge_snapshot_lift(
                    before,
                    before,
                    lo as int,
                    hi as int,
                    lo as int,
                    mid as int,
                    shots[k],
                );
            } else if k < shots2.len() {
                assert(shots[k] == shots2[k]);
                lemma_merge_snapshot_lift(
                    before,
                    left_done,
                    lo as int,
                    hi as int,
                    mid as int,
                    hi as int,
                    shots[k],
                );
            }
        }
    }
}

/// Sorts the whole array by merge sort.
///
/// The result is the sorted arrangement of the input, so a sorted input
/// comes back unchanged. One step is emitted per merge, and each merge
/// writes its range back.
pub fn merge_sort<D: FrameDriver>(model: &mut ArrayModel, emitter: &mut StepEmitter<D>)
    requires
        old(model).wf(),
    ensures
        final(model).wf(),
        is_sorted(final(model)@),
        final(model)@.len() == old(model)@.len(),
        final(model)@.to_multiset() == old(model)@.to_multiset(),
        is_sorted(old(model)@) ==> final(model)@ == old(model)@,
        final(model).writes() == old(model).writes() + merge_writes(old(model)@.len()),
        final(emitter).steps() == old(emitter).steps() + merge_steps(old(model)@.len()),
        final(emitter).offered() == old(emitter).offered() + merge_trace(
            old(model)@,
            0,
            old(model)@.len() as int,
        ),
        forall|k: int|
            old(emitter).steps() <= k < final(emitter).steps() ==> merge_snapshot(
                old(model)@,
                0,
                old(model)@.len() as int,
                #[trigger] final(emitter).offered()[k],
            ),
        old(model)@.len() >= 2 ==> final(emitter).offered().last().values == final(model)@,
{
    let n = model.len();
    merge_sort_between(model, emitter, 0, n);
    proof {
        lemma_permuted_whole(old(model)@, model@);
        if is_sorted(old(model)@) {
            lemma_sorted_arrangement_unique(old(model)@, model@);
        }
    }
}


/// Halving a larger range takes at least as many rounds.
pub proof fn lemma_halvings_monotone(a: nat, b: nat)
    requires
        a <= b,
    ensures
        halvings(a) <= halvings(b),
    decreases b,
{
    if a >= 2 {
        lemma_halvings_monotone((a - a / 2) as nat, (b - b / 2) as nat);
    }
}

/// `halvings(n)` is the logarithm of `n` to base two, rounded up: the
/// least `d` with `n <= 2^d`.
pub proof fn lemma_halvings_is_log2_ceil(n: nat)
    requires
        n >= 1,
    ensures
        n <= pow2(halvings(n)),
        n >= 2 ==> pow2((halvings(n) - 1) as nat) < n,
    decreases n,
{
    lemma2_to64();
    if n >= 2 {
        let half = (n - n / 2) as nat;
        lemma_halvings_is_log2_ceil(half);
        lemma_pow2_unfold(halvings(n));
        if half >= 2 {
            lemma_pow2_unfold(halvings(half));
        }
    }
}

/// Merge sort makes at most `n * halvings(n)` writes, that is
/// `n * ceil(log2(n))`.
pub proof fn lemma_merge_writes_bound(n: nat)
    ensures
        merge_writes(n) <= n * halvings(n),
    decreases n,
{
    if n >= 2 {
        let a = n / 2;
        let b = (n - n / 2) as nat;
        let h = halvings(b);
        lemma_merge_writes_bound(a);
        lemma_merge_writes_bound(b);
        lemma_halvings_monotone(a, b);
        assert(a * halvings(a) <= a * h) by (nonlinear_arith)
            requires
                halvings(a) <= h,
        ;
        assert(a * h + b * h + n == n * (h + 1)) by (nonlinear_arith)
            requires
                a + b == n,
        ;
    } else {
        assert(n * halvings(n) == 0) by (nonlinear_arith)
            requires
                halvings(n) == 0,
        ;
    }
}

} // verus!
