//! Selection sort: find the least of what remains and put it in front.

use crate::emitter::{FrameDriver, Snapshot, StepEmitter};
use crate::model::ArrayModel;
use crate::order::{
    is_sorted, lemma_permuted_trans, lemma_permuted_whole, lemma_swap_permutes, pairs,
    permuted_between, sorted_between, swapped,
};
use vstd::prelude::*;

verus! {

/// `m` is where the first of the least elements of `s` in `lo..hi` stands.
pub open spec fn is_first_min(s: Seq<u32>, lo: int, hi: int, m: int) -> bool {
    &&& lo <= m < hi
    &&& forall|k: int| lo <= k < hi ==> s[m] <= s[k]
    &&& forall|k: int| lo <= k < m ==> s[m] < s[k]
}

/// Where the first of the least elements of `s` in `lo..hi` stands.
pub open spec fn first_min(s: Seq<u32>, lo: int, hi: int) -> int {
    choose|m: int| is_first_min(s, lo, hi, m)
}

/// Only one position holds the first of the least elements.
pub proof fn lemma_first_min_unique(s: Seq<u32>, lo: int, hi: int, m: int)
    requires
        is_first_min(s, lo, hi, m),
    ensures
        m == first_min(s, lo, hi),
{
    let c = first_min(s, lo, hi);
    assert(is_first_min(s, lo, hi, c));
    if c < m {
        assert(s[m] < s[c]);
    } else if m < c {
        assert(s[c] < s[m]);
    }
}

/// Every non-empty range has a first least element.
pub proof fn lemma_first_min_exists(s: Seq<u32>, lo: int, hi: int)
    requires
        lo < hi,
    ensures
        is_first_min(s, lo, hi, first_min(s, lo, hi)),
    decreases hi - lo,
{
    if hi == lo + 1 {
        assert(is_first_min(s, lo, hi, lo));
    } else {
        lemma_first_min_exists(s, lo, hi - 1);
        let m = first_min(s, lo, hi - 1);
        if s[hi - 1] < s[m] {
            assert(is_first_min(s, lo, hi, hi - 1));
        } else {
            assert(is_first_min(s, lo, hi, m));
        }
    }
}

/// The snapshots of a scan of `s` from `start` up to `end`, in order: one
/// for every position after `start` and before `end`, paired with where
/// the first least element before it stands, the values untouched.
pub open spec fn scan_trace(s: Seq<u32>, start: int, end: int) -> Seq<Snapshot> {
    Seq::new(
        (end - start - 1) as nat,
        |t: int|
            Snapshot {
                values: s,
                active_pair: Some(
                    ((start + 1 + t) as usize, first_min(s, start, start + 1 + t) as usize),
                ),
            },
    )
}

/// `s` after the pass that puts the least element of `i..` at `i`.
pub open spec fn selection_pass_state(s: Seq<u32>, i: int) -> Seq<u32> {
    swapped(s, i, first_min(s, i, s.len() as int))
}

/// The snapshots of the pass for position `i`: those of the scan from
/// `i`, then one with nothing highlighted if a swap was made.
pub open spec fn selection_pass_trace(s: Seq<u32>, i: int) -> Seq<Snapshot> {
    scan_trace(s, i, s.len() as int) + if first_min(s, i, s.len() as int) != i {
        seq![Snapshot { values: selection_pass_state(s, i), active_pair: None }]
    } else {
        Seq::empty()
    }
}

/// `s` after the passes for the first `passes` positions.
pub open spec fn selection_state(s: Seq<u32>, passes: nat) -> Seq<u32>
    decreases passes,
{
    if passes == 0 {
        s
    } else {
        selection_pass_state(selection_state(s, (passes - 1) as nat), passes - 1)
    }
}

/// The snapshots of the passes for the first `passes` positions.
pub open spec fn selection_trace(s: Seq<u32>, passes: nat) -> Seq<Snapshot>
    decreases passes,
{
    if passes == 0 {
        Seq::empty()
    } else {
        selection_trace(s, (passes - 1) as nat) + selection_pass_trace(
            selection_state(s, (passes - 1) as nat),
            passes - 1,
        )
    }
}

/// What a snapshot emitted by selection sort looks like: the values are a
/// rearrangement of those from before, and the pair, when there is one,
/// is a position scanned with an earlier position.
pub open spec fn selection_snapshot(before: Seq<u32>, shot: Snapshot) -> bool {
    &&& permuted_between(before, shot.values, 0, before.len() as int)
    &&& match shot.active_pair {
        Some((a, b)) => b < a < before.len(),
        None => true,
    }
}

/// Scans `start + 1..` for a smaller element than the least seen so far,
/// beginning with `start`, and returns where the least one is. Every
/// comparison emits a step whose pair is the position scanned and the
/// position of the least element seen before the comparison. Among equal
/// least elements the first is chosen.
pub fn select_min<D: FrameDriver>(
    model: &mut ArrayModel,
    emitter: &mut StepEmitter<D>,
    start: usize,
) -> (min_index: usize)
    requires
        old(model).wf(),
        start < old(model)@.len(),
    ensures
        final(model).wf(),
        final(model)@ == old(model)@,
        final(model).writes() == old(model).writes(),
        final(emitter).steps() == old(emitter).steps() + (old(model)@.len() - start - 1),
        is_first_min(old(model)@, start as int, old(model)@.len() as int, min_index as int),
        final(emitter).offered() == old(emitter).offered() + scan_trace(
            old(model)@,
            start as int,
            old(model)@.len() as int,
        ),
{
    let n = model.len();
    let mut min_index: usize = start;
    let mut j: usize = start + 1;
    assert(emitter.offered() =~= emitter.offered() + scan_trace(model@, start as int, j as int));
    while j < n
        invariant
            model.wf(),
            model@ == old(model)@,
            model.writes() == old(model).writes(),
            n == model@.len(),
            start <= min_index < j <= n,
            emitter.steps() == old(emitter).steps() + (j - start - 1),
            is_first_min(model@, start as int, j as int, min_index as int),
            emitter.offered() == old(emitter).offered() + scan_trace(
                old(model)@,
                start as int,
                j as int,
            ),
        decreases n - j,
    {
        model.mark_active(j, min_index);
        emitter.step(model);
        proof {
            lemma_first_min_unique(model@, start as int, j as int, min_index as int);
            assert(emitter.offered() =~= old(emitter).offered() + scan_trace(
                old(model)@,
                start as int,
                j + 1,
            ));
        }
        if model.get(j) < model.get(min_index) {
            min_index = j;
        }
        j += 1;
    }
    min_index
}

/// Sorts the whole array by selection sort.
///
/// The result is the sorted arrangement of the input. Every comparison
/// emits a step, so the scans alone emit `n * (n - 1) / 2` steps whatever
/// the input; each swap is one write and emits one more step with no pair
/// highlighted. At most `n - 1` swaps are made, and none on a sorted input.
pub fn selection_sort<D: FrameDriver>(model: &mut ArrayModel, emitter: &mut StepEmitter<D>)
    requires
        old(model).wf(),
    ensures
        final(model).wf(),
        is_sorted(final(model)@),
        final(model)@.len() == old(model)@.len(),
        final(model)@.to_multiset() == old(model)@.to_multiset(),
        is_sorted(old(model)@) ==> final(model)@ == old(model)@,
        is_sorted(old(model)@) ==> final(model).writes() == old(model).writes(),
        old(model).writes() <= final(model).writes() <= old(model).writes() + old(model)@.len(),
        old(model)@.len() > 0 ==> final(model).writes() < old(model).writes() + old(model)@.len(),
        final(emitter).steps() - old(emitter).steps()
            == pairs(old(model)@.len()) + final(model).writes() - old(model).writes(),
        final(model)@ == selection_state(old(model)@, old(model)@.len()),
        final(emitter).offered() == old(emitter).offered() + selection_trace(
            old(model)@,
            old(model)@.len(),
        ),
        forall|k: int|
            old(emitter).steps() <= k < final(emitter).steps() ==> selection_snapshot(
                old(model)@,
                #[trigger] final(emitter).offered()[k],
            ),
{
    let n = model.len();
    let mut i: usize = 0;
    assert(emitter.offered() =~= emitter.offered() + selection_trace(model@, 0));
    while i < n
        invariant
            model.wf(),
            i <= n == model@.len() == old(model)@.len(),
            sorted_between(model@, 0, i as int),
            forall|a: int, b: int| 0 <= a < i <= b < n ==> model@[a] <= model@[b],
            permuted_between(old(model)@, model@, 0, n as int),
            old(model).writes() <= model.writes() <= old(model).writes() + i,
            i == n && n > 0 ==> model.writes() < old(model).writes() + n,
            emitter.steps() + pairs((n - i) as nat) == old(emitter).steps() + pairs(n as nat) + (
            model.writes() - old(model).writes()),
            is_sorted(old(model)@) ==> model@ == old(model)@,
            is_sorted(old(model)@) ==> model.writes() == old(model).writes(),
            model@ == selection_state(old(model)@, i as nat),
            emitter.offered() == old(emitter).offered() + selection_trace(old(model)@, i as nat),
            forall|k: int|
                old(emitter).steps() <= k < emitter.steps() ==> selection_snapshot(
                    old(model)@,
                    #[trigger] emitter.offered()[k],
                ),
        decreases n - i,
    {
        let ghost pass_start = model@;
        let ghost shots_before = emitter.offered();
        assert(pairs((n - i) as nat) == pairs((n - i - 1) as nat) + (n - i - 1));
        let min_index = select_min(model, emitter, i);
        proof {
            let shots = emitter.offered();
            assert forall|k: int| shots_before.len() <= k < shots.len() implies selection_snapshot(
                old(model)@,
                #[trigger] shots[k],
            ) by {
                let t = k - shots_before.len();
                lemma_first_min_exists(pass_start, i as int, i + 1 + t);
                assert(shots[k] == scan_trace(pass_start, i as int, n as int)[t]);
            }
            lemma_first_min_unique(pass_start, i as int, n as int, min_index as int);
            assert(swapped(pass_start, i as int, i as int) =~= pass_start);
        }
        if min_index != i {
            model.swap(i, min_index);
            model.clear_active();
            emitter.step(model);
            proof {
                lemma_swap_permutes(pass_start, i as int, min_index as int, 0, n as int);
                lemma_permuted_trans(old(model)@, pass_start, model@, 0, n as int);
            }
        }
        proof {
            assert(model@ == selection_pass_state(pass_start, i as int));
            assert(emitter.offered() =~= shots_before + selection_pass_trace(pass_start, i as int));
            assert(emitter.offered() =~= old(emitter).offered() + selection_trace(
                old(model)@,
                (i + 1) as nat,
            ));
        }
        i += 1;
    }
    proof {
        lemma_permuted_whole(old(model)@, model@);
    }
}

} // verus!
