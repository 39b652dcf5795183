//! Insertion sort: grow a sorted prefix one element at a time.

use crate::emitter::{FrameDriver, Snapshot, StepEmitter};
use crate::model::ArrayModel;
use crate::order::{
    is_sorted, is_sorted_range_of, lemma_permuted_trans, lemma_permuted_widen,
    lemma_sorted_range_unique, pairs, permuted_between, sorted_between, sorted_range,
};
use vstd::multiset::*;
use vstd::prelude::*;
use vstd::seq_lib::*;

verus! {

/// `s` after `count` elements in front of position `i` have each been
/// copied one position to the right, the nearest first. The element that
/// stood at `i` is overwritten, and position `i - count` still holds what
/// was copied from it.
pub open spec fn shifted(s: Seq<u32>, i: int, count: int) -> Seq<u32> {
    Seq::new(
        s.len(),
        |k: int|
            if i - count < k <= i {
                s[k - 1]
            } else {
                s[k]
            },
    )
}

/// The `t`-th snapshot of the pass that inserts the element at `i` of `s`:
/// `t + 1` elements have been shifted, the last of them from the first
/// position of the pair, and the second position is `i`.
pub open spec fn shift_snapshot(s: Seq<u32>, i: usize, t: int) -> Snapshot {
    Snapshot { values: shifted(s, i as int, t + 1), active_pair: Some(((i - 1 - t) as usize, i)) }
}

/// `j` is the slot for the element at `i` of `s`: behind everything in
/// front of it that is not greater, before everything that is.
pub open spec fn is_insert_slot(s: Seq<u32>, i: int, j: int) -> bool {
    &&& 0 <= j <= i
    &&& forall|k: int| 0 <= k < j ==> s[k] <= s[i]
    &&& forall|k: int| j <= k < i ==> s[k] > s[i]
}

/// The slot for the element at `i` of `s`.
pub open spec fn insert_slot(s: Seq<u32>, i: int) -> int {
    choose|j: int| is_insert_slot(s, i, j)
}

/// An element has only one slot.
pub proof fn lemma_insert_slot_unique(s: Seq<u32>, i: int, j: int)
    requires
        is_insert_slot(s, i, j),
    ensures
        j == insert_slot(s, i),
{
    let c = insert_slot(s, i);
    assert(is_insert_slot(s, i, c));
    if c < j {
        assert(s[c] <= s[i]);
    } else if j < c {
        assert(s[j] <= s[i]);
    }
}

/// The snapshots of the first `count` shifts in front of position `i`.
pub open spec fn shift_trace(s: Seq<u32>, i: usize, count: nat) -> Seq<Snapshot> {
    Seq::new(count, |t: int| shift_snapshot(s, i, t))
}

/// The snapshots of the pass that inserts the element at `i` of `s`: one
/// for each element shifted.
pub open spec fn pass_trace(s: Seq<u32>, i: usize) -> Seq<Snapshot> {
    shift_trace(s, i, (i - insert_slot(s, i as int)) as nat)
}

/// The snapshots of the passes that insert the elements at `1..upto`, in
/// order. Each pass starts from the input with the positions in front of
/// its element sorted.
pub open spec fn insertion_trace(s: Seq<u32>, upto: nat) -> Seq<Snapshot>
    decreases upto,
{
    if upto <= 1 {
        Seq::empty()
    } else {
        insertion_trace(s, (upto - 1) as nat) + pass_trace(
            sorted_range(s, 0, upto - 1),
            (upto - 1) as usize,
        )
    }
}

/// What a snapshot emitted by insertion sort on `n` elements looks like:
/// `n` values, and a pair of two positions, the first before the second.
pub open spec fn insertion_snapshot(n: nat, shot: Snapshot) -> bool {
    &&& shot.values.len() == n
    &&& match shot.active_pair {
        Some((a, b)) => a < b < n,
        None => false,
    }
}

/// One pass: takes the element at `i` out, shifts the elements of the
/// sorted prefix that are greater than it one position to the right, and
/// puts it into the slot that opens. Returns that slot.
///
/// Each shift is one write and emits one step whose pair is the position
/// shifted from and `i`; the final placement is one more write and emits
/// nothing. Elements equal to the one inserted stay in front of it.
pub fn insertion_pass<D: FrameDriver>(
    model: &mut ArrayModel,
    emitter: &mut StepEmitter<D>,
    i: usize,
) -> (slot: usize)
    requires
        old(model).wf(),
        i < old(model)@.len(),
        sorted_between(old(model)@, 0, i as int),
    ensures
        final(model).wf(),
        is_insert_slot(old(model)@, i as int, slot as int),
        final(model)@ == old(model)@.remove(i as int).insert(slot as int, old(model)@[i as int]),
        final(model)@.to_multiset() == old(model)@.to_multiset(),
        permuted_between(old(model)@, final(model)@, 0, i + 1),
        sorted_between(final(model)@, 0, i + 1),
        final(emitter).steps() == old(emitter).steps() + (i - slot),
        final(model).writes() == old(model).writes() + (i - slot) + 1,
        final(emitter).offered() == old(emitter).offered() + pass_trace(old(model)@, i),
{
    let ghost before = model@;
    let x = model.get(i);
    let mut j: usize = i;
    assert(emitter.offered() =~= emitter.offered() + shift_trace(before, i, 0));
    while j >= 1 && model.get(j - 1) > x
        invariant
            model.wf(),
            j <= i < before.len() == model@.len(),
            before == old(model)@,
            x == before[i as int],
            sorted_between(before, 0, i as int),
            forall|k: int| 0 <= k <= j ==> model@[k] == before[k],
            forall|k: int| j < k <= i ==> model@[k] == before[k - 1],
            forall|k: int| i < k < before.len() ==> model@[k] == before[k],
            forall|k: int| j <= k < i ==> before[k] > x,
            emitter.steps() == old(emitter).steps() + (i - j),
            model.writes() == old(model).writes() + (i - j),
            emitter.offered() == old(emitter).offered() + shift_trace(before, i, (i - j) as nat),
        decreases j,
    {
        let moved = model.get(j - 1);
        model.set(j, moved);
        model.mark_active(j - 1, i);
        assert(model@ =~= shifted(before, i as int, i - j + 1));
        emitter.step(model);
        assert(emitter.offered() =~= old(emitter).offered() + shift_trace(
            before,
            i,
            (i - j + 1) as nat,
        ));
        j -= 1;
    }
    model.set(j, x);
    proof {
        broadcast use group_multiset_axioms;

        if j >= 1 {
            assert(before[j - 1] <= x);
        }

        let opened = before.remove(i as int);
        assert(model@ =~= opened.insert(j as int, x));
        to_multiset_remove(before, i as int);
        to_multiset_insert(opened, j as int, x);
        before.to_multiset_ensures();
        assert(before.contains(x));
        assert(before.to_multiset().count(x) > 0);
        assert(model@.to_multiset() =~= before.to_multiset());

        let part = before.subrange(0, i + 1);
        let part_opened = part.remove(i as int);
        assert(model@.subrange(0, i + 1) =~= part_opened.insert(j as int, x));
        to_multiset_remove(part, i as int);
        to_multiset_insert(part_opened, j as int, x);
        part.to_multiset_ensures();
        assert(part[i as int] == x);
        assert(part.contains(x));
        assert(part.to_multiset().count(x) > 0);
        assert(model@.subrange(0, i + 1).to_multiset() =~= part.to_multiset());

        lemma_insert_slot_unique(before, i as int, j as int);
    }
    j
}

/// Sorts the whole array by insertion sort.
///
/// The result is the sorted arrangement of the input. Pass `i` shifts at
/// most `i` elements, so at most `n * (n - 1) / 2` steps are emitted in
/// all; every pass writes once more than it shifts. No step is emitted
/// exactly when the input is sorted already.
pub fn insertion_sort<D: FrameDriver>(model: &mut ArrayModel, emitter: &mut StepEmitter<D>)
    requires
        old(model).wf(),
    ensures
        final(model).wf(),
        is_sorted(final(model)@),
        final(model)@.len() == old(model)@.len(),
        final(model)@.to_multiset() == old(model)@.to_multiset(),
        is_sorted(old(model)@) ==> final(model)@ == old(model)@,
        is_sorted(old(model)@) <==> final(emitter).steps() == old(emitter).steps(),
        old(emitter).steps() <= final(emitter).steps() <= old(emitter).steps() + pairs(
            old(model)@.len(),
        ),
        old(model)@.len() == 0 ==> final(model).writes() == old(model).writes(),
        old(model)@.len() > 0 ==> final(model).writes() - old(model).writes()
            == final(emitter).steps() - old(emitter).steps() + old(model)@.len() - 1,
        final(emitter).offered() == old(emitter).offered() + insertion_trace(
            old(model)@,
            old(model)@.len(),
        ),
        forall|k: int|
            old(emitter).steps() <= k < final(emitter).steps() ==> insertion_snapshot(
                old(model)@.len(),
                #[trigger] final(emitter).offered()[k],
            ),
{
    let n = model.len();
    proof {
        assert(pairs(0) == 0);
        assert(pairs(1) == pairs(0) + 0);
        assert(emitter.offered() =~= emitter.offered() + Seq::<Snapshot>::empty());
    }
    if n == 0 {
        return ;
    }
    let mut i: usize = 1;
    while i < n
        invariant
            model.wf(),
            1 <= i <= n == model@.len() == old(model)@.len(),
            is_sorted_range_of(old(model)@, model@, 0, i as int),
            model@.to_multiset() == old(model)@.to_multiset(),
            old(emitter).steps() <= emitter.steps() <= old(emitter).steps() + pairs(i as nat),
            model.writes() - old(model).writes() == (emitter.steps() - old(emitter).steps()) + (i
                - 1),
            emitter.steps() == old(emitter).steps() ==> model@ == old(model)@,
            is_sorted(old(model)@) ==> emitter.steps() == old(emitter).steps(),
            emitter.offered() == old(emitter).offered() + insertion_trace(old(model)@, i as nat),
            forall|k: int|
                old(emitter).steps() <= k < emitter.steps() ==> insertion_snapshot(
                    n as nat,
                    #[trigger] emitter.offered()[k],
                ),
        decreases n - i,
    {
        let ghost pass_start = model@;
        let ghost shots_before = emitter.offered();
        assert(pairs((i + 1) as nat) == pairs(i as nat) + i);
        let slot = insertion_pass(model, emitter, i);
        proof {
            if slot == i {
                assert(model@ =~= pass_start);
            } else if is_sorted(pass_start) {
                assert(pass_start[slot as int] <= pass_start[i as int]);
            }
            let shots = emitter.offered();
            lemma_insert_slot_unique(pass_start, i as int, slot as int);
            assert forall|k: int| shots_before.len() <= k < shots.len() implies insertion_snapshot(
                n as nat,
                #[trigger] shots[k],
            ) by {
                assert(shots[k] == pass_trace(pass_start, i)[k - shots_before.len()]);
            }
            lemma_permuted_widen(old(model)@, pass_start, 0, i as int, 0, i + 1);
            lemma_permuted_trans(old(model)@, pass_start, model@, 0, i + 1);
            lemma_sorted_range_unique(old(model)@, pass_start, 0, i as int);
            assert(shots =~= old(emitter).offered() + insertion_trace(old(model)@, (i + 1) as nat));
        }
        i += 1;
    }
}

} // verus!
