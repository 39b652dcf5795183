//! Slow sort: a deliberately wasteful multiply-and-surrender sort.

use crate::emitter::{FrameDriver, Snapshot, StepEmitter};
use crate::model::ArrayModel;
use crate::order::{
    is_sorted_range_of, lemma_permuted_trans, lemma_permuted_upper_bound, lemma_permuted_widen,
    lemma_sorted_range_unique, lemma_swap_permutes, permuted_between, sorted_between,
    sorted_range, swapped,
};
use vstd::prelude::*;

verus! {

/// The number of steps slow sort emits on `n` elements, whatever they are:
/// one for each call on two or more elements.
pub open spec fn slow_steps(n: nat) -> nat
    decreases n,
{
    if n < 2 {
        0
    } else {
        slow_steps(((n + 1) / 2) as nat) + slow_steps(n / 2) + 1 + slow_steps((n - 1) as nat)
    }
}

/// A closed bound on [`slow_steps`]: the product of `2 * n`, `2 * ceil(n / 2)`,
/// `2 * ceil(n / 4)` and so on down to two elements. It has
/// `ceil(log2(n))` factors and grows like `n` to the power
/// `(log2(n) + 3) / 2`.
pub open spec fn slow_bound(n: nat) -> nat
    decreases n,
{
    if n < 2 {
        1
    } else {
        2 * n * slow_bound((n - n / 2) as nat)
    }
}

/// More elements never lower the bound.
pub proof fn lemma_slow_bound_monotone(a: nat, b: nat)
    requires
        a <= b,
    ensures
        1 <= slow_bound(a) <= slow_bound(b),
    decreases b,
{
    if b >= 2 {
        let half_a = (a - a / 2) as nat;
        let half_b = (b - b / 2) as nat;
        lemma_slow_bound_monotone(half_a, half_b);
        let x = slow_bound(half_a);
        let y = slow_bound(half_b);
        assert(2 * b * y >= y) by (nonlinear_arith)
            requires
                b >= 1,
                y >= 1,
        ;
        if a >= 2 {
            assert(2 * a * x <= 2 * b * y) by (nonlinear_arith)
                requires
                    a <= b,
                    x <= y,
            ;
            assert(2 * a * x >= 1) by (nonlinear_arith)
                requires
                    a >= 1,
                    x >= 1,
            ;
        }
    }
}

/// Slow sort emits fewer than [`slow_bound`] steps.
pub proof fn lemma_slow_steps_bound(n: nat)
    ensures
        slow_steps(n) < slow_bound(n),
    decreases n,
{
    if n >= 2 {
        let upper = ((n + 1) / 2) as nat;
        let lower = n / 2;
        let rest = (n - 1) as nat;
        let b = slow_bound(upper);
        lemma_slow_steps_bound(upper);
        lemma_slow_steps_bound(lower);
        lemma_slow_steps_bound(rest);
        lemma_slow_bound_monotone(lower, upper);
        lemma_slow_bound_monotone((rest - rest / 2) as nat, upper);
        assert(upper == n - n / 2);
        assert(slow_bound(rest) <= 2 * rest * b) by {
            if rest >= 2 {
                let r = slow_bound((rest - rest / 2) as nat);
                assert(2 * rest * r <= 2 * rest * b) by (nonlinear_arith)
                    requires
                        r <= b,
                ;
            } else {
                assert(2 * rest * b >= 1) by (nonlinear_arith)
                    requires
                        rest >= 1,
                        b >= 1,
                ;
            }
        }
        assert(b + b + 2 * rest * b == 2 * n * b) by (nonlinear_arith)
            requires
                rest == n - 1,
        ;
    }
}

/// The number of positions from `l` to `r`, both included, as far as slow
/// sort has work to do on them: none unless `l < r`.
pub open spec fn span(l: usize, r: usize) -> nat {
    if l < r {
        (r - l + 1) as nat
    } else {
        0
    }
}

/// What a snapshot emitted by slow sort on `l..=r` looks like: the values
/// are those from before with `l..=r` rearranged, and the highlighted pair
/// names two positions of the range, the first before the second, whose
/// elements have just been put in order.
pub open spec fn slow_snapshot(before: Seq<u32>, l: int, r: int, shot: Snapshot) -> bool {
    &&& permuted_between(before, shot.values, l, r + 1)
    &&& match shot.active_pair {
        Some((a, b)) => l <= a < b <= r && shot.values[a as int] <= shot.values[b as int],
        None => false,
    }
}

/// A snapshot of a slow sort on part of `l..=r`, started from a
/// rearrangement of `l..=r`, is one of a slow sort on `l..=r`.
pub proof fn lemma_slow_snapshot_lift(
    before: Seq<u32>,
    between: Seq<u32>,
    l: int,
    r: int,
    sub_l: int,
    sub_r: int,
    shot: Snapshot,
)
    requires
        permuted_between(before, between, l, r + 1),
        l <= sub_l,
        sub_r <= r,
        slow_snapshot(between, sub_l, sub_r, shot),
    ensures
        slow_snapshot(before, l, r, shot),
{
    lemma_permuted_widen(between, shot.values, sub_l, sub_r + 1, l, r + 1);
    lemma_permuted_trans(before, between, shot.values, l, r + 1);
}

/// The state after the greater of the two halves' greatest elements has
/// been put at `r`.
pub open spec fn greatest_last(s: Seq<u32>, m: int, r: int) -> Seq<u32> {
    if s[m] > s[r] {
        swapped(s, m, r)
    } else {
        s
    }
}

/// The snapshots slow sort emits on `l..=r` of `s`, in order: those of
/// the first half, those of the second half, the one that shows the
/// greatest element in place at `r` with the pair `(m, r)`, and those of
/// the range without its last position.
pub open spec fn slow_trace(s: Seq<u32>, l: int, r: int) -> Seq<Snapshot>
    decreases r - l,
{
    if l >= r {
        Seq::empty()
    } else {
        let m = l + (r - l) / 2;
        let left_done = sorted_range(s, l, m + 1);
        let both_done = sorted_range(left_done, m + 1, r + 1);
        let placed = greatest_last(both_done, m, r);
        slow_trace(s, l, m) + slow_trace(left_done, m + 1, r) + seq![
            Snapshot { values: placed, active_pair: Some((m as usize, r as usize)) },
        ] + slow_trace(placed, l, r - 1)
    }
}

/// Why one round of slow sort works: once both halves are sorted, the
/// greatest element of `l..=r` can be put at `r` by comparing the halves'
/// last elements, and sorting what is before `r` finishes the range.
pub proof fn lemma_slow_round(
    before: Seq<u32>,
    left_done: Seq<u32>,
    both_done: Seq<u32>,
    after: Seq<u32>,
    l: int,
    m: int,
    r: int,
)
    requires
        0 <= l <= m < r < before.len(),
        permuted_between(before, left_done, l, m + 1),
        sorted_between(left_done, l, m + 1),
        permuted_between(left_done, both_done, m + 1, r + 1),
        sorted_between(both_done, m + 1, r + 1),
        permuted_between(greatest_last(both_done, m, r), after, l, r),
        sorted_between(after, l, r),
    ensures
        permuted_between(before, both_done, l, r + 1),
        permuted_between(before, greatest_last(both_done, m, r), l, r + 1),
        greatest_last(both_done, m, r)[m] <= greatest_last(both_done, m, r)[r],
        permuted_between(before, after, l, r + 1),
        sorted_between(after, l, r + 1),
{
    let placed = greatest_last(both_done, m, r);
    lemma_permuted_widen(before, left_done, l, m + 1, l, r + 1);
    lemma_permuted_widen(left_done, both_done, m + 1, r + 1, l, r + 1);
    lemma_permuted_trans(before, left_done, both_done, l, r + 1);
    if both_done[m] > both_done[r] {
        lemma_swap_permutes(both_done, m, r, l, r + 1);
    }
    lemma_permuted_trans(before, both_done, placed, l, r + 1);
    assert(sorted_between(both_done, l, m + 1));
    assert forall|k: int| l <= k < r implies placed[k] <= placed[r] by {
        if k <= m {
            assert(both_done[k] <= both_done[m]);
        } else {
            assert(both_done[k] <= both_done[r]);
        }
    }
    lemma_permuted_upper_bound(placed, after, l, r, placed[r]);
    lemma_permuted_widen(placed, after, l, r, l, r + 1);
    lemma_permuted_trans(before, placed, after, l, r + 1);
    assert(after[r] == placed[r]);
}

/// The snapshots of one round are those of its three smaller sorts with
/// the round's own snapshot between the second and the third.
pub proof fn lemma_slow_round_snapshots(
    before: Seq<u32>,
    left_done: Seq<u32>,
    both_done: Seq<u32>,
    l: int,
    m: int,
    r: int,
    shots0: Seq<Snapshot>,
    shots1: Seq<Snapshot>,
    shots2: Seq<Snapshot>,
    shots: Seq<Snapshot>,
)
    requires
        0 <= l < r < before.len(),
        r <= usize::MAX,
        m == l + (r - l) / 2,
        is_sorted_range_of(before, left_done, l, m + 1),
        is_sorted_range_of(left_done, both_done, m + 1, r + 1),
        permuted_between(before, greatest_last(both_done, m, r), l, r + 1),
        greatest_last(both_done, m, r)[m] <= greatest_last(both_done, m, r)[r],
        shots1 == shots0 + slow_trace(before, l, m),
        shots2 == shots1 + slow_trace(left_done, m + 1, r),
        shots == shots2.push(
            (Snapshot {
                values: greatest_last(both_done, m, r),
                active_pair: Some((m as usize, r as usize)),
            }),
        ) + slow_trace(greatest_last(both_done, m, r), l, r - 1),
        forall|k: int|
            shots0.len() <= k < shots1.len() ==> slow_snapshot(before, l, m, #[trigger] shots1[k]),
        forall|k: int|
            shots1.len() <= k < shots2.len() ==> slow_snapshot(
                left_done,
                m + 1,
                r,
                #[trigger] shots2[k],
            ),
        forall|k: int|
            shots2.len() + 1 <= k < shots.len() ==> slow_snapshot(
                greatest_last(both_done, m, r),
                l,
                r - 1,
                #[trigger] shots[k],
            ),
    ensures
        shots == shots0 + slow_trace(before, l, r),
        forall|k: int|
            shots0.len() <= k < shots.len() ==> slow_snapshot(before, l, r, #[trigger] shots[k]),
{
    let placed = greatest_last(both_done, m, r);
    lemma_sorted_range_unique(before, left_done, l, m + 1);
    lemma_sorted_range_unique(left_done, both_done, m + 1, r + 1);
    assert(shots =~= shots0 + slow_trace(before, l, r));
    lemma_permuted_widen(before, left_done, l, m + 1, l, r + 1);
    assert forall|k: int| shots0.len() <= k < shots.len() implies slow_snapshot(
        before,
        l,
        r,
        #[trigger] shots[k],
    ) by {
        if k < shots1.len() {
            assert(shots[k] == shots1[k]);
            lemma_slow_snapshot_lift(before, before, l, r, l, m, shots[k]);
        } else if k < shots2.len() {
            assert(shots[k] == shots2[k]);
            lemma_slow_snapshot_lift(before, left_done, l, r, m + 1, r, shots[k]);
        } else if k == shots2.len() {
            assert(shots[k].values == placed);
        } else {
            lemma_slow_snapshot_lift(before, placed, l, r, l, r - 1, shots[k]);
        }
    }
}

/// How the sizes of the three smaller ranges add up to the step count.
pub proof fn lemma_slow_steps_split(l: usize, m: usize, r: usize)
    requires
        l < r,
        m == l + (r - l) / 2,
    ensures
        slow_steps(span(l, r)) == slow_steps(span(l, m)) + slow_steps(span((m + 1) as usize, r))
            + 1 + slow_steps(span(l, (r - 1) as usize)),
{
    let n = span(l, r);
    assert(slow_steps(0) == 0 && slow_steps(1) == 0);
    assert(slow_steps(span(l, m)) == slow_steps(((n + 1) / 2) as nat));
    assert(slow_steps(span((m + 1) as usize, r)) == slow_steps(n / 2));
    assert(slow_steps(span(l, (r - 1) as usize)) == slow_steps((n - 1) as nat));
}

/// Sorts the positions from `l` to `r`, both included, and leaves the rest
/// alone; does nothing unless `l < r`.
///
/// The greatest element of each half is brought to the half's end, the
/// greater of the two is put at `r` by at most one swap, a step with the
/// pair `(m, r)` is emitted, and the positions before `r` are sorted in the
/// same way.
#[verifier::rlimit(30)]
pub fn slow_sort<D: FrameDriver>(
    model: &mut ArrayModel,
    emitter: &mut StepEmitter<D>,
    l: usize,
    r: usize,
)
    requires
        old(model).wf(),
        l < r ==> r < old(model)@.len(),
    ensures
        final(model).wf(),
        final(model)@.len() == old(model)@.len(),
        l < r ==> sorted_between(final(model)@, l as int, r + 1) && permuted_between(
            old(model)@,
            final(model)@,
            l as int,
            r + 1,
        ),
        l >= r ==> final(model)@ == old(model)@,
        final(emitter).steps() == old(emitter).steps() + slow_steps(span(l, r)),
        old(model).writes() <= final(model).writes() <= old(model).writes() + slow_steps(
            span(l, r),
        ),
        final(emitter).offered() == old(emitter).offered() + slow_trace(
            old(model)@,
            l as int,
            r as int,
        ),
        forall|k: int|
            old(emitter).steps() <= k < final(emitter).steps() ==> slow_snapshot(
                old(model)@,
                l as int,
                r as int,
                #[trigger] final(emitter).offered()[k],
            ),
    decreases
            (if l < r {
                r - l
            } else {
                0
            }),
{
    if l >= r {
        assert(emitter.offered() =~= emitter.offered() + slow_trace(model@, l as int, r as int));
        return ;
    }
    let m = l + (r - l) / 2;
    let ghost before = model@;
    let ghost shots0 = emitter.offered();

    slow_sort(model, emitter, l, m);
    let ghost left_done = model@;
    let ghost shots1 = emitter.offered();
    assert(is_sorted_range_of(before, left_done, l as int, m + 1));

    slow_sort(model, emitter, m + 1, r);
    let ghost both_done = model@;
    let ghost shots2 = emitter.offered();
    assert(is_sorted_range_of(left_done, both_done, m + 1, r + 1));

    if model.get(m) > model.get(r) {
        model.swap(m, r);
    }
    model.mark_active(m, r);
    emitter.step(model);
    let ghost placed = model@;

    slow_sort(model, emitter, l, r - 1);
    proof {
        assert(placed == greatest_last(both_done, m as int, r as int));
        assert(is_sorted_range_of(placed, model@, l as int, r as int));
        lemma_slow_round(before, left_done, both_done, model@, l as int, m as int, r as int);
        lemma_slow_steps_split(l, m, r);
        lemma_slow_round_snapshots(
            before,
            left_done,
            both_done,
            l as int,
            m as int,
            r as int,
            shots0,
            shots1,
            shots2,
            emitter.offered(),
        );
    }
}

} // verus!
