//! The choice among the four algorithms, and what all of them promise.

use crate::emitter::{FrameDriver, Snapshot, StepEmitter};
use crate::insertion::{insertion_sort, insertion_trace};
use crate::merge::{halvings, lemma_merge_writes_bound, merge_sort, merge_trace};
use crate::model::{pair_in_range, ArrayModel};
use crate::order::{
    is_sorted, lemma_permuted_whole, lemma_sorted_arrangement_unique, pairs,
};
use crate::selection::{selection_sort, selection_trace};
use crate::slow::{slow_sort, slow_steps, slow_trace};
use vstd::prelude::*;

verus! {

/// The sorting strategies on offer.
#[derive(Clone, Copy, Debug, PartialEq, Eq, Structural)]
pub enum Algorithm {
    Insertion,
    Selection,
    Merge,
    Slow,
}

/// The most writes (`set` and `swap` calls) an algorithm makes on `n`
/// elements: quadratic for insertion and selection sort, `n * ceil(log2(n))`
/// for merge sort, and the step count of slow sort for slow sort.
pub open spec fn write_bound(algorithm: Algorithm, n: nat) -> nat {
    match algorithm {
        Algorithm::Insertion => pairs(n) + n,
        Algorithm::Selection => n,
        Algorithm::Merge => n * halvings(n),
        Algorithm::Slow => slow_steps(n),
    }
}

/// The most steps an algorithm emits on `n` elements.
pub open spec fn step_bound(algorithm: Algorithm, n: nat) -> nat {
    match algorithm {
        Algorithm::Insertion => pairs(n),
        Algorithm::Selection => pairs(n) + n,
        Algorithm::Merge => n,
        Algorithm::Slow => slow_steps(n),
    }
}

/// The fewest steps an algorithm emits on the input `before`: at least one
/// on two or more elements, except for insertion sort on a sorted input,
/// which has nothing to shift.
pub open spec fn step_floor(algorithm: Algorithm, before: Seq<u32>) -> nat {
    if before.len() < 2 || (algorithm == Algorithm::Insertion && is_sorted(before)) {
        0
    } else {
        1
    }
}

/// The snapshots an algorithm emits on the input `before`, in order.
pub open spec fn sort_trace(algorithm: Algorithm, before: Seq<u32>) -> Seq<Snapshot> {
    match algorithm {
        Algorithm::Insertion => insertion_trace(before, before.len()),
        Algorithm::Selection => selection_trace(before, before.len()),
        Algorithm::Merge => merge_trace(before, 0, before.len() as int),
        Algorithm::Slow => slow_trace(before, 0, before.len() - 1),
    }
}

/// What every snapshot emitted while sorting `n` elements looks like: `n`
/// values, and a pair, when there is one, of two positions of the array.
pub open spec fn sort_snapshot(n: nat, shot: Snapshot) -> bool {
    &&& shot.values.len() == n
    &&& pair_in_range(shot.active_pair, n)
}

impl Algorithm {
    /// The algorithm selected by a number: 1 insertion, 2 selection,
    /// 3 merge, 4 slow sort; no other number selects one.
    pub open spec fn spec_from_code(code: u8) -> Option<Algorithm> {
        if code == 1 {
            Some(Algorithm::Insertion)
        } else if code == 2 {
            Some(Algorithm::Selection)
        } else if code == 3 {
            Some(Algorithm::Merge)
        } else if code == 4 {
            Some(Algorithm::Slow)
        } else {
            None
        }
    }

    /// Looks up the algorithm selected by `code`.
    pub fn from_code(code: u8) -> (chosen: Option<Algorithm>)
        ensures
            chosen == Self::spec_from_code(code),
    {
        match code {
            1 => Some(Algorithm::Insertion),
            2 => Some(Algorithm::Selection),
            3 => Some(Algorithm::Merge),
            4 => Some(Algorithm::Slow),
            _ => None,
        }
    }
}

/// Two or more elements leave pairs to compare.
pub proof fn lemma_pairs_positive(n: nat)
    requires
        n >= 2,
    ensures
        pairs(n) >= 1,
    decreases n,
{
    if n > 2 {
        lemma_pairs_positive((n - 1) as nat);
    } else {
        assert(pairs(0) == 0);
        assert(pairs(1) == pairs(0) + 0);
        assert(pairs(2) == pairs(1) + 1);
    }
}

/// Runs the chosen algorithm on the whole array.
///
/// Whatever the algorithm and the input, the array ends up non-decreasing
/// and holds the values it held before; a sorted input comes back as it
/// was. The snapshots emitted are those of the algorithm's trace, and the
/// numbers of steps emitted and of writes made lie within its bounds.
pub fn sort<D: FrameDriver>(
    algorithm: Algorithm,
    model: &mut ArrayModel,
    emitter: &mut StepEmitter<D>,
)
    requires
        old(model).wf(),
    ensures
        final(model).wf(),
        is_sorted(final(model)@),
        final(model)@.len() == old(model)@.len(),
        final(model)@.to_multiset() == old(model)@.to_multiset(),
        is_sorted(old(model)@) ==> final(model)@ == old(model)@,
        old(model).writes() <= final(model).writes() <= old(model).writes() + write_bound(
            algorithm,
            old(model)@.len(),
        ),
        old(emitter).steps() + step_floor(algorithm, old(model)@) <= final(emitter).steps()
            <= old(emitter).steps() + step_bound(algorithm, old(model)@.len()),
        final(emitter).offered() == old(emitter).offered() + sort_trace(algorithm, old(model)@),
        forall|k: int|
            old(emitter).steps() <= k < final(emitter).steps() ==> sort_snapshot(
                old(model)@.len(),
                #[trigger] final(emitter).offered()[k],
            ),
{
    let ghost n = old(model)@.len();
    match algorithm {
        Algorithm::Insertion => {
            insertion_sort(model, emitter);
        },
        Algorithm::Selection => {
            selection_sort(model, emitter);
            proof {
                if n >= 2 {
                    lemma_pairs_positive(n);
                }
            }
        },
        Algorithm::Merge => {
            merge_sort(model, emitter);
            proof {
                lemma_merge_writes_bound(n);
            }
        },
        Algorithm::Slow => {
            let len = model.len();
            if len >= 2 {
                slow_sort(model, emitter, 0, len - 1);
                proof {
                    lemma_permuted_whole(old(model)@, model@);
                }
            } else {
                assert(slow_steps(n) == 0);
                assert(emitter.offered() =~= emitter.offered() + slow_trace(model@, 0, n - 1));
            }
            proof {
                if is_sorted(old(model)@) {
                    lemma_sorted_arrangement_unique(old(model)@, model@);
                }
            }
        },
    }
}

} // verus!
