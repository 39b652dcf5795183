//! The synchronisation point between a running sort and whatever draws it.

use crate::model::ArrayModel;
use vstd::prelude::*;

verus! {

/// The boundary to the component that paces and draws frames.
///
/// Nothing is promised about what a driver does: it may draw the snapshot,
/// or drop the frame because none is due yet.
pub trait FrameDriver {
    /// Offers one render opportunity for the given snapshot and reports
    /// whether a frame was actually drawn.
    fn request_frame(&mut self, values: &[u32], active_pair: Option<(usize, usize)>) -> bool;
}

/// What a frame driver is offered at one step: the values as they stand
/// and the pair of positions highlighted.
pub struct Snapshot {
    pub values: Seq<u32>,
    pub active_pair: Option<(usize, usize)>,
}

/// How many entries of a history were drawn.
spec fn drawn_count(history: Seq<(Snapshot, bool)>) -> nat
    decreases history.len(),
{
    if history.len() == 0 {
        0
    } else {
        drawn_count(history.drop_last()) + if history.last().1 {
            1nat
        } else {
            0nat
        }
    }
}

/// Owns the frame driver and hands it one snapshot per step.
///
/// At run time it keeps no history. The snapshots offered so far, and
/// which of them were drawn, exist as ghost state only, so that contracts
/// can speak of them.
pub struct StepEmitter<D: FrameDriver> {
    driver: D,
    history: Ghost<Seq<(Snapshot, bool)>>,
}

impl<D: FrameDriver> StepEmitter<D> {
    /// The snapshots offered to the driver so far, oldest first.
    pub closed spec fn offered(&self) -> Seq<Snapshot> {
        self.history@.map_values(|entry: (Snapshot, bool)| entry.0)
    }

    /// How many steps have been emitted.
    pub open spec fn steps(&self) -> nat {
        self.offered().len()
    }

    /// How many of the emitted steps the driver reported as drawn.
    pub closed spec fn frames(&self) -> nat {
        drawn_count(self.history@)
    }

    /// The driver this emitter owns.
    pub closed spec fn driver(&self) -> D {
        self.driver
    }

    /// An emitter that has not emitted a step yet.
    pub fn new(driver: D) -> (emitter: Self)
        ensures
            emitter.offered() == Seq::<Snapshot>::empty(),
            emitter.steps() == 0,
            emitter.frames() == 0,
            emitter.driver() == driver,
    {
        let emitter = StepEmitter { driver, history: Ghost(Seq::empty()) };
        assert(emitter.offered() =~= Seq::<Snapshot>::empty());
        emitter
    }

    /// Emits one step: the driver is offered the model's current snapshot
    /// exactly once. The values are never touched; the highlight is cleared
    /// once a frame showing it has been drawn, and kept otherwise.
    pub fn step(&mut self, model: &mut ArrayModel) -> (rendered: bool)
        requires
            old(model).wf(),
        ensures
            final(model)@ == old(model)@,
            final(model).writes() == old(model).writes(),
            final(model).active() == if rendered {
                None::<(usize, usize)>
            } else {
                old(model).active()
            },
            final(model).wf(),
            final(self).offered() == old(self).offered().push(
                (Snapshot { values: old(model)@, active_pair: old(model).active() }),
            ),
            final(self).steps() == old(self).steps() + 1,
            final(self).frames() == old(self).frames() + if rendered {
                1nat
            } else {
                0nat
            },
    {
        let pair = model.active_pair();
        let ghost snapshot = Snapshot { values: model@, active_pair: model.active() };
        let rendered = self.driver.request_frame(model.values(), pair);
        if rendered {
            model.clear_active();
        }
        proof {
            let before = self.history@;
            self.history@ = before.push((snapshot, rendered));
            assert(self.history@.drop_last() =~= before);
            assert(self.offered() =~= old(self).offered().push(snapshot));
        }
        rendered
    }

    /// Gives the driver back, ending the emitter's life.
    pub fn into_driver(self) -> (driver: D)
        ensures
            driver == self.driver(),
    {
        self.driver
    }
}

/// No more entries of a history are drawn than it has.
proof fn lemma_drawn_count_bounded(history: Seq<(Snapshot, bool)>)
    ensures
        drawn_count(history) <= history.len(),
    decreases history.len(),
{
    if history.len() > 0 {
        lemma_drawn_count_bounded(history.drop_last());
    }
}

/// No more frames are drawn than steps are emitted: a driver can drop a
/// frame, never add one.
pub proof fn lemma_frames_bounded_by_steps<D: FrameDriver>(emitter: StepEmitter<D>)
    ensures
        emitter.frames() <= emitter.steps(),
{
    lemma_drawn_count_bounded(emitter.history@);
}

} // verus!
