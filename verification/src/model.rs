//! The array being sorted and the pair of positions currently highlighted.

use vstd::prelude::*;

verus! {

/// The sequence of values under sort together with the active pair.
///
/// The length is fixed at construction. Every write goes through [`set`] or
/// [`swap`], and the number of such writes is tracked as ghost state so that
/// contracts can bound it.
///
/// [`set`]: ArrayModel::set
/// [`swap`]: ArrayModel::swap
pub struct ArrayModel {
    values: Vec<u32>,
    active: Option<(usize, usize)>,
    writes: Ghost<nat>,
}

impl View for ArrayModel {
    type V = Seq<u32>;

    closed spec fn view(&self) -> Seq<u32> {
        self.values@
    }
}

/// Whether an optional pair of positions lies inside a sequence of length `len`.
pub open spec fn pair_in_range(pair: Option<(usize, usize)>, len: nat) -> bool {
    match pair {
        Some((i, j)) => i < len && j < len,
        None => true,
    }
}

/// Whether the bar at `index` is to be drawn highlighted for the given active pair.
pub open spec fn spec_highlighted(pair: Option<(usize, usize)>, index: usize) -> bool {
    match pair {
        Some((i, j)) => index == i || index == j,
        None => false,
    }
}

/// Decides whether the bar at `index` is highlighted, from the snapshot alone.
pub fn highlighted(pair: Option<(usize, usize)>, index: usize) -> (lit: bool)
    ensures
        lit == spec_highlighted(pair, index),
{
    match pair {
        Some((i, j)) => index == i || index == j,
        None => false,
    }
}

impl ArrayModel {
    /// The active pair, if any.
    pub closed spec fn active(&self) -> Option<(usize, usize)> {
        self.active
    }

    /// How many calls of `set` and `swap` this model has seen.
    pub closed spec fn writes(&self) -> nat {
        self.writes@
    }

    /// The active pair, when present, names two positions of the array.
    pub open spec fn wf(&self) -> bool {
        pair_in_range(self.active(), self@.len())
    }

    /// Takes ownership of `values`; nothing is highlighted and nothing was written yet.
    pub fn new(values: Vec<u32>) -> (model: ArrayModel)
        ensures
            model@ == values@,
            model.active() == None::<(usize, usize)>,
            model.writes() == 0,
            model.wf(),
    {
        ArrayModel { values, active: None, writes: Ghost(0) }
    }

    /// The number of elements.
    pub fn len(&self) -> (n: usize)
        ensures
            n == self@.len(),
    {
        self.values.len()
    }

    /// Reads the element at `i`.
    pub fn get(&self, i: usize) -> (value: u32)
        requires
            i < self@.len(),
        ensures
            value == self@[i as int],
    {
        self.values[i]
    }

    /// Overwrites the element at `i`; counts as one write.
    pub fn set(&mut self, i: usize, value: u32)
        requires
            i < old(self)@.len(),
        ensures
            final(self)@ == old(self)@.update(i as int, value),
            final(self).active() == old(self).active(),
            final(self).writes() == old(self).writes() + 1,
    {
        self.values[i] = value;
        proof {
            self.writes@ = self.writes@ + 1;
        }
    }

    /// Exchanges the elements at `i` and `j`; counts as one write.
    pub fn swap(&mut self, i: usize, j: usize)
        requires
            i < old(self)@.len(),
            j < old(self)@.len(),
        ensures
            final(self)@ == old(self)@.update(i as int, old(self)@[j as int]).update(
                j as int,
                old(self)@[i as int],
            ),
            final(self).active() == old(self).active(),
            final(self).writes() == old(self).writes() + 1,
    {
        let a = self.values[i];
        let b = self.values[j];
        self.values[i] = b;
        self.values[j] = a;
        proof {
            self.writes@ = self.writes@ + 1;
        }
    }

    /// Highlights the positions `i` and `j`.
    pub fn mark_active(&mut self, i: usize, j: usize)
        requires
            i < old(self)@.len(),
            j < old(self)@.len(),
        ensures
            final(self)@ == old(self)@,
            final(self).active() == Some((i, j)),
            final(self).writes() == old(self).writes(),
            final(self).wf(),
    {
        self.active = Some((i, j));
    }

    /// Removes the highlight.
    pub fn clear_active(&mut self)
        ensures
            final(self)@ == old(self)@,
            final(self).active() == None::<(usize, usize)>,
            final(self).writes() == old(self).writes(),
            final(self).wf(),
    {
        self.active = None;
    }

    /// The pair of positions currently highlighted.
    pub fn active_pair(&self) -> (pair: Option<(usize, usize)>)
        ensures
            pair == self.active(),
    {
        self.active
    }

    /// A read-only view of the values, for a renderer.
    pub fn values(&self) -> (values: &[u32])
        ensures
            values@ == self@,
    {
        self.values.as_slice()
    }

    /// Gives the values back, ending the model's life.
    pub fn into_values(self) -> (values: Vec<u32>)
        ensures
            values@ == self@,
    {
        self.values
    }
}

} // verus!
