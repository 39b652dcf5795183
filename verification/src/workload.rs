//! The canonical workload: the numbers `1..=n` in random order.

use vstd::prelude::*;

verus! {

/// The values `1, 2, ..., n` in ascending order.
pub open spec fn ascending_seq(n: nat) -> Seq<u32> {
    Seq::new(n, |k: int| (k + 1) as u32)
}

/// Builds the values `1, 2, ..., n` in ascending order.
pub fn ascending(n: u32) -> (values: Vec<u32>)
    ensures
        values@ == ascending_seq(n as nat),
{
    let mut values: Vec<u32> = Vec::new();
    let mut next: u32 = 0;
    while next < n
        invariant
            next <= n,
            values@ == ascending_seq(next as nat),
        decreases n - next,
    {
        next += 1;
        values.push(next);
        assert(values@ =~= ascending_seq(next as nat));
    }
    values
}

/// Calls `rand::seq::SliceRandom::shuffle` on the vector's slice with the
/// generator that `rand::thread_rng` returns.
///
/// Trusted: the shuffle only ever swaps elements of the slice, so the
/// values it holds afterwards are those it held before, each as often as
/// before. Nothing is claimed about their order, which is random.
#[verifier::external_body]
fn shuffle_in_place(values: &mut Vec<u32>)
    ensures
        final(values)@.len() == old(values)@.len(),
        final(values)@.to_multiset() == old(values)@.to_multiset(),
{
    rand::seq::SliceRandom::shuffle(values.as_mut_slice(), &mut rand::thread_rng());
}

/// A random arrangement of the values `1, 2, ..., n`.
///
/// Which arrangement comes back is left to chance; that it is an
/// arrangement of exactly these values is certain.
pub fn shuffled_permutation(n: u32) -> (values: Vec<u32>)
    ensures
        values@.len() == n,
        values@.to_multiset() == ascending_seq(n as nat).to_multiset(),
{
    let mut values = ascending(n);
    shuffle_in_place(&mut values);
    values
}

} // verus!
