//! Random draws, taken from the thread-local generator.

use rand::seq::SliceRandom;
use rand::Rng;
use vstd::prelude::*;

verus! {

/// `rand::Rng::gen_range` on the thread-local generator, for a half-open
/// range of indices. The contract claims that the value drawn lies in the
/// range; the range must not be empty, for the outside function panics on an
/// empty one.
#[verifier::external_body]
fn thread_range(low: usize, high: usize) -> (drawn: usize)
    requires
        low < high,
    ensures
        low <= drawn < high,
{
    rand::thread_rng().gen_range(low..high)
}

/// `rand::seq::SliceRandom::shuffle` on the thread-local generator. The
/// contract claims that the items are rearranged among themselves: none is
/// lost, added or changed.
#[verifier::external_body]
fn thread_shuffle<T>(values: &mut Vec<T>)
    ensures
        final(values)@.to_multiset() == old(values)@.to_multiset(),
{
    values.shuffle(&mut rand::thread_rng());
}

/// The thread-local source of randomness.
#[derive(Debug)]
pub struct Random();

impl Random {
    /// A number drawn from `low..high`.
    pub fn range(low: usize, high: usize) -> (drawn: usize)
        requires
            low < high,
        ensures
            low <= drawn < high,
    {
        thread_range(low, high)
    }

    /// One of the given values, picked at random.
    pub fn pick<T>(values: &Vec<T>) -> (picked: &T)
        requires
            values.len() > 0,
        ensures
            exists|i: int| 0 <= i < values.len() && values[i] == *picked,
    {
        let index = thread_range(0, values.len());
        &values[index]
    }

    /// Rearranges the values in a random order.
    pub fn shuffle<T>(values: &mut Vec<T>)
        ensures
            final(values)@.to_multiset() == old(values)@.to_multiset(),
    {
        thread_shuffle(values);
    }
}

} // verus!
