use vstd::prelude::*;
use crate::error::EngineError;

verus! {

/// What is left of `s` once the entry at `i` is overwritten by the last entry
/// and the sequence is shortened by one.
pub open spec fn swap_removed<T>(s: Seq<T>, i: int) -> Seq<T>
    recommends
        0 <= i < s.len(),
{
    s.update(i, s.last()).drop_last()
}

/// An ordered collection of participants. Entries may repeat: each slot
/// counts on its own.
pub struct Registry<P> {
    pub entries: Vec<P>,
}

impl<P> View for Registry<P> {
    type V = Seq<P>;

    open spec fn view(&self) -> Seq<P> {
        self.entries@
    }
}

impl<P: Copy> Registry<P> {
    /// The empty registry.
    pub fn new() -> (r: Self)
        ensures
            r@ == Seq::<P>::empty(),
    {
        Registry { entries: Vec::new() }
    }

    /// Adds one entry at the end.
    pub fn append(&mut self, participant: P)
        ensures
            final(self)@ == old(self)@.push(participant),
    {
        self.entries.push(participant);
    }

    /// The number of entries.
    pub fn count(&self) -> (n: usize)
        ensures
            n == self@.len(),
    {
        self.entries.len()
    }

    /// The entry at `index`.
    pub fn get(&self, index: usize) -> (r: Result<P, EngineError>)
        ensures
            index < self@.len() ==> r == Ok::<P, EngineError>(self@[index as int]),
            index >= self@.len() ==> r == Err::<P, EngineError>(EngineError::OutOfRange),
    {
        if index < self.entries.len() {
            Ok(self.entries[index])
        } else {
            Err(EngineError::OutOfRange)
        }
    }

    /// Removes the entry at `index` in constant time: the last entry takes its
    /// place. The order of the remaining entries is not kept.
    pub fn swap_remove(&mut self, index: usize) -> (r: Result<P, EngineError>)
        ensures
            index < old(self)@.len() ==> r == Ok::<P, EngineError>(old(self)@[index as int])
                && final(self)@ == swap_removed(old(self)@, index as int),
            index >= old(self)@.len() ==> r == Err::<P, EngineError>(EngineError::OutOfRange)
                && final(self)@ == old(self)@,
    {
        if index < self.entries.len() {
            Ok(self.entries.swap_remove(index))
        } else {
            Err(EngineError::OutOfRange)
        }
    }
}

} // verus!
