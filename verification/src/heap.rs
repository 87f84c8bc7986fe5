//! Asking for memory.
use vstd::prelude::*;

verus! {

/// Asks for memory on behalf of an operation, and remembers whether it was refused any. Whether it
/// is rests on the machine. Nothing but a refusal makes `refused` true.
pub struct Heap {
    refused: bool,
}

impl Heap {
    /// A request for memory was refused.
    pub closed spec fn refused(&self) -> bool {
        self.refused
    }

    /// No request has been made yet.
    pub fn new() -> (heap: Heap)
        ensures
            !heap.refused(),
    {
        Heap { refused: false }
    }

    /// Asks for room for `more` values behind those that are there. The values stay as they are.
    pub fn reserve<T>(&mut self, values: &mut Vec<T>, more: usize) -> (room: bool)
        ensures
            final(values)@ == old(values)@,
            final(self).refused() == (old(self).refused() || !room),
    {
        let room = values.try_reserve(more).is_ok();
        if !room {
            self.refused = true;
        }
        room
    }

    /// Whether a request was refused.
    pub fn was_refused(&self) -> (r: bool)
        ensures
            r == self.refused(),
    {
        self.refused
    }
}

} // verus!
