//! Text output and line input.
use vstd::prelude::*;

pub mod line_editor;
pub mod number;

pub use line_editor::{EditAction, Key, LineEditor};

verus! {

/// Takes text.
pub trait TextOutput {
    /// All bytes written so far.
    closed spec fn text(&self) -> Seq<u8> {
        arbitrary()
    }

    fn write_bytes(&mut self, bytes: &[u8])
        ensures
            final(self).text() == old(self).text() + bytes@,
    ;
}

/// Writes to two outputs.
pub struct Mirror<A, B> {
    pub primary: A,
    pub diagnostic: B,
}

impl<A: TextOutput, B: TextOutput> TextOutput for Mirror<A, B> {
    open spec fn text(&self) -> Seq<u8> {
        self.primary.text()
    }

    fn write_bytes(&mut self, bytes: &[u8])
        ensures
            final(self).diagnostic.text() == old(self).diagnostic.text() + bytes@,
    {
        self.primary.write_bytes(bytes);
        self.diagnostic.write_bytes(bytes);
    }
}

} // verus!
