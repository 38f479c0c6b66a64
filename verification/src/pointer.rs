//! Where one record lies in the log.

use core::ops::Range;
use vstd::prelude::*;

verus! {

/// The byte range of one record in the log: where it starts and how long it is.
#[derive(Clone, Copy, Debug, PartialEq, Eq, Structural)]
pub struct Pointer {
    pub pos: u64,
    pub len: u64,
}

impl Pointer {
    /// The offset just past the record.
    pub open spec fn end(self) -> int {
        self.pos + self.len
    }

    /// The pointer to the bytes from `range.start` up to `range.end`.
    pub fn from(range: Range<u64>) -> (p: Pointer)
        requires
            range.start <= range.end,
        ensures
            p.pos == range.start,
            p.len == range.end - range.start,
    {
        Pointer { pos: range.start, len: range.end - range.start }
    }
}

} // verus!
