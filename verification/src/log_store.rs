//! The log store: the bytes of the log, which grow at the end, are read by
//! range, and are replaced as a whole by a compaction.
//!
//! The store holds the bytes in memory. It also keeps count of how many of
//! them, from the start, already stand in the file that backs it, so that
//! whoever owns the file knows what is left to write, and when the file has to
//! be replaced.

use crate::error::KvsError;
use crate::pointer::Pointer;
use core::ops::Range;
use vstd::prelude::*;
use vstd::slice::slice_subrange;

verus! {

/// The bytes of a log.
pub struct LogStore {
    bytes: Vec<u8>,
    flushed: usize,
}

impl View for LogStore {
    type V = Seq<u8>;

    closed spec fn view(&self) -> Seq<u8> {
        self.bytes@
    }
}

impl LogStore {
    /// How many bytes, from the start of the log, stand in the backing file.
    pub closed spec fn flushed(&self) -> int {
        self.flushed as int
    }

    /// What stands in the backing file is not longer than the log.
    pub open spec fn wf(&self) -> bool {
        0 <= self.flushed() <= self@.len() <= usize::MAX
    }

    /// A log without bytes.
    pub fn new() -> (log: LogStore)
        ensures
            log@ == Seq::<u8>::empty(),
            log.flushed() == 0,
            log.wf(),
    {
        LogStore { bytes: Vec::new(), flushed: 0 }
    }

    /// The log whose bytes were read from the backing file.
    pub fn from_bytes(bytes: Vec<u8>) -> (log: LogStore)
        ensures
            log@ == bytes@,
            log.flushed() == bytes@.len(),
            log.wf(),
    {
        let flushed = bytes.len();
        LogStore { bytes, flushed }
    }

    /// The length of the log: the offset at which the next bytes are written.
    pub fn len(&self) -> (n: u64)
        ensures
            n == self@.len(),
    {
        self.bytes.len() as u64
    }

    /// The bytes of the log.
    pub fn as_bytes(&self) -> (bytes: &[u8])
        ensures
            bytes@ == self@,
    {
        self.bytes.as_slice()
    }

    /// Writes `bytes` at the end of the log. Returns the range of offsets
    /// that they take.
    pub fn append(&mut self, bytes: &[u8]) -> (range: Range<u64>)
        requires
            old(self).wf(),
        ensures
            final(self).wf(),
            final(self)@ == old(self)@ + bytes@,
            final(self).flushed() == old(self).flushed(),
            range.start == old(self)@.len(),
            range.end == final(self)@.len(),
    {
        let start = self.bytes.len() as u64;
        self.bytes.extend_from_slice(bytes);
        let end = self.bytes.len() as u64;
        start..end
    }

    /// The bytes that `pointer` points at. Fails where they do not all lie
    /// in the log.
    pub fn read_range(&self, pointer: Pointer) -> (r: Result<&[u8], KvsError>)
        ensures
            match r {
                Ok(bytes) => pointer.end() <= self@.len() && bytes@ == self@.subrange(
                    pointer.pos as int,
                    pointer.end(),
                ),
                Err(e) => e is Serialization && pointer.end() > self@.len(),
            },
    {
        let len = self.bytes.len() as u64;
        if pointer.pos > len || pointer.len > len - pointer.pos {
            return Err(KvsError::Serialization);
        }
        let start = pointer.pos as usize;
        let end = (pointer.pos + pointer.len) as usize;
        Ok(slice_subrange(self.bytes.as_slice(), start, end))
    }

    /// Puts `bytes` in place of the whole log. Nothing of the new log stands
    /// in the backing file yet: the file has to be replaced.
    pub fn replace(&mut self, bytes: Vec<u8>)
        ensures
            final(self).wf(),
            final(self)@ == bytes@,
            final(self).flushed() == 0,
    {
        self.bytes = bytes;
        self.flushed = 0;
        proof {
            vstd::std_specs::vec::axiom_spec_len(&self.bytes);
        }
    }

    /// How many bytes, from the start of the log, stand in the backing file.
    /// Where this is 0 and the file is not empty, the file has to be replaced
    /// by the log; else the bytes from this offset on are to be appended.
    pub fn flushed_len(&self) -> (n: usize)
        ensures
            n == self.flushed(),
    {
        self.flushed
    }

    /// Records that the backing file now holds the whole log.
    pub fn mark_flushed(&mut self)
        ensures
            final(self)@ == old(self)@,
            final(self).flushed() == final(self)@.len(),
            final(self).wf(),
    {
        self.flushed = self.bytes.len();
    }
}

} // verus!
