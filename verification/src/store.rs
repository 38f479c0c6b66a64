//! The store: the engine that keeps its keys and values in a log of commands
//! and finds them through an index.
//!
//! The store holds the log in memory and never touches a file. Whoever owns
//! the file hands its bytes to [`KvStore::open`], and after each call writes
//! to the file what the log has gained, or replaces the file when a
//! compaction has rewritten the log.

use crate::command::{Command, CommandView};
use crate::compaction::{compacted, gathered, lemma_compacted, relocated, relocated_entry};
use crate::engine::KvsEngine;
use crate::error::KvsError;
use crate::index::{lemma_lookup_entry, lemma_total_len_concat, total_len, Entries, Index};
use crate::log_store::LogStore;
use crate::pointer::Pointer;
use crate::record::{
    appended_record, encode_record, framed, lemma_chained_bounds, lemma_fits_bounds,
    lemma_fits_moved, lemma_fits_unique, lemma_records_of, parses, read_record, record_bytes,
    records_of, tail_of, well_formed, Record,
};
use crate::recovery::{
    contents_of, lemma_appended, lemma_recovered_entry, lemma_replay_accounts,
    lemma_replay_sorted, pointer_of, recover, recovered,
};
use vstd::prelude::*;

verus! {

/// The size that the log must pass for `set` to compact it.
pub const COMPACT_BYTES: u64 = 1024;

/// Whether `set(key, value)` compacts the log `s`: whether the record of the
/// command makes the log longer than [`COMPACT_BYTES`].
pub open spec fn compacts_after_set(s: Seq<u8>, key: Seq<char>, value: Seq<char>) -> bool {
    (s + record_bytes(CommandView::SetValue { key, value })).len() > COMPACT_BYTES
}

/// The log after `set(key, value)`: the log with the record of the command
/// appended, compacted if that made it longer than [`COMPACT_BYTES`].
pub open spec fn after_set(s: Seq<u8>, key: Seq<char>, value: Seq<char>) -> Seq<u8> {
    let longer = s + record_bytes(CommandView::SetValue { key, value });
    if compacts_after_set(s, key, value) {
        compacted(longer)
    } else {
        longer
    }
}

/// The log after `remove(key)`: with the record of the command appended if
/// the log holds the key, and as it was if not.
pub open spec fn after_remove(s: Seq<u8>, key: Seq<char>) -> Seq<u8> {
    if contents_of(s).contains_key(key) {
        s + record_bytes(CommandView::Remove { key })
    } else {
        s
    }
}

/// A store of string keys and values.
pub struct KvStore {
    log: LogStore,
    index: Index,
    uncompacted: u64,
    tail: u64,
}

impl View for KvStore {
    type V = Map<Seq<char>, Seq<char>>;

    /// The keys that the store holds, each with its value: what the commands
    /// of the log make of an empty map.
    open spec fn view(&self) -> Map<Seq<char>, Seq<char>> {
        contents_of(self.log())
    }
}

impl KvStore {
    /// The bytes of the log.
    pub closed spec fn log(&self) -> Seq<u8> {
        self.log@
    }

    /// The entries of the index, in key order.
    pub closed spec fn entries(&self) -> Entries {
        self.index@
    }

    /// The count of bytes that a compaction would reclaim.
    pub closed spec fn uncompacted_bytes(&self) -> int {
        self.uncompacted as int
    }

    /// The offset at which the records of the log end.
    pub closed spec fn tail(&self) -> int {
        self.tail as int
    }

    /// How many bytes, from the start of the log, stand in the backing file.
    pub closed spec fn flushed(&self) -> int {
        self.log.flushed()
    }

    /// The log is a run of records, and the index, the count of reclaimable
    /// bytes and the end of the records are what recovery computes from it.
    pub open spec fn wf(&self) -> bool {
        &&& well_formed(self.log())
        &&& self.log().len() <= usize::MAX
        &&& self.entries() == recovered(self.log()).entries
        &&& self.uncompacted_bytes() == recovered(self.log()).uncompacted
        &&& self.tail() == tail_of(records_of(self.log()))
        &&& 0 <= self.flushed() <= self.log().len()
    }

    /// A store with an empty log. It holds no key.
    pub fn new() -> (r: Result<KvStore, KvsError>)
        ensures
            r matches Ok(store) && store.wf() && store.log() == Seq::<u8>::empty()
                && store.flushed() == 0,
    {
        let store = KvStore { log: LogStore::new(), index: Index::new(), uncompacted: 0, tail: 0 };
        proof {
            let none = Seq::<Record>::empty();
            assert(parses(store.log(), none));
            lemma_records_of(store.log(), none);
        }
        Ok(store)
    }

    /// The store whose log is `log`, the bytes of its file. The index is
    /// rebuilt from the log. Fails where the log is not a run of records.
    pub fn open(log: Vec<u8>) -> (r: Result<KvStore, KvsError>)
        ensures
            match r {
                Ok(store) => store.wf() && store.log() == log@ && store.flushed() == log@.len(),
                Err(e) => e is Serialization && !well_formed(log@),
            },
    {
        match recover(log.as_slice()) {
            Ok((index, uncompacted, tail)) => {
                proof {
                    lemma_chained_bounds(log@, records_of(log@));
                }
                Ok(KvStore { log: LogStore::from_bytes(log), index, uncompacted, tail: tail as u64 })
            },
            Err(e) => Err(e),
        }
    }

    /// The bytes of the log.
    pub fn log_bytes(&self) -> (bytes: &[u8])
        ensures
            bytes@ == self.log(),
    {
        self.log.as_bytes()
    }

    /// The count of bytes that a compaction would reclaim: the records that
    /// a later `set` of the same key has replaced, and the records of
    /// `remove`.
    pub fn uncompacted(&self) -> (n: u64)
        ensures
            n == self.uncompacted_bytes(),
    {
        self.uncompacted
    }

    /// How many bytes, from the start of the log, stand in the backing file.
    /// Where this is 0 and the file is not empty, the file has to be replaced
    /// by the log; else the bytes from this offset on are to be appended.
    pub fn flushed_len(&self) -> (n: usize)
        ensures
            n == self.flushed(),
    {
        self.log.flushed_len()
    }

    /// Records that the backing file now holds the whole log.
    pub fn mark_flushed(&mut self)
        requires
            old(self).wf(),
        ensures
            final(self).wf(),
            final(self).log() == old(self).log(),
            final(self).flushed() == final(self).log().len(),
    {
        self.log.mark_flushed();
    }

    /// Appends the record of `command` to the log. Returns the pointer to
    /// the record, which starts where the records before it end.
    fn append(&mut self, command: &Command) -> (pointer: Pointer)
        requires
            old(self).log.wf(),
            0 <= old(self).tail() <= old(self).log().len(),
        ensures
            final(self).log() == old(self).log() + record_bytes(command@),
            final(self).log().len() <= usize::MAX,
            final(self).log.wf(),
            final(self).flushed() == old(self).flushed(),
            final(self).index == old(self).index,
            final(self).uncompacted == old(self).uncompacted,
            final(self).tail() == final(self).log().len(),
            pointer == pointer_of(
                appended_record(old(self).tail(), old(self).log().len() as int, command@),
            ),
    {
        let bytes = encode_record(command);
        let range = self.log.append(bytes.as_slice());
        let pointer = Pointer::from(self.tail..range.end);
        self.tail = range.end;
        pointer
    }

    /// Rewrites the log so that it holds only the records that the index
    /// points at, in key order, and points the index at them. Every key keeps
    /// its value, and the log does not get longer.
    pub fn compact(&mut self) -> (r: Result<(), KvsError>)
        requires
            old(self).wf(),
        ensures
            r is Ok,
            final(self).wf(),
            final(self).log() == compacted(old(self).log()),
            final(self).log().len() <= old(self).log().len(),
            final(self)@ == old(self)@,
            final(self).entries() == relocated(old(self).entries()),
            final(self).uncompacted_bytes() == 0,
            final(self).flushed() == 0,
    {
        let ghost s = self.log();
        let ghost e = self.entries();
        proof {
            lemma_compacted(s);
            lemma_replay_sorted(records_of(s));
            lemma_replay_accounts(s, records_of(s));
            assert forall|j: int| 0 <= j < e.len() implies (#[trigger] e[j]).1.pos + e[j].1.len
                <= s.len() by {
                lemma_lookup_entry(e, j);
                lemma_recovered_entry(s, e[j].0);
            }
            assert(e.take(0) =~= Seq::<(Seq<char>, Pointer)>::empty());
        }
        let count = self.index.len();
        let mut fresh: Vec<u8> = Vec::new();
        let mut i: usize = 0;
        while i < count
            invariant
                i <= count == e.len(),
                *self == *old(self),
                self.log@ == s,
                self.index@ == e,
                fresh@ == gathered(s, e.take(i as int)),
                forall|j: int| 0 <= j < e.len() ==> (#[trigger] e[j]).1.pos + e[j].1.len <= s.len(),
            decreases count - i,
        {
            let pointer = self.index.pointer_at(i);
            match self.log.read_range(pointer) {
                Ok(bytes) => {
                    fresh.extend_from_slice(bytes);
                },
                Err(e) => {
                    return Err(e);
                },
            }
            proof {
                assert(e.take(i + 1).drop_last() =~= e.take(i as int));
                assert(e.take(i + 1).last() == e[i as int]);
            }
            i += 1;
        }
        proof {
            assert(e.take(count as int) =~= e);
        }
        let mut offset: u64 = 0;
        let mut i: usize = 0;
        while i < count
            invariant
                i <= count == e.len(),
                self.index@.len() == e.len(),
                self.log == old(self).log,
                offset == total_len(e.take(i as int)),
                total_len(e) <= s.len() <= usize::MAX,
                forall|j: int| 0 <= j < i ==> self.index@[j] == relocated_entry(e, j),
                forall|j: int| i <= j < e.len() ==> self.index@[j] == e[j],
            decreases count - i,
        {
            let pointer = self.index.pointer_at(i);
            proof {
                assert(e.take(i + 1).drop_last() =~= e.take(i as int));
                assert(e.take(i + 1).last() == e[i as int]);
                lemma_total_len_concat(e.take(i + 1), e.skip(i + 1));
                assert(e.take(i + 1) + e.skip(i + 1) =~= e);
            }
            self.index.set_pointer_at(i, Pointer { pos: offset, len: pointer.len });
            offset = offset + pointer.len;
            i += 1;
        }
        proof {
            assert(self.index@ =~= relocated(e));
        }
        self.log.replace(fresh);
        self.uncompacted = 0;
        self.tail = self.log.len();
        Ok(())
    }
}

impl KvsEngine for KvStore {
    open spec fn valid(&self) -> bool {
        self.wf()
    }

    open spec fn contents(&self) -> Map<Seq<char>, Seq<char>> {
        self@
    }

    /// Sets `key` to `value`. Compacts the log if that made it longer than
    /// [`COMPACT_BYTES`].
    fn set(&mut self, key: String, value: String) -> (r: Result<(), KvsError>)
        ensures
            r is Ok,
            final(self).wf(),
            final(self).log() == after_set(old(self).log(), key@, value@),
            final(self)@ == old(self)@.insert(key@, value@),
            final(self).flushed() == if compacts_after_set(old(self).log(), key@, value@) {
                0
            } else {
                old(self).flushed()
            },
    {
        let command = Command::set(key.clone(), value);
        let ghost before = self.log();
        proof {
            lemma_chained_bounds(before, records_of(before));
        }
        let pointer = self.append(&command);
        proof {
            lemma_appended(before, command@);
            lemma_replay_accounts(self.log(), records_of(self.log()));
            lemma_replay_sorted(records_of(before));
        }
        if let Some(old) = self.index.insert(key, pointer) {
            self.uncompacted = self.uncompacted + old.len;
        }
        if self.log.len() > COMPACT_BYTES {
            proof {
                lemma_compacted(self.log());
            }
            self.compact()
        } else {
            Ok(())
        }
    }

    /// The value of `key`, or `None` where the store does not hold the key.
    fn get(&mut self, key: String) -> (r: Result<Option<String>, KvsError>)
        ensures
            *final(self) == *old(self),
            r matches Ok(found) && match found {
                Some(value) => old(self)@.contains_key(key@) && old(self)@[key@] == value@,
                None => !old(self)@.contains_key(key@),
            },
    {
        proof {
            lemma_recovered_entry(self.log(), key@);
            lemma_replay_sorted(records_of(self.log()));
        }
        let pointer = match self.index.get(key.as_str()) {
            Some(pointer) => pointer,
            None => {
                return Ok(None);
            },
        };
        let bytes = match self.log.read_range(pointer) {
            Ok(bytes) => bytes,
            Err(e) => {
                return Err(e);
            },
        };
        let ghost expected = CommandView::SetValue { key: key@, value: self@[key@] };
        proof {
            let from = pointer.pos as int;
            let body = choose|body: int| #[trigger]
                framed(self.log(), from, body, pointer.end(), expected);
            let stored = Record { command: expected, start: from, body, end: pointer.end() };
            assert(stored.fits(self.log()));
            lemma_fits_bounds(self.log(), stored);
            assert(bytes@.subrange(0, bytes@.len() as int) =~= bytes@);
            lemma_fits_moved(self.log(), stored, bytes@, -from);
            let moved = stored.shifted(-from);
            assert(moved.fits(bytes@));
            assert forall|other: Record| other.start == 0 && #[trigger] other.fits(bytes@) implies other
                == moved by {
                lemma_fits_unique(bytes@, other, moved);
            }
        }
        match read_record(bytes) {
            Ok(Command::SetValue { key: _, value }) => Ok(Some(value)),
            Ok(Command::Remove { key: _ }) => Err(KvsError::KeyNotFound),
            Err(e) => Err(e),
        }
    }

    /// Removes `key`. Fails with `KeyNotFound` where the store does not hold
    /// the key, and then leaves the store as it was.
    fn remove(&mut self, key: String) -> (r: Result<(), KvsError>)
        ensures
            final(self).wf(),
            final(self).log() == after_remove(old(self).log(), key@),
            final(self)@ == old(self)@.remove(key@),
            final(self).flushed() == old(self).flushed(),
            match r {
                Ok(_) => old(self)@.contains_key(key@),
                Err(e) => e is KeyNotFound && !old(self)@.contains_key(key@) && *final(self) == *old(
                    self,
                ),
            },
    {
        let ghost before = self.log();
        proof {
            lemma_recovered_entry(before, key@);
            lemma_replay_sorted(records_of(before));
            assert(self@.remove(key@) =~= self@ <== !self@.contains_key(key@));
        }
        if self.index.get(key.as_str()).is_none() {
            return Err(KvsError::KeyNotFound);
        }
        let command = Command::remove(key.clone());
        proof {
            lemma_chained_bounds(before, records_of(before));
        }
        let pointer = self.append(&command);
        proof {
            lemma_appended(before, command@);
            lemma_replay_accounts(self.log(), records_of(self.log()));
        }
        self.index.remove(key.as_str());
        self.uncompacted = self.uncompacted + pointer.len;
        Ok(())
    }
}

} // verus!
