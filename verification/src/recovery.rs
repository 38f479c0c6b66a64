//! Recovery: what the records of a log make of an empty store when they are
//! applied in order, and the function that computes it from the bytes.

use crate::command::{Command, CommandView};
use crate::error::KvsError;
use crate::index::{
    holds, inserted, lemma_inserted, lemma_inserted_total_len, lemma_removed,
    lemma_removed_total_len, lookup, removed, sorted, total_len, Entries, Index,
};
use crate::pointer::Pointer;
use crate::record::{
    appended_record, chained, framed, lemma_chained_bounds, lemma_chained_front,
    lemma_chained_is_front, lemma_chained_push, lemma_fits_bounds, lemma_parses_appended,
    lemma_records_of, next_record, record_at, record_bytes, records_of, tail_of, well_formed, Record,
};
use vstd::prelude::*;

verus! {

/// What recovery computes: the entries of the index, and the count of bytes
/// that a compaction would reclaim.
pub struct Recovered {
    pub entries: Entries,
    pub uncompacted: int,
}

/// The pointer to a record.
pub open spec fn pointer_of(r: Record) -> Pointer {
    Pointer { pos: r.start as u64, len: (r.end - r.start) as u64 }
}

/// The state after one more record.
///
/// A `Set` points its key at the record and counts the record that the key
/// pointed at before. A `Remove` of a key that is there takes the key out and
/// counts its own record; a `Remove` of a key that is not there does nothing.
pub open spec fn apply(state: Recovered, r: Record) -> Recovered {
    match r.command {
        CommandView::SetValue { key, .. } => Recovered {
            entries: inserted(state.entries, key, pointer_of(r)),
            uncompacted: state.uncompacted + match lookup(state.entries, key) {
                Some(old) => old.len as int,
                None => 0,
            },
        },
        CommandView::Remove { key } => if holds(state.entries, key) {
            Recovered {
                entries: removed(state.entries, key),
                uncompacted: state.uncompacted + (r.end - r.start),
            }
        } else {
            state
        },
    }
}

/// The state after the records `rs`, applied in order to an empty store.
pub open spec fn replay(rs: Seq<Record>) -> Recovered
    decreases rs.len(),
{
    if rs.len() == 0 {
        Recovered { entries: Seq::empty(), uncompacted: 0 }
    } else {
        apply(replay(rs.drop_last()), rs.last())
    }
}

/// The state that recovery computes from the log `s`.
pub open spec fn recovered(s: Seq<u8>) -> Recovered {
    replay(records_of(s))
}

/// The keys and values after the commands of `rs`, applied in order to an
/// empty map.
pub open spec fn contents(rs: Seq<Record>) -> Map<Seq<char>, Seq<char>>
    decreases rs.len(),
{
    if rs.len() == 0 {
        Map::empty()
    } else {
        match rs.last().command {
            CommandView::SetValue { key, value } => contents(rs.drop_last()).insert(key, value),
            CommandView::Remove { key } => contents(rs.drop_last()).remove(key),
        }
    }
}

/// The keys and values that the log `s` holds.
pub open spec fn contents_of(s: Seq<u8>) -> Map<Seq<char>, Seq<char>> {
    contents(records_of(s))
}

/// The record that gives `key` its value: the last record about `key`, if it
/// is a `Set`.
pub open spec fn locate(rs: Seq<Record>, key: Seq<char>) -> Option<Record>
    decreases rs.len(),
{
    if rs.len() == 0 {
        None
    } else if rs.last().command.key() == key {
        match rs.last().command {
            CommandView::SetValue { .. } => Some(rs.last()),
            CommandView::Remove { .. } => None,
        }
    } else {
        locate(rs.drop_last(), key)
    }
}

/// The index that recovery builds is sorted.
pub proof fn lemma_replay_sorted(rs: Seq<Record>)
    ensures
        sorted(replay(rs).entries),
    decreases rs.len(),
{
    if rs.len() > 0 {
        lemma_replay_sorted(rs.drop_last());
        let before = replay(rs.drop_last()).entries;
        match rs.last().command {
            CommandView::SetValue { key, .. } => {
                lemma_inserted(before, key, pointer_of(rs.last()), key);
            },
            CommandView::Remove { key } => {
                lemma_removed(before, key, key);
            },
        }
    }
}

/// The index that recovery builds points each key at the record that gives
/// the key its value.
pub proof fn lemma_replay_lookup(rs: Seq<Record>, key: Seq<char>)
    ensures
        lookup(replay(rs).entries, key) == match locate(rs, key) {
            Some(r) => Some(pointer_of(r)),
            None => None,
        },
    decreases rs.len(),
{
    if rs.len() > 0 {
        lemma_replay_sorted(rs.drop_last());
        lemma_replay_lookup(rs.drop_last(), key);
        let before = replay(rs.drop_last()).entries;
        match rs.last().command {
            CommandView::SetValue { key: k, .. } => {
                lemma_inserted(before, k, pointer_of(rs.last()), key);
            },
            CommandView::Remove { key: k } => {
                lemma_removed(before, k, key);
            },
        }
    }
}

/// A key has a value exactly if a record gives it one, and the value is the
/// one that this record sets.
pub proof fn lemma_contents_locate(rs: Seq<Record>, key: Seq<char>)
    ensures
        match locate(rs, key) {
            Some(r) => contents(rs).contains_key(key) && r.command == (CommandView::SetValue {
                key,
                value: contents(rs)[key],
            }),
            None => !contents(rs).contains_key(key),
        },
    decreases rs.len(),
{
    if rs.len() > 0 {
        lemma_contents_locate(rs.drop_last(), key);
    }
}

/// The record that gives a key its value is one of the records.
pub proof fn lemma_locate_is_record(rs: Seq<Record>, key: Seq<char>)
    ensures
        locate(rs, key) matches Some(r) ==> exists|i: int| 0 <= i < rs.len() && #[trigger] rs[i] == r,
    decreases rs.len(),
{
    if rs.len() > 0 {
        if rs.last().command.key() == key {
            assert(rs[rs.len() - 1] == rs.last());
        } else {
            lemma_locate_is_record(rs.drop_last(), key);
            match locate(rs.drop_last(), key) {
                Some(r) => {
                    let i = choose|i: int|
                        0 <= i < rs.drop_last().len() && #[trigger] rs.drop_last()[i] == r;
                    assert(rs[i] == r);
                },
                None => {},
            }
        }
    }
}

/// What recovery counts, and the records that its index points at, all lie
/// before the end of the records.
pub proof fn lemma_replay_accounts(s: Seq<u8>, rs: Seq<Record>)
    requires
        chained(s, rs),
        s.len() <= u64::MAX,
    ensures
        0 <= replay(rs).uncompacted,
        replay(rs).uncompacted + total_len(replay(rs).entries) <= tail_of(rs) <= s.len(),
    decreases rs.len(),
{
    lemma_chained_bounds(s, rs);
    if rs.len() > 0 {
        let front = rs.drop_last();
        let last = rs.last();
        assert(rs.take(rs.len() - 1) =~= front);
        lemma_chained_front(s, rs, rs.len() - 1);
        lemma_replay_accounts(s, front);
        lemma_replay_sorted(front);
        lemma_fits_bounds(s, last);
        let before = replay(front).entries;
        match last.command {
            CommandView::SetValue { key, .. } => {
                lemma_inserted_total_len(before, key, pointer_of(last));
            },
            CommandView::Remove { key } => {
                lemma_removed_total_len(before, key);
            },
        }
    }
}

/// In a log that is a run of records, the record that the index has for a
/// key lies in the log, and it sets the key to the value that the log holds
/// for it.
pub proof fn lemma_recovered_entry(s: Seq<u8>, key: Seq<char>)
    requires
        well_formed(s),
        s.len() <= u64::MAX,
    ensures
        match lookup(recovered(s).entries, key) {
            Some(p) => {
                &&& contents_of(s).contains_key(key)
                &&& p.pos + p.len <= s.len()
                &&& record_at(
                    s,
                    p.pos as int,
                    p.pos + p.len,
                    CommandView::SetValue { key, value: contents_of(s)[key] },
                )
            },
            None => !contents_of(s).contains_key(key),
        },
{
    let rs = records_of(s);
    lemma_replay_lookup(rs, key);
    lemma_contents_locate(rs, key);
    lemma_locate_is_record(rs, key);
    match locate(rs, key) {
        Some(r) => {
            assert(r.fits(s)) by {
                let i = choose|i: int| 0 <= i < rs.len() && #[trigger] rs[i] == r;
                assert(rs[i].fits(s));
            }
            lemma_fits_bounds(s, r);
            let p = pointer_of(r);
            assert(p.pos == r.start && p.len == r.end - r.start);
            assert(framed(s, r.start, r.body, r.end, r.command));
        },
        None => {},
    }
}

/// What one more command, appended to a log, adds to what the log holds and
/// to what recovery computes from it.
pub proof fn lemma_appended(s: Seq<u8>, command: CommandView)
    requires
        well_formed(s),
    ensures
        well_formed(s + record_bytes(command)),
        records_of(s + record_bytes(command)) == records_of(s).push(
            appended_record(tail_of(records_of(s)), s.len() as int, command),
        ),
        recovered(s + record_bytes(command)) == apply(
            recovered(s),
            appended_record(tail_of(records_of(s)), s.len() as int, command),
        ),
        contents_of(s + record_bytes(command)) == match command {
            CommandView::SetValue { key, value } => contents_of(s).insert(key, value),
            CommandView::Remove { key } => contents_of(s).remove(key),
        },
{
    let rs = records_of(s);
    let r = appended_record(tail_of(rs), s.len() as int, command);
    lemma_parses_appended(s, rs, command);
    lemma_records_of(s + record_bytes(command), rs.push(r));
    assert(rs.push(r).drop_last() =~= rs);
}

/// Rebuilds the index from the log: the index, the count of bytes that a
/// compaction would reclaim, and the offset at which the records end.
///
/// Fails where the log is not a run of records.
pub fn recover(log: &[u8]) -> (r: Result<(Index, u64, usize), KvsError>)
    ensures
        match r {
            Ok((index, uncompacted, tail)) => {
                &&& well_formed(log@)
                &&& index.wf()
                &&& index@ == recovered(log@).entries
                &&& uncompacted == recovered(log@).uncompacted
                &&& tail == tail_of(records_of(log@))
            },
            Err(e) => e is Serialization && !well_formed(log@),
        },
{
    let mut index = Index::new();
    let mut uncompacted: u64 = 0;
    let mut offset: usize = 0;
    let ghost mut rs: Seq<Record> = Seq::empty();
    assert(log@.len() <= usize::MAX) by {
        vstd::slice::axiom_spec_len(log);
    }
    loop
        invariant
            offset <= log@.len() <= usize::MAX,
            chained(log@, rs),
            tail_of(rs) == offset,
            index.wf(),
            index@ == replay(rs).entries,
            uncompacted == replay(rs).uncompacted,
        decreases log@.len() - offset,
    {
        match next_record(log, offset) {
            Err(e) => {
                proof {
                    if well_formed(log@) {
                        let all = records_of(log@);
                        lemma_chained_is_front(log@, rs, all);
                        if rs.len() < all.len() {
                            let next = all[rs.len() as int];
                            if rs.len() > 0 {
                                assert(next.start == all[rs.len() - 1].end);
                                assert(all.take(rs.len() as int)[rs.len() - 1] == all[rs.len() - 1]);
                            }
                            assert(next.fits(log@));
                        } else {
                            assert(all.take(rs.len() as int) =~= all);
                        }
                    }
                }
                return Err(e);
            },
            Ok(None) => {
                proof {
                    lemma_records_of(log@, rs);
                }
                return Ok((index, uncompacted, offset));
            },
            Ok(Some((command, end))) => {
                let ghost body = choose|body: int| #[trigger]
                    framed(log@, offset as int, body, end as int, command@);
                let ghost record = Record {
                    command: command@,
                    start: offset as int,
                    body,
                    end: end as int,
                };
                proof {
                    lemma_fits_bounds(log@, record);
                    lemma_chained_push(log@, rs, record);
                    assert(rs.push(record).drop_last() =~= rs);
                    lemma_replay_accounts(log@, rs);
                    lemma_replay_accounts(log@, rs.push(record));
                }
                match command {
                    Command::SetValue { key, value: _ } => {
                        let pointer = Pointer::from((offset as u64)..(end as u64));
                        assert(pointer == pointer_of(record));
                        if let Some(old) = index.insert(key, pointer) {
                            uncompacted = uncompacted + old.len;
                        }
                    },
                    Command::Remove { key } => {
                        if let Some(_) = index.remove(key.as_str()) {
                            uncompacted = uncompacted + (end - offset) as u64;
                        }
                    },
                }
                offset = end;
                proof {
                    rs = rs.push(record);
                }
            },
        }
    }
}

} // verus!
