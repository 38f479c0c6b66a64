//! Compaction: the log that holds only the records that the index points at,
//! one after the other in key order, and what recovery makes of it.

use crate::command::CommandView;
use crate::index::{
    holds, inserted, key_lt, lemma_holds_iff, lemma_lookup_entry, lemma_position_is, lookup,
    sorted, splits_at, total_len, Entries,
};
use crate::pointer::Pointer;
use crate::record::{
    chained, framed, lemma_chained_extends, lemma_chained_push, lemma_fits_moved,
    lemma_records_of, record_at, records_of, tail_of, well_formed, Record,
};
use crate::recovery::{
    contents, contents_of, lemma_recovered_entry, lemma_replay_accounts, lemma_replay_sorted,
    pointer_of, recovered, replay,
};
use vstd::prelude::*;

verus! {

/// The bytes of `s` that the entries `e` point at, one record after the
/// other in the order of the entries.
pub open spec fn gathered(s: Seq<u8>, e: Entries) -> Seq<u8>
    decreases e.len(),
{
    if e.len() == 0 {
        Seq::empty()
    } else {
        gathered(s, e.drop_last()) + s.subrange(
            e.last().1.pos as int,
            e.last().1.pos + e.last().1.len,
        )
    }
}

/// The entry `e[i]`, pointing at where its record lies in `gathered(s, e)`.
pub open spec fn relocated_entry(e: Entries, i: int) -> (Seq<char>, Pointer) {
    (e[i].0, Pointer { pos: total_len(e.take(i)) as u64, len: e[i].1.len })
}

/// The entries `e`, each pointing at where its record lies in `gathered(s, e)`.
pub open spec fn relocated(e: Entries) -> Entries {
    Seq::new(e.len(), |i: int| relocated_entry(e, i))
}

/// The log `s` after compaction: its live records, in key order.
pub open spec fn compacted(s: Seq<u8>) -> Seq<u8> {
    gathered(s, recovered(s).entries)
}

/// Each entry of `e` points at a record in `s` that sets the key of the
/// entry to the value that `values` has for it.
pub open spec fn points_into(e: Entries, s: Seq<u8>, values: Map<Seq<char>, Seq<char>>) -> bool {
    forall|i: int|
        0 <= i < e.len() ==> {
            &&& values.contains_key((#[trigger] e[i]).0)
            &&& e[i].1.pos + e[i].1.len <= s.len()
            &&& record_at(
                s,
                e[i].1.pos as int,
                e[i].1.pos + e[i].1.len,
                CommandView::SetValue { key: e[i].0, value: values[e[i].0] },
            )
        }
}

/// The record of the entry `e[i]` as it lies in `gathered(s, e)`.
pub open spec fn gathered_record(
    e: Entries,
    s: Seq<u8>,
    values: Map<Seq<char>, Seq<char>>,
    i: int,
) -> Record {
    let command = CommandView::SetValue { key: e[i].0, value: values[e[i].0] };
    let from = e[i].1.pos as int;
    let body = choose|body: int| #[trigger] framed(s, from, body, from + e[i].1.len, command);
    let to = total_len(e.take(i)) as int;
    Record { command, start: to, body: to + (body - from), end: to + e[i].1.len }
}

/// The records of `gathered(s, e)`.
pub open spec fn gathered_records(
    e: Entries,
    s: Seq<u8>,
    values: Map<Seq<char>, Seq<char>>,
) -> Seq<Record> {
    Seq::new(e.len(), |i: int| gathered_record(e, s, values, i))
}

/// Gathering takes as many bytes as the entries say.
pub proof fn lemma_gathered_len(s: Seq<u8>, e: Entries)
    requires
        forall|i: int| 0 <= i < e.len() ==> (#[trigger] e[i]).1.pos + e[i].1.len <= s.len(),
    ensures
        gathered(s, e).len() == total_len(e),
    decreases e.len(),
{
    if e.len() > 0 {
        let front = e.drop_last();
        assert forall|i: int| 0 <= i < front.len() implies (#[trigger] front[i]).1.pos
            + front[i].1.len <= s.len() by {
            assert(front[i] == e[i]);
        }
        lemma_gathered_len(s, front);
        assert(e.last() == e[e.len() - 1]);
    }
}

/// Putting a key that comes after all the others into a sorted index adds
/// it at the end.
proof fn lemma_inserted_last(e: Entries, key: Seq<char>, pointer: Pointer)
    requires
        forall|i: int| 0 <= i < e.len() ==> key_lt((#[trigger] e[i]).0, key),
    ensures
        inserted(e, key, pointer) == e.push((key, pointer)),
        lookup(e, key) is None,
{
    assert(splits_at(e, key, e.len() as int));
    lemma_position_is(e, key, e.len() as int);
    assert(e.insert(e.len() as int, (key, pointer)) =~= e.push((key, pointer)));
}

/// All but the last of sorted entries are sorted.
proof fn lemma_sorted_front(e: Entries)
    requires
        sorted(e),
        e.len() > 0,
    ensures
        sorted(e.drop_last()),
{
    let front = e.drop_last();
    assert forall|i: int, j: int| 0 <= i < j < front.len() implies key_lt(
        (#[trigger] front[i]).0,
        (#[trigger] front[j]).0,
    ) by {
        assert(front[i] == e[i] && front[j] == e[j]);
    }
}

/// All but the last of entries that point into a log point into it.
proof fn lemma_points_into_front(e: Entries, s: Seq<u8>, values: Map<Seq<char>, Seq<char>>)
    requires
        points_into(e, s, values),
        e.len() > 0,
    ensures
        points_into(e.drop_last(), s, values),
{
    let front = e.drop_last();
    assert forall|i: int| 0 <= i < front.len() implies {
        &&& values.contains_key((#[trigger] front[i]).0)
        &&& front[i].1.pos + front[i].1.len <= s.len()
        &&& record_at(
            s,
            front[i].1.pos as int,
            front[i].1.pos + front[i].1.len,
            CommandView::SetValue { key: front[i].0, value: values[front[i].0] },
        )
    } by {
        assert(front[i] == e[i]);
    }
}

/// The gathered records of entries are those of all but the last entry, and
/// the record of the last.
proof fn lemma_gathered_records_step(e: Entries, s: Seq<u8>, values: Map<Seq<char>, Seq<char>>)
    requires
        e.len() > 0,
    ensures
        gathered_records(e, s, values).drop_last() == gathered_records(e.drop_last(), s, values),
        gathered_records(e, s, values).last() == gathered_record(e, s, values, e.len() - 1),
        e.drop_last() == e.take(e.len() - 1),
{
    let front = e.drop_last();
    let rs = gathered_records(e, s, values);
    let front_rs = gathered_records(front, s, values);
    assert(front =~= e.take(e.len() - 1));
    assert(rs.drop_last() =~= front_rs) by {
        assert forall|i: int| 0 <= i < front.len() implies rs[i] == front_rs[i] by {
            assert(front.take(i) =~= e.take(i));
            assert(front[i] == e[i]);
        }
    }
}

/// The gathered records lie in the gathered bytes one after the other, and
/// fill them.
pub proof fn lemma_gathered_parses(e: Entries, s: Seq<u8>, values: Map<Seq<char>, Seq<char>>)
    requires
        points_into(e, s, values),
    ensures
        gathered(s, e).len() == total_len(e),
        chained(gathered(s, e), gathered_records(e, s, values)),
        tail_of(gathered_records(e, s, values)) == total_len(e),
    decreases e.len(),
{
    let rs = gathered_records(e, s, values);
    let g = gathered(s, e);
    lemma_gathered_len(s, e);
    if e.len() > 0 {
        let n = e.len() - 1;
        let front = e.drop_last();
        let key = e[n].0;
        let pointer = e[n].1;
        lemma_points_into_front(e, s, values);
        lemma_gathered_parses(front, s, values);
        lemma_gathered_records_step(e, s, values);
        let front_rs = gathered_records(front, s, values);
        let front_g = gathered(s, front);
        let last = gathered_record(e, s, values, n as int);
        assert(rs =~= front_rs.push(last));

        let command = CommandView::SetValue { key, value: values[key] };
        let from = pointer.pos as int;
        let body = choose|body: int| #[trigger] framed(s, from, body, from + pointer.len, command);
        assert(framed(s, from, body, from + pointer.len, command));
        let stored = Record { command, start: from, body, end: from + pointer.len };
        let to = total_len(front) as int;
        assert(g.subrange(to, to + pointer.len) =~= s.subrange(from, from + pointer.len));
        lemma_fits_moved(s, stored, g, to - from);
        assert(stored.shifted(to - from) == last);
        lemma_chained_extends(front_g, front_rs, s.subrange(from, from + pointer.len));
        lemma_chained_push(g, front_rs, last);
    }
}

/// Recovery from the gathered records of sorted entries gives the same keys,
/// each pointing at its record in the gathered bytes, and counts nothing.
pub proof fn lemma_gathered_replay(e: Entries, s: Seq<u8>, values: Map<Seq<char>, Seq<char>>)
    requires
        sorted(e),
        total_len(e) <= u64::MAX,
    ensures
        replay(gathered_records(e, s, values)).entries == relocated(e),
        replay(gathered_records(e, s, values)).uncompacted == 0,
    decreases e.len(),
{
    let rs = gathered_records(e, s, values);
    if e.len() == 0 {
        assert(relocated(e) =~= replay(rs).entries);
    } else {
        let n = e.len() - 1;
        let front = e.drop_last();
        let key = e[n].0;
        lemma_sorted_front(e);
        lemma_gathered_records_step(e, s, values);
        assert(total_len(front) + e[n].1.len == total_len(e));
        lemma_gathered_replay(front, s, values);
        let last = gathered_record(e, s, values, n as int);
        let before = replay(gathered_records(front, s, values)).entries;
        assert forall|i: int| 0 <= i < before.len() implies key_lt(
            (#[trigger] before[i]).0,
            key,
        ) by {
            assert(before[i].0 == front[i].0);
            assert(front[i] == e[i]);
        }
        lemma_inserted_last(before, key, pointer_of(last));
        assert(pointer_of(last) == relocated_entry(e, n as int).1);
        assert(replay(rs).entries =~= relocated(e)) by {
            assert forall|i: int| 0 <= i < n implies relocated(front)[i] == relocated(e)[i] by {
                assert(front.take(i) =~= e.take(i));
                assert(front[i] == e[i]);
            }
        }
    }
}

/// The gathered records of sorted entries hold the keys of the entries, each
/// with its value.
pub proof fn lemma_gathered_contents(
    e: Entries,
    s: Seq<u8>,
    values: Map<Seq<char>, Seq<char>>,
    key: Seq<char>,
)
    requires
        sorted(e),
    ensures
        contents(gathered_records(e, s, values)).contains_key(key) <==> holds(e, key),
        holds(e, key) ==> contents(gathered_records(e, s, values))[key] == values[key],
    decreases e.len(),
{
    let rs = gathered_records(e, s, values);
    lemma_holds_iff(e, key);
    if e.len() > 0 {
        let n = e.len() - 1;
        let front = e.drop_last();
        lemma_sorted_front(e);
        lemma_gathered_records_step(e, s, values);
        lemma_gathered_contents(front, s, values, key);
        lemma_holds_iff(front, key);
        if holds(front, key) {
            let i = choose|i: int| 0 <= i < front.len() && (#[trigger] front[i]).0 == key;
            assert(e[i].0 == key);
        }
        if holds(e, key) && key != e[n].0 {
            let i = choose|i: int| 0 <= i < e.len() && (#[trigger] e[i]).0 == key;
            assert(front[i].0 == key);
        }
    }
}

/// Compaction keeps every key with its value, and does not make the log
/// longer. Recovery from the compacted log gives the same keys, each pointing
/// at its record in the new log, and finds nothing left to reclaim.
pub proof fn lemma_compacted(s: Seq<u8>)
    requires
        well_formed(s),
        s.len() <= u64::MAX,
    ensures
        well_formed(compacted(s)),
        compacted(s).len() == total_len(recovered(s).entries),
        compacted(s).len() <= s.len(),
        contents_of(compacted(s)) == contents_of(s),
        recovered(compacted(s)).entries == relocated(recovered(s).entries),
        recovered(compacted(s)).uncompacted == 0,
        tail_of(records_of(compacted(s))) == compacted(s).len(),
{
    let e = recovered(s).entries;
    let values = contents_of(s);
    lemma_replay_sorted(records_of(s));
    lemma_replay_accounts(s, records_of(s));
    assert(points_into(e, s, values)) by {
        assert forall|i: int| 0 <= i < e.len() implies {
            &&& values.contains_key((#[trigger] e[i]).0)
            &&& e[i].1.pos + e[i].1.len <= s.len()
            &&& record_at(
                s,
                e[i].1.pos as int,
                e[i].1.pos + e[i].1.len,
                CommandView::SetValue { key: e[i].0, value: values[e[i].0] },
            )
        } by {
            lemma_lookup_entry(e, i);
            lemma_recovered_entry(s, e[i].0);
        }
    }
    lemma_gathered_parses(e, s, values);
    lemma_gathered_replay(e, s, values);
    let rs = gathered_records(e, s, values);
    lemma_records_of(compacted(s), rs);
    assert(contents(rs) =~= values) by {
        assert forall|key: Seq<char>| contents(rs).contains_key(key) <==> values.contains_key(
            key,
        ) by {
            lemma_gathered_contents(e, s, values, key);
            lemma_recovered_entry(s, key);
        }
        assert forall|key: Seq<char>| contents(rs).contains_key(key) implies contents(rs)[key]
            == values[key] by {
            lemma_gathered_contents(e, s, values, key);
        }
    }
}

} // verus!
