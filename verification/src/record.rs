//! Records: how commands lie in the log, one after the other.
//!
//! A record is the text of one command, with any white space that stands
//! before it. The log is a run of records from its first byte on, and may end
//! in white space. A record is appended as a carriage return, a line feed and
//! the text of its command.

use crate::command::{lemma_text_is_unique, lemma_text_starts_with_brace, Command, CommandView};
use crate::error::KvsError;
use crate::text::literal_at;
use vstd::prelude::*;

verus! {

/// White space between records: space, tab, line feed and carriage return.
pub open spec fn is_space(b: u8) -> bool {
    b == 0x20 || b == 0x09 || b == 0x0a || b == 0x0d
}

/// Every byte of `s` from `from` up to `to` is white space.
pub open spec fn spaces(s: Seq<u8>, from: int, to: int) -> bool {
    forall|i: int| from <= i < to ==> is_space(#[trigger] s[i])
}

/// What stands between two records that were appended: a carriage return
/// and a line feed.
pub open spec fn separator() -> Seq<u8> {
    seq![0x0du8, 0x0au8]
}

/// The bytes that are appended to the log for `command`.
pub open spec fn record_bytes(command: CommandView) -> Seq<u8> {
    separator() + command.text()
}

/// One record of a log: its command, where the record starts, where the text
/// of the command starts after the white space, and where the record ends.
pub struct Record {
    pub command: CommandView,
    pub start: int,
    pub body: int,
    pub end: int,
}

impl Record {
    /// The record lies in `s` as it says.
    pub open spec fn fits(self, s: Seq<u8>) -> bool {
        &&& 0 <= self.start <= self.body
        &&& spaces(s, self.start, self.body)
        &&& literal_at(s, self.body, self.command.text())
        &&& self.end == self.body + self.command.text().len()
    }

    /// The same record, `by` bytes further on.
    pub open spec fn shifted(self, by: int) -> Record {
        Record {
            command: self.command,
            start: self.start + by,
            body: self.body + by,
            end: self.end + by,
        }
    }
}

/// The record of `command` lies in `s` from `start` to `end`, its text from
/// `body` on.
pub open spec fn framed(s: Seq<u8>, start: int, body: int, end: int, command: CommandView) -> bool {
    (Record { command, start, body, end }).fits(s)
}

/// The record of `command` lies in `s` from `start` to `end`.
pub open spec fn record_at(s: Seq<u8>, start: int, end: int, command: CommandView) -> bool {
    exists|body: int| #[trigger] framed(s, start, body, end, command)
}

/// Where the records `rs` end: where the next record would start.
pub open spec fn tail_of(rs: Seq<Record>) -> int {
    if rs.len() == 0 {
        0
    } else {
        rs.last().end
    }
}

/// The records `rs` lie in `s` one after the other, from its first byte on.
pub open spec fn chained(s: Seq<u8>, rs: Seq<Record>) -> bool {
    &&& rs.len() > 0 ==> rs[0].start == 0
    &&& forall|i: int| 0 <= i < rs.len() ==> (#[trigger] rs[i]).fits(s)
    &&& forall|i: int, j: int|
        #![trigger rs[i], rs[j]]
        0 <= i && j == i + 1 && j < rs.len() ==> rs[j].start == rs[i].end
}

/// `rs` are the records of the log `s`: they lie in it one after the other,
/// and only white space follows the last.
pub open spec fn parses(s: Seq<u8>, rs: Seq<Record>) -> bool {
    chained(s, rs) && spaces(s, tail_of(rs), s.len() as int)
}

/// The log `s` is a run of records.
pub open spec fn well_formed(s: Seq<u8>) -> bool {
    exists|rs: Seq<Record>| parses(s, rs)
}

/// The records of the log `s`.
pub open spec fn records_of(s: Seq<u8>) -> Seq<Record> {
    choose|rs: Seq<Record>| parses(s, rs)
}

/// The record that `command` makes when it is appended to a log of `len`
/// bytes whose records end at `tail`.
pub open spec fn appended_record(tail: int, len: int, command: CommandView) -> Record {
    Record {
        command,
        start: tail,
        body: len + separator().len(),
        end: len + record_bytes(command).len(),
    }
}

/// A record ends after it starts, inside the log.
pub proof fn lemma_fits_bounds(s: Seq<u8>, r: Record)
    requires
        r.fits(s),
    ensures
        0 <= r.start <= r.body < r.end <= s.len(),
        !is_space(s[r.body]),
{
    lemma_text_starts_with_brace(r.command);
    assert(s.subrange(r.body, r.body + r.command.text().len())[0] == s[r.body]);
}

/// Two records that start at the same offset of a log are the same record.
pub proof fn lemma_fits_unique(s: Seq<u8>, a: Record, b: Record)
    requires
        a.fits(s),
        b.fits(s),
        a.start == b.start,
    ensures
        a == b,
{
    lemma_fits_bounds(s, a);
    lemma_fits_bounds(s, b);
    if a.body < b.body {
        assert(is_space(s[a.body]));
    } else if b.body < a.body {
        assert(is_space(s[b.body]));
    }
    lemma_text_is_unique(s, a.body, a.command, b.command);
}

/// A record lies in the same way in any log that has the same bytes in the
/// same place.
pub proof fn lemma_fits_moved(s: Seq<u8>, r: Record, t: Seq<u8>, by: int)
    requires
        r.fits(s),
        0 <= r.start + by,
        r.end + by <= t.len(),
        t.subrange(r.start + by, r.end + by) == s.subrange(r.start, r.end),
    ensures
        r.shifted(by).fits(t),
{
    lemma_fits_bounds(s, r);
    let moved = r.shifted(by);
    assert forall|i: int| moved.start <= i < moved.end implies t[i] == s[i - by] by {
        assert(t.subrange(r.start + by, r.end + by)[i - moved.start] == t[i]);
        assert(s.subrange(r.start, r.end)[i - moved.start] == s[i - by]);
    }
    assert(t.subrange(moved.body, moved.end) =~= s.subrange(r.body, r.end));
}

/// Records that lie in a log lie in every log that it is the start of.
pub proof fn lemma_chained_extends(s: Seq<u8>, rs: Seq<Record>, more: Seq<u8>)
    requires
        chained(s, rs),
    ensures
        chained(s + more, rs),
{
    let t = s + more;
    assert forall|i: int| 0 <= i < rs.len() implies (#[trigger] rs[i]).fits(t) by {
        lemma_fits_bounds(s, rs[i]);
        assert(t.subrange(rs[i].start, rs[i].end) =~= s.subrange(rs[i].start, rs[i].end));
        lemma_fits_moved(s, rs[i], t, 0);
        assert(rs[i].shifted(0) == rs[i]);
    }
}

/// The records of a log end inside it, each after the one before.
pub proof fn lemma_chained_bounds(s: Seq<u8>, rs: Seq<Record>)
    requires
        chained(s, rs),
    ensures
        0 <= tail_of(rs) <= s.len(),
        forall|i: int| 0 <= i < rs.len() ==> (#[trigger] rs[i]).end <= tail_of(rs),
    decreases rs.len(),
{
    if rs.len() > 0 {
        let front = rs.drop_last();
        lemma_chained_front(s, rs, rs.len() - 1);
        assert(rs.take(rs.len() - 1) =~= front);
        lemma_chained_bounds(s, front);
        lemma_fits_bounds(s, rs.last());
        if front.len() > 0 {
            assert(rs[rs.len() - 1].start == rs[rs.len() - 2].end);
            assert(front.last() == rs[rs.len() - 2]);
        }
        assert forall|i: int| 0 <= i < rs.len() implies (#[trigger] rs[i]).end <= tail_of(rs) by {
            if i < rs.len() - 1 {
                assert(front[i] == rs[i]);
            }
        }
    }
}

/// The first `n` of the records of a log lie in it one after the other.
pub proof fn lemma_chained_front(s: Seq<u8>, rs: Seq<Record>, n: int)
    requires
        chained(s, rs),
        0 <= n <= rs.len(),
    ensures
        chained(s, rs.take(n)),
{
    let front = rs.take(n);
    assert forall|i: int| 0 <= i < front.len() implies (#[trigger] front[i]).fits(s) by {
        assert(front[i] == rs[i]);
    }
    assert forall|i: int, j: int|
        #![trigger front[i], front[j]]
        0 <= i && j == i + 1 && j < front.len() implies front[j].start == front[i].end by {
        assert(front[i] == rs[i] && front[j] == rs[j]);
    }
}

/// One more record that lies where the others end makes a longer run.
pub proof fn lemma_chained_push(s: Seq<u8>, rs: Seq<Record>, r: Record)
    requires
        chained(s, rs),
        r.fits(s),
        r.start == tail_of(rs),
    ensures
        chained(s, rs.push(r)),
        tail_of(rs.push(r)) == r.end,
{
    let longer = rs.push(r);
    assert forall|i: int| 0 <= i < longer.len() implies (#[trigger] longer[i]).fits(s) by {
        if i < rs.len() {
            assert(longer[i] == rs[i]);
        }
    }
    assert forall|i: int, j: int|
        #![trigger longer[i], longer[j]]
        0 <= i && j == i + 1 && j < longer.len() implies longer[j].start == longer[i].end by {
        assert(longer[i] == rs[i]);
        if j < rs.len() {
            assert(longer[j] == rs[j]);
        }
    }
    if rs.len() > 0 {
        assert(longer[0] == rs[0]);
    }
}

/// Of two runs of records in one log, the shorter is the start of the longer.
pub proof fn lemma_chained_agree(s: Seq<u8>, a: Seq<Record>, b: Seq<Record>, n: int)
    requires
        chained(s, a),
        chained(s, b),
        0 <= n <= a.len(),
        n <= b.len(),
    ensures
        a.take(n) == b.take(n),
    decreases n,
{
    if n == 0 {
        assert(a.take(0) =~= b.take(0));
    } else {
        lemma_chained_agree(s, a, b, n - 1);
        if n > 1 {
            assert(a[n - 1].start == a[n - 2].end);
            assert(b[n - 1].start == b[n - 2].end);
            assert(a.take(n - 1)[n - 2] == b.take(n - 1)[n - 2]);
        }
        lemma_fits_unique(s, a[n - 1], b[n - 1]);
        assert(a.take(n) =~= a.take(n - 1).push(a[n - 1]));
        assert(b.take(n) =~= b.take(n - 1).push(b[n - 1]));
    }
}

/// A log has only one run of records.
pub proof fn lemma_parses_unique(s: Seq<u8>, a: Seq<Record>, b: Seq<Record>)
    requires
        parses(s, a),
        parses(s, b),
    ensures
        a == b,
{
    let n = if a.len() <= b.len() {
        a.len() as int
    } else {
        b.len() as int
    };
    lemma_chained_agree(s, a, b, n);
    if a.len() <= b.len() {
        assert(a.take(n) =~= a);
        lemma_no_record_in_spaces(s, a, b);
    } else {
        assert(b.take(n) =~= b);
        lemma_no_record_in_spaces(s, b, a);
    }
    assert(a.take(n) =~= a);
    assert(b.take(n) =~= b);
}

/// Where only white space follows a run of records, no longer run lies in the log.
proof fn lemma_no_record_in_spaces(s: Seq<u8>, a: Seq<Record>, b: Seq<Record>)
    requires
        chained(s, a),
        chained(s, b),
        a.len() <= b.len(),
        a == b.take(a.len() as int),
        spaces(s, tail_of(a), s.len() as int),
    ensures
        a.len() == b.len(),
{
    if a.len() < b.len() {
        let next = b[a.len() as int];
        if a.len() > 0 {
            assert(next.start == b[a.len() - 1].end);
            assert(b.take(a.len() as int)[a.len() - 1] == b[a.len() - 1]);
        }
        assert(next.start == tail_of(a));
        lemma_fits_bounds(s, next);
        assert(is_space(s[next.body]));
    }
}

/// A run of records in a log is the start of the records of the log.
pub proof fn lemma_chained_is_front(s: Seq<u8>, rs: Seq<Record>, all: Seq<Record>)
    requires
        chained(s, rs),
        parses(s, all),
    ensures
        rs.len() <= all.len(),
        rs == all.take(rs.len() as int),
{
    if all.len() < rs.len() {
        lemma_chained_agree(s, all, rs, all.len() as int);
        assert(all.take(all.len() as int) =~= all);
        lemma_no_record_in_spaces(s, all, rs);
    }
    lemma_chained_agree(s, rs, all, rs.len() as int);
    assert(rs.take(rs.len() as int) =~= rs);
}

/// The records that a log parses into are its records.
pub proof fn lemma_records_of(s: Seq<u8>, rs: Seq<Record>)
    requires
        parses(s, rs),
    ensures
        well_formed(s),
        records_of(s) == rs,
{
    lemma_parses_unique(s, rs, records_of(s));
}

/// A log with one more command appended has one more record.
pub proof fn lemma_parses_appended(s: Seq<u8>, rs: Seq<Record>, command: CommandView)
    requires
        parses(s, rs),
    ensures
        parses(
            s + record_bytes(command),
            rs.push(appended_record(tail_of(rs), s.len() as int, command)),
        ),
{
    let t = s + record_bytes(command);
    let r = appended_record(tail_of(rs), s.len() as int, command);
    lemma_chained_bounds(s, rs);
    lemma_chained_extends(s, rs, record_bytes(command));
    assert(r.fits(t)) by {
        assert forall|i: int| r.start <= i < r.body implies is_space(#[trigger] t[i]) by {
            if i < s.len() {
                assert(t[i] == s[i]);
            } else {
                assert(t[i] == record_bytes(command)[i - s.len()]);
            }
        }
        assert(t.subrange(r.body, r.end) =~= command.text());
    }
    lemma_chained_push(t, rs, r);
}

/// Skips the white space from `start` on.
fn skip_spaces(bytes: &[u8], start: usize) -> (at: usize)
    requires
        start <= bytes@.len(),
    ensures
        start <= at <= bytes@.len(),
        spaces(bytes@, start as int, at as int),
        at < bytes@.len() ==> !is_space(bytes@[at as int]),
{
    let mut at: usize = start;
    while at < bytes.len() && (bytes[at] == 0x20 || bytes[at] == 0x09 || bytes[at] == 0x0a
        || bytes[at] == 0x0d)
        invariant
            start <= at <= bytes@.len(),
            spaces(bytes@, start as int, at as int),
        decreases bytes@.len() - at,
    {
        at += 1;
    }
    at
}

/// Reads the record that starts at `start`: its command, and where the record
/// ends. `Ok(None)` where only white space is left; an error where something
/// is left that is not a record.
pub fn next_record(bytes: &[u8], start: usize) -> (r: Result<Option<(Command, usize)>, KvsError>)
    requires
        start <= bytes@.len(),
    ensures
        match r {
            Ok(Some((command, end))) => record_at(bytes@, start as int, end as int, command@),
            Ok(None) => spaces(bytes@, start as int, bytes@.len() as int),
            Err(e) => e is Serialization && !spaces(bytes@, start as int, bytes@.len() as int)
                && forall|next: Record| next.start == start ==> !#[trigger] next.fits(bytes@),
        },
{
    let body = skip_spaces(bytes, start);
    if body >= bytes.len() {
        return Ok(None);
    }
    match Command::read_at(bytes, body) {
        Some((command, end)) => {
            assert(framed(bytes@, start as int, body as int, end as int, command@));
            Ok(Some((command, end)))
        },
        None => {
            assert forall|next: Record| next.start == start implies !#[trigger] next.fits(
                bytes@,
            ) by {
                if next.fits(bytes@) {
                    lemma_fits_bounds(bytes@, next);
                    if next.body < body {
                        assert(is_space(bytes@[next.body]));
                    } else if body < next.body {
                        assert(is_space(bytes@[body as int]));
                    }
                    assert(literal_at(bytes@, body as int, next.command.text()));
                }
            }
            Err(KvsError::Serialization)
        },
    }
}

/// Reads the one record that `bytes` are.
pub fn read_record(bytes: &[u8]) -> (r: Result<Command, KvsError>)
    ensures
        match r {
            Ok(command) => record_at(bytes@, 0, bytes@.len() as int, command@),
            Err(e) => e is Serialization && forall|one: Record|
                one.start == 0 && one.end == bytes@.len() ==> !#[trigger] one.fits(bytes@),
        },
{
    match next_record(bytes, 0) {
        Ok(Some((command, end))) => {
            if end == bytes.len() {
                Ok(command)
            } else {
                proof {
                    let body = choose|body: int| #[trigger]
                        framed(bytes@, 0, body, end as int, command@);
                    let found = Record { command: command@, start: 0, body, end: end as int };
                    assert forall|one: Record|
                        one.start == 0 && one.end == bytes@.len() implies !#[trigger] one.fits(
                        bytes@,
                    ) by {
                        if one.fits(bytes@) {
                            lemma_fits_unique(bytes@, one, found);
                        }
                    }
                }
                Err(KvsError::Serialization)
            }
        },
        Ok(None) => {
            proof {
                assert forall|one: Record|
                    one.start == 0 && one.end == bytes@.len() implies !#[trigger] one.fits(
                    bytes@,
                ) by {
                    if one.fits(bytes@) {
                        lemma_fits_bounds(bytes@, one);
                        assert(is_space(bytes@[one.body]));
                    }
                }
            }
            Err(KvsError::Serialization)
        },
        Err(e) => Err(e),
    }
}

/// The bytes that are appended to the log for `command`.
pub fn encode_record(command: &Command) -> (bytes: Vec<u8>)
    ensures
        bytes@ == record_bytes(command@),
{
    let mut bytes: Vec<u8> = Vec::new();
    bytes.push(0x0d);
    bytes.push(0x0a);
    command.write_to(&mut bytes);
    assert(bytes@ =~= record_bytes(command@));
    bytes
}

} // verus!
