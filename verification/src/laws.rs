//! What holds of the store whatever it is asked to do.
//!
//! Each law is stated over the log of a store and over what the log holds,
//! as the contracts of `set`, `get`, `remove`, `open` and `compact` are.

use crate::command::CommandView;
use crate::compaction::{compacted, lemma_compacted};
use crate::index::{lookup, sorted, total_len};
use crate::record::{
    lemma_records_of, parses, record_at, record_bytes, records_of, well_formed, Record,
};
use crate::recovery::{
    contents, contents_of, lemma_appended, lemma_recovered_entry, lemma_replay_accounts,
    lemma_replay_sorted, recovered,
};
use crate::store::{after_remove, after_set, compacts_after_set, KvStore};
use vstd::prelude::*;

verus! {

/// What `set` does to a log, and to what the log holds: the log stays a run
/// of records, and holds what it held, with `key` set to `value`.
pub proof fn law_after_set(s: Seq<u8>, key: Seq<char>, value: Seq<char>)
    requires
        well_formed(s),
        s.len() + record_bytes(CommandView::SetValue { key, value }).len() <= usize::MAX,
    ensures
        well_formed(after_set(s, key, value)),
        after_set(s, key, value).len() <= s.len() + record_bytes(
            CommandView::SetValue { key, value },
        ).len(),
        contents_of(after_set(s, key, value)) == contents_of(s).insert(key, value),
{
    let command = CommandView::SetValue { key, value };
    lemma_appended(s, command);
    lemma_compacted(s + record_bytes(command));
}

/// What `remove` does to a log, and to what the log holds: the log stays a
/// run of records, and holds what it held, without `key`.
pub proof fn law_after_remove(s: Seq<u8>, key: Seq<char>)
    requires
        well_formed(s),
    ensures
        well_formed(after_remove(s, key)),
        contents_of(after_remove(s, key)) == contents_of(s).remove(key),
{
    lemma_appended(s, CommandView::Remove { key });
    assert(contents_of(s).remove(key) =~= contents_of(s) <== !contents_of(s).contains_key(key));
}

/// After `set(key, value)`, `get(key)` gives `value`, and `get` of any other
/// key gives what it gave before.
pub proof fn law_get_after_set(
    before: KvStore,
    after: KvStore,
    key: Seq<char>,
    value: Seq<char>,
    other: Seq<char>,
)
    requires
        before.wf(),
        before.log().len() + record_bytes(CommandView::SetValue { key, value }).len()
            <= usize::MAX,
        after.log() == after_set(before.log(), key, value),
    ensures
        after@.contains_key(key),
        after@[key] == value,
        other != key ==> after@.contains_key(other) == before@.contains_key(other),
        other != key && before@.contains_key(other) ==> after@[other] == before@[other],
{
    let command = CommandView::SetValue { key, value };
    lemma_appended(before.log(), command);
    let longer = before.log() + record_bytes(command);
    if compacts_after_set(before.log(), key, value) {
        lemma_compacted(longer);
    }
}

/// A store with an empty log holds no key: `get` gives `None`.
pub proof fn law_get_of_new(store: KvStore, key: Seq<char>)
    requires
        store.log() == Seq::<u8>::empty(),
    ensures
        !store@.contains_key(key),
{
    let none = Seq::<Record>::empty();
    assert(parses(store.log(), none));
    lemma_records_of(store.log(), none);
}

/// A key that no command of the log sets has no value: `get` gives `None`.
pub proof fn law_get_of_unwritten(store: KvStore, key: Seq<char>)
    requires
        forall|i: int|
            0 <= i < records_of(store.log()).len() ==> !((#[trigger] records_of(
                store.log(),
            )[i]).command matches CommandView::SetValue { key: k, .. } && k == key),
    ensures
        !store@.contains_key(key),
{
    lemma_contents_of_unwritten(records_of(store.log()), key);
}

/// Records of which none sets `key` give `key` no value.
proof fn lemma_contents_of_unwritten(rs: Seq<Record>, key: Seq<char>)
    requires
        forall|i: int|
            0 <= i < rs.len() ==> !((#[trigger] rs[i]).command matches CommandView::SetValue {
                key: k,
                ..
            } && k == key),
    ensures
        !contents(rs).contains_key(key),
    decreases rs.len(),
{
    if rs.len() > 0 {
        let front = rs.drop_last();
        assert forall|i: int| 0 <= i < front.len() implies !((#[trigger] front[i]).command matches CommandView::SetValue {
            key: k,
            ..
        } && k == key) by {
            assert(front[i] == rs[i]);
        }
        lemma_contents_of_unwritten(front, key);
        assert(rs.last() == rs[rs.len() - 1]);
    }
}

/// After `remove(key)`, `get(key)` gives `None`, and `get` of any other key
/// gives what it gave before.
pub proof fn law_get_after_remove(before: KvStore, after: KvStore, key: Seq<char>, other: Seq<char>)
    requires
        before.wf(),
        after.log() == after_remove(before.log(), key),
    ensures
        !after@.contains_key(key),
        other != key ==> after@.contains_key(other) == before@.contains_key(other),
        other != key && before@.contains_key(other) ==> after@[other] == before@[other],
{
    law_after_remove(before.log(), key);
}

/// Every pointer of the index leads to a record of the log that sets the
/// key of the pointer to the value that the store holds for it, and the keys
/// of the index are the keys that the store holds.
pub proof fn law_index_resolves(store: KvStore, key: Seq<char>)
    requires
        store.wf(),
    ensures
        match lookup(store.entries(), key) {
            Some(pointer) => {
                &&& store@.contains_key(key)
                &&& pointer.end() <= store.log().len()
                &&& record_at(
                    store.log(),
                    pointer.pos as int,
                    pointer.end(),
                    CommandView::SetValue { key, value: store@[key] },
                )
            },
            None => !store@.contains_key(key),
        },
{
    lemma_recovered_entry(store.log(), key);
}

/// The index is sorted by key, and what the store counts as reclaimable and
/// what its index points at together fit in the log.
pub proof fn law_accounts(store: KvStore)
    requires
        store.wf(),
    ensures
        sorted(store.entries()),
        0 <= store.uncompacted_bytes(),
        store.uncompacted_bytes() + total_len(store.entries()) <= store.tail() <= store.log().len(),
{
    lemma_replay_sorted(records_of(store.log()));
    lemma_replay_accounts(store.log(), records_of(store.log()));
}

/// A store that is opened on the log of another has the same index, counts
/// the same reclaimable bytes and holds the same keys with the same values.
pub proof fn law_reopen(store: KvStore, reopened: KvStore)
    requires
        store.wf(),
        reopened.wf(),
        reopened.log() == store.log(),
    ensures
        reopened.entries() == store.entries(),
        reopened.uncompacted_bytes() == store.uncompacted_bytes(),
        reopened.tail() == store.tail(),
        reopened@ == store@,
{
}

/// The log that a run of `set` and `remove` calls leaves behind, starting
/// from an empty store.
pub open spec fn log_after(calls: Seq<CommandView>) -> Seq<u8>
    decreases calls.len(),
{
    if calls.len() == 0 {
        Seq::empty()
    } else {
        match calls.last() {
            CommandView::SetValue { key, value } => after_set(
                log_after(calls.drop_last()),
                key,
                value,
            ),
            CommandView::Remove { key } => after_remove(log_after(calls.drop_last()), key),
        }
    }
}

/// The keys and values after a run of `set` and `remove` calls on an empty
/// map. A `remove` of a key that is not there changes nothing.
pub open spec fn map_after(calls: Seq<CommandView>) -> Map<Seq<char>, Seq<char>>
    decreases calls.len(),
{
    if calls.len() == 0 {
        Map::empty()
    } else {
        match calls.last() {
            CommandView::SetValue { key, value } => map_after(calls.drop_last()).insert(key, value),
            CommandView::Remove { key } => map_after(calls.drop_last()).remove(key),
        }
    }
}

/// No call makes the log longer than a machine can hold.
pub open spec fn within_limits(calls: Seq<CommandView>) -> bool
    decreases calls.len(),
{
    calls.len() > 0 ==> {
        &&& within_limits(calls.drop_last())
        &&& log_after(calls.drop_last()).len() + record_bytes(calls.last()).len() <= usize::MAX
    }
}

/// Recovery is faithful: the log that a run of calls leaves behind is a run
/// of records, and what it holds is what the calls make of an empty map. So
/// a store that is opened on that log answers `get` as the store that took
/// the calls.
pub proof fn law_recovery_is_faithful(calls: Seq<CommandView>)
    requires
        within_limits(calls),
    ensures
        well_formed(log_after(calls)),
        contents_of(log_after(calls)) == map_after(calls),
    decreases calls.len(),
{
    if calls.len() == 0 {
        let none = Seq::<Record>::empty();
        assert(parses(log_after(calls), none));
        lemma_records_of(log_after(calls), none);
    } else {
        law_recovery_is_faithful(calls.drop_last());
        match calls.last() {
            CommandView::SetValue { key, value } => {
                law_after_set(log_after(calls.drop_last()), key, value);
            },
            CommandView::Remove { key } => {
                law_after_remove(log_after(calls.drop_last()), key);
            },
        }
    }
}

/// Compaction keeps every key with its value, does not make the log longer
/// and leaves nothing to reclaim.
pub proof fn law_compaction(s: Seq<u8>)
    requires
        well_formed(s),
        s.len() <= usize::MAX,
    ensures
        well_formed(compacted(s)),
        contents_of(compacted(s)) == contents_of(s),
        compacted(s).len() <= s.len(),
        compacted(s).len() == total_len(recovered(s).entries),
        recovered(compacted(s)).uncompacted == 0,
{
    lemma_compacted(s);
}

} // verus!
