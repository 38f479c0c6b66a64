//! The index: for each live key, where its latest `Set` record lies in the
//! log. Entries are kept in the order of their keys, and no key occurs twice.
//!
//! Keys are ordered as strings are: byte by byte over their UTF-8 encoding,
//! a proper prefix before what it is a prefix of.

use crate::pointer::Pointer;
use vstd::prelude::*;
use vstd::utf8::*;

verus! {

/// What an index holds: its keys with their pointers, in key order.
pub type Entries = Seq<(Seq<char>, Pointer)>;

/// `a` comes before `b`: at the first offset where they differ `a` has the
/// smaller byte, or `a` ends there and `b` does not.
pub open spec fn bytes_lt(a: Seq<u8>, b: Seq<u8>) -> bool {
    exists|i: int| #[trigger] differ_at(a, b, i)
}

/// `a` and `b` agree before offset `i`, and there `a` is the smaller.
pub open spec fn differ_at(a: Seq<u8>, b: Seq<u8>, i: int) -> bool {
    &&& 0 <= i <= a.len()
    &&& i < b.len()
    &&& a.take(i) == b.take(i)
    &&& i < a.len() ==> a[i] < b[i]
}

/// The key `a` comes before the key `b`.
pub open spec fn key_lt(a: Seq<char>, b: Seq<char>) -> bool {
    bytes_lt(encode_utf8(a), encode_utf8(b))
}

/// The keys of `e` stand in strictly increasing order.
pub open spec fn sorted(e: Entries) -> bool {
    forall|i: int, j: int| 0 <= i < j < e.len() ==> key_lt((#[trigger] e[i]).0, (#[trigger] e[j]).0)
}

/// The entries before offset `p` have keys before `key`, the others have not.
pub open spec fn splits_at(e: Entries, key: Seq<char>, p: int) -> bool {
    &&& 0 <= p <= e.len()
    &&& forall|i: int| 0 <= i < p ==> key_lt((#[trigger] e[i]).0, key)
    &&& forall|i: int| p <= i < e.len() ==> !key_lt((#[trigger] e[i]).0, key)
}

/// Where `key` stands in `e`, or would stand if it were there.
pub open spec fn position(e: Entries, key: Seq<char>) -> int {
    choose|p: int| splits_at(e, key, p)
}

/// Whether `e` has an entry for `key`.
pub open spec fn holds(e: Entries, key: Seq<char>) -> bool {
    0 <= position(e, key) < e.len() && e[position(e, key)].0 == key
}

/// The pointer that `e` has for `key`.
pub open spec fn lookup(e: Entries, key: Seq<char>) -> Option<Pointer> {
    if holds(e, key) {
        Some(e[position(e, key)].1)
    } else {
        None
    }
}

/// `e` with `key` pointing at `pointer`, in place of what `key` had before.
pub open spec fn inserted(e: Entries, key: Seq<char>, pointer: Pointer) -> Entries {
    if holds(e, key) {
        e.update(position(e, key), (key, pointer))
    } else {
        e.insert(position(e, key), (key, pointer))
    }
}

/// `e` without its entry for `key`.
pub open spec fn removed(e: Entries, key: Seq<char>) -> Entries {
    if holds(e, key) {
        e.remove(position(e, key))
    } else {
        e
    }
}

/// The lengths of all the records that `e` points at, added up.
pub open spec fn total_len(e: Entries) -> nat
    decreases e.len(),
{
    if e.len() == 0 {
        0
    } else {
        total_len(e.drop_last()) + e.last().1.len as nat
    }
}

/// No sequence of bytes comes before itself.
pub proof fn lemma_bytes_lt_irreflexive(a: Seq<u8>)
    ensures
        !bytes_lt(a, a),
{
}

/// The order of byte sequences is transitive.
pub proof fn lemma_bytes_lt_transitive(a: Seq<u8>, b: Seq<u8>, c: Seq<u8>)
    requires
        bytes_lt(a, b),
        bytes_lt(b, c),
    ensures
        bytes_lt(a, c),
{
    let i = choose|i: int| differ_at(a, b, i);
    let j = choose|j: int| differ_at(b, c, j);
    let m = if i <= j {
        i
    } else {
        j
    };
    assert(a.take(m) =~= c.take(m)) by {
        assert forall|n: int| 0 <= n < m implies a[n] == c[n] by {
            assert(a.take(i)[n] == b.take(i)[n]);
            assert(b.take(j)[n] == c.take(j)[n]);
        }
    }
    if i < j {
        assert(b.take(j)[i] == c.take(j)[i]);
    } else if j < i {
        assert(a.take(i)[j] == b.take(i)[j]);
    }
    assert(differ_at(a, c, m));
}

/// No key comes before itself, and two keys do not come before each other.
pub proof fn lemma_key_lt_asymmetric(a: Seq<char>, b: Seq<char>)
    ensures
        !(key_lt(a, b) && key_lt(b, a)),
        !key_lt(a, a),
{
    lemma_bytes_lt_irreflexive(encode_utf8(a));
    if key_lt(a, b) && key_lt(b, a) {
        lemma_bytes_lt_transitive(encode_utf8(a), encode_utf8(b), encode_utf8(a));
    }
}

/// The order of keys is transitive.
pub proof fn lemma_key_lt_transitive(a: Seq<char>, b: Seq<char>, c: Seq<char>)
    requires
        key_lt(a, b),
        key_lt(b, c),
    ensures
        key_lt(a, c),
{
    lemma_bytes_lt_transitive(encode_utf8(a), encode_utf8(b), encode_utf8(c));
}

/// Of two different keys one comes before the other.
pub proof fn lemma_key_lt_total(a: Seq<char>, b: Seq<char>)
    ensures
        a == b || key_lt(a, b) || key_lt(b, a),
{
    let x = encode_utf8(a);
    let y = encode_utf8(b);
    if a != b {
        encode_utf8_decode_utf8(a);
        encode_utf8_decode_utf8(b);
        assert(x.take(0) =~= y.take(0));
        lemma_bytes_lt_total(x, y, 0);
    }
}

/// Two sequences of bytes that agree before offset `i` and are not the same
/// stand one before the other.
proof fn lemma_bytes_lt_total(x: Seq<u8>, y: Seq<u8>, i: int)
    requires
        0 <= i <= x.len(),
        i <= y.len(),
        x.take(i) == y.take(i),
        x != y,
    ensures
        bytes_lt(x, y) || bytes_lt(y, x),
    decreases x.len() - i,
{
    if i == x.len() {
        if i == y.len() {
            assert(x.take(i) =~= x);
            assert(y.take(i) =~= y);
        } else {
            assert(differ_at(x, y, i));
        }
    } else if i == y.len() {
        assert(differ_at(y, x, i));
    } else if x[i] < y[i] {
        assert(differ_at(x, y, i));
    } else if y[i] < x[i] {
        assert(differ_at(y, x, i));
    } else {
        assert(x.take(i + 1) =~= x.take(i).push(x[i]));
        assert(y.take(i + 1) =~= y.take(i).push(y[i]));
        lemma_bytes_lt_total(x, y, i + 1);
    }
}

/// In a sorted index only one offset splits the entries around a key.
pub proof fn lemma_position_is(e: Entries, key: Seq<char>, p: int)
    requires
        splits_at(e, key, p),
    ensures
        position(e, key) == p,
{
    let q = position(e, key);
    if q < p {
        assert(key_lt(e[q].0, key));
    } else if p < q {
        assert(key_lt(e[p].0, key));
    }
}

/// In a sorted index every key has a place.
pub proof fn lemma_position_exists(e: Entries, key: Seq<char>)
    requires
        sorted(e),
    ensures
        splits_at(e, key, position(e, key)),
    decreases e.len(),
{
    if e.len() == 0 {
        assert(splits_at(e, key, 0));
    } else {
        let front = e.drop_last();
        assert(sorted(front)) by {
            assert forall|i: int, j: int| 0 <= i < j < front.len() implies key_lt(
                (#[trigger] front[i]).0,
                (#[trigger] front[j]).0,
            ) by {
                assert(front[i] == e[i] && front[j] == e[j]);
            }
        }
        lemma_position_exists(front, key);
        let p = position(front, key);
        if key_lt(e.last().0, key) {
            assert(splits_at(e, key, e.len() as int)) by {
                assert forall|i: int| 0 <= i < e.len() implies key_lt((#[trigger] e[i]).0, key) by {
                    if i < e.len() - 1 {
                        lemma_key_lt_transitive(e[i].0, e.last().0, key);
                    }
                }
            }
        } else {
            assert(splits_at(e, key, p)) by {
                assert forall|i: int| 0 <= i < p implies key_lt((#[trigger] e[i]).0, key) by {
                    assert(front[i] == e[i]);
                }
                assert forall|i: int| p <= i < e.len() implies !key_lt((#[trigger] e[i]).0, key) by {
                    if i < e.len() - 1 {
                        assert(front[i] == e[i]);
                    }
                }
            }
        }
    }
}

/// In a sorted index the key of an entry leads to that entry.
pub proof fn lemma_lookup_entry(e: Entries, i: int)
    requires
        sorted(e),
        0 <= i < e.len(),
    ensures
        position(e, e[i].0) == i,
        holds(e, e[i].0),
        lookup(e, e[i].0) == Some(e[i].1),
{
    let key = e[i].0;
    assert(splits_at(e, key, i)) by {
        assert forall|j: int| i <= j < e.len() implies !key_lt((#[trigger] e[j]).0, key) by {
            lemma_key_lt_asymmetric(e[j].0, key);
        }
    }
    lemma_position_is(e, key, i);
}

/// In a sorted index a key is held exactly if some entry has it.
pub proof fn lemma_holds_iff(e: Entries, key: Seq<char>)
    requires
        sorted(e),
    ensures
        holds(e, key) <==> exists|i: int| 0 <= i < e.len() && (#[trigger] e[i]).0 == key,
{
    lemma_position_exists(e, key);
    if holds(e, key) {
        assert(e[position(e, key)].0 == key);
    }
    if exists|i: int| 0 <= i < e.len() && (#[trigger] e[i]).0 == key {
        let i = choose|i: int| 0 <= i < e.len() && (#[trigger] e[i]).0 == key;
        lemma_lookup_entry(e, i);
    }
}

/// Putting a key into a sorted index keeps it sorted, points the key at its
/// new pointer and leaves every other key as it was.
pub proof fn lemma_inserted(e: Entries, key: Seq<char>, pointer: Pointer, other: Seq<char>)
    requires
        sorted(e),
    ensures
        sorted(inserted(e, key, pointer)),
        lookup(inserted(e, key, pointer), key) == Some(pointer),
        other != key ==> lookup(inserted(e, key, pointer), other) == lookup(e, other),
        inserted(e, key, pointer).len() == e.len() + if holds(e, key) {
            0int
        } else {
            1int
        },
{
    let p = position(e, key);
    let after = inserted(e, key, pointer);
    lemma_position_exists(e, key);
    assert(sorted(after)) by {
        assert forall|i: int, j: int| 0 <= i < j < after.len() implies key_lt(
            (#[trigger] after[i]).0,
            (#[trigger] after[j]).0,
        ) by {
            lemma_inserted_sorted_pair(e, key, pointer, i, j);
        }
    }
    lemma_lookup_entry(after, p);
    if other != key {
        lemma_holds_iff(e, other);
        lemma_holds_iff(after, other);
        lemma_position_exists(e, other);
        lemma_position_exists(after, other);
        if holds(e, other) {
            let q = position(e, other);
            let q2 = if !holds(e, key) && p <= q {
                q + 1
            } else {
                q
            };
            assert(after[q2] == e[q]);
            lemma_lookup_entry(after, q2);
        } else if holds(after, other) {
            let r = position(after, other);
            let r0 = if !holds(e, key) && p < r {
                r - 1
            } else {
                r
            };
            assert(after[r] == e[r0]);
        }
    }
}

/// In a sorted index, a key that stands at or after its position stands at it.
proof fn lemma_find_from(e: Entries, key: Seq<char>, p: int, i: int)
    requires
        sorted(e),
        splits_at(e, key, p),
        p <= i < e.len(),
        e[i].0 == key,
    ensures
        i == p,
{
    if p < i {
        assert(key_lt(e[p].0, e[i].0));
        assert(!key_lt(e[p].0, key));
    }
}

/// After a key is put into a sorted index, any two entries stand in order.
proof fn lemma_inserted_sorted_pair(e: Entries, key: Seq<char>, pointer: Pointer, i: int, j: int)
    requires
        sorted(e),
        splits_at(e, key, position(e, key)),
        0 <= i < j < inserted(e, key, pointer).len(),
    ensures
        key_lt(inserted(e, key, pointer)[i].0, inserted(e, key, pointer)[j].0),
{
    let p = position(e, key);
    let after = inserted(e, key, pointer);
    if holds(e, key) {
        assert(after[i].0 == e[i].0);
        assert(after[j].0 == e[j].0);
    } else {
        if j < p {
            assert(after[i] == e[i] && after[j] == e[j]);
        } else if j == p {
            assert(after[i] == e[i]);
        } else if i < p {
            assert(after[i] == e[i] && after[j] == e[j - 1]);
        } else if i == p {
            assert(after[j] == e[j - 1]);
            assert(!key_lt(e[j - 1].0, key));
            lemma_key_lt_total(e[j - 1].0, key);
            if e[j - 1].0 == key {
                lemma_find_from(e, key, p, j - 1);
            }
        } else {
            assert(after[i] == e[i - 1] && after[j] == e[j - 1]);
        }
    }
}

/// Taking a key out of a sorted index keeps it sorted, leaves nothing for
/// that key and leaves every other key as it was.
pub proof fn lemma_removed(e: Entries, key: Seq<char>, other: Seq<char>)
    requires
        sorted(e),
    ensures
        sorted(removed(e, key)),
        lookup(removed(e, key), key) is None,
        other != key ==> lookup(removed(e, key), other) == lookup(e, other),
        removed(e, key).len() == e.len() - if holds(e, key) {
            1int
        } else {
            0int
        },
{
    let p = position(e, key);
    let after = removed(e, key);
    lemma_position_exists(e, key);
    if holds(e, key) {
        assert forall|i: int| 0 <= i < after.len() implies #[trigger] after[i] == e[if i < p {
            i
        } else {
            i + 1
        }] by {}
        assert(sorted(after)) by {
            assert forall|i: int, j: int| 0 <= i < j < after.len() implies key_lt(
                (#[trigger] after[i]).0,
                (#[trigger] after[j]).0,
            ) by {
                let i0 = if i < p {
                    i
                } else {
                    i + 1
                };
                let j0 = if j < p {
                    j
                } else {
                    j + 1
                };
                assert(after[i] == e[i0] && after[j] == e[j0]);
            }
        }
        lemma_holds_iff(after, key);
        lemma_position_exists(after, key);
        if holds(after, key) {
            let r = position(after, key);
            let r0 = if r < p {
                r
            } else {
                r + 1
            };
            assert(after[r] == e[r0]);
            lemma_lookup_entry(e, r0);
        }
        if other != key {
            lemma_holds_iff(e, other);
            lemma_holds_iff(after, other);
            lemma_position_exists(e, other);
            lemma_position_exists(after, other);
            if holds(e, other) {
                let q = position(e, other);
                let q2 = if q < p {
                    q
                } else {
                    q - 1
                };
                assert(after[q2] == e[q]);
                lemma_lookup_entry(after, q2);
            } else if holds(after, other) {
                let r = position(after, other);
                let r0 = if r < p {
                    r
                } else {
                    r + 1
                };
                assert(after[r] == e[r0]);
            }
        }
    }
}

/// The lengths add up over two parts of an index.
pub proof fn lemma_total_len_concat(a: Entries, b: Entries)
    ensures
        total_len(a + b) == total_len(a) + total_len(b),
    decreases b.len(),
{
    if b.len() == 0 {
        assert(a + b =~= a);
    } else {
        lemma_total_len_concat(a, b.drop_last());
        assert((a + b).drop_last() =~= a + b.drop_last());
    }
}

/// One entry adds up to the length of its record.
proof fn lemma_total_len_one(entry: (Seq<char>, Pointer))
    ensures
        total_len(seq![entry]) == entry.1.len,
{
    assert(seq![entry].drop_last() =~= Seq::<(Seq<char>, Pointer)>::empty());
    assert(total_len(Seq::<(Seq<char>, Pointer)>::empty()) == 0);
}

/// How the sum of the lengths changes when a key is put in.
pub proof fn lemma_inserted_total_len(e: Entries, key: Seq<char>, pointer: Pointer)
    requires
        sorted(e),
    ensures
        total_len(inserted(e, key, pointer)) + (match lookup(e, key) {
            Some(old) => old.len as nat,
            None => 0nat,
        }) == total_len(e) + pointer.len,
{
    let p = position(e, key);
    lemma_position_exists(e, key);
    let one = seq![(key, pointer)];
    lemma_total_len_one((key, pointer));
    lemma_total_len_concat(e.take(p), e.skip(p));
    assert(e.take(p) + e.skip(p) =~= e);
    if holds(e, key) {
        let old = seq![e[p]];
        lemma_total_len_one(e[p]);
        assert(e.skip(p) =~= old + e.skip(p + 1));
        lemma_total_len_concat(old, e.skip(p + 1));
        assert(inserted(e, key, pointer) =~= e.take(p) + (one + e.skip(p + 1)));
        lemma_total_len_concat(one, e.skip(p + 1));
        lemma_total_len_concat(e.take(p), one + e.skip(p + 1));
    } else {
        assert(inserted(e, key, pointer) =~= e.take(p) + (one + e.skip(p)));
        lemma_total_len_concat(one, e.skip(p));
        lemma_total_len_concat(e.take(p), one + e.skip(p));
    }
}

/// How the sum of the lengths changes when a key is taken out.
pub proof fn lemma_removed_total_len(e: Entries, key: Seq<char>)
    requires
        sorted(e),
    ensures
        total_len(removed(e, key)) + (match lookup(e, key) {
            Some(old) => old.len as nat,
            None => 0nat,
        }) == total_len(e),
{
    let p = position(e, key);
    lemma_position_exists(e, key);
    if holds(e, key) {
        let old = seq![e[p]];
        lemma_total_len_one(e[p]);
        lemma_total_len_concat(e.take(p), e.skip(p));
        assert(e.take(p) + e.skip(p) =~= e);
        assert(e.skip(p) =~= old + e.skip(p + 1));
        lemma_total_len_concat(old, e.skip(p + 1));
        assert(removed(e, key) =~= e.take(p) + e.skip(p + 1));
        lemma_total_len_concat(e.take(p), e.skip(p + 1));
    }
}

/// How two keys stand to each other.
enum KeyOrder {
    Before,
    Same,
    After,
}

/// How the key `a` stands to the key `b`.
fn key_order(a: &str, b: &str) -> (r: KeyOrder)
    ensures
        match r {
            KeyOrder::Before => key_lt(a@, b@),
            KeyOrder::Same => a@ == b@,
            KeyOrder::After => key_lt(b@, a@),
        },
{
    let x = a.as_bytes();
    let y = b.as_bytes();
    let mut i: usize = 0;
    assert(x@.take(0) =~= y@.take(0));
    while i < x.len() && i < y.len()
        invariant
            i <= x@.len(),
            i <= y@.len(),
            x@ == encode_utf8(a@),
            y@ == encode_utf8(b@),
            x@.take(i as int) == y@.take(i as int),
        decreases x@.len() - i,
    {
        if x[i] < y[i] {
            assert(differ_at(x@, y@, i as int));
            return KeyOrder::Before;
        }
        if y[i] < x[i] {
            assert(differ_at(y@, x@, i as int));
            return KeyOrder::After;
        }
        assert(x@.take(i + 1) =~= x@.take(i as int).push(x@[i as int]));
        assert(y@.take(i + 1) =~= y@.take(i as int).push(y@[i as int]));
        i += 1;
    }
    if i < y.len() {
        assert(differ_at(x@, y@, i as int));
        KeyOrder::Before
    } else if i < x.len() {
        assert(differ_at(y@, x@, i as int));
        KeyOrder::After
    } else {
        assert(x@.take(i as int) =~= x@);
        assert(y@.take(i as int) =~= y@);
        proof {
            encode_utf8_decode_utf8(a@);
            encode_utf8_decode_utf8(b@);
        }
        KeyOrder::Same
    }
}

/// One key with its pointer.
struct Entry {
    key: String,
    pointer: Pointer,
}

/// The index of a store: its live keys, each with the pointer to its record.
pub struct Index {
    entries: Vec<Entry>,
}

impl View for Index {
    type V = Entries;

    closed spec fn view(&self) -> Entries {
        Seq::new(self.entries@.len(), |i: int| (self.entries@[i].key@, self.entries@[i].pointer))
    }
}

impl Index {
    /// The keys stand in strictly increasing order.
    pub open spec fn wf(&self) -> bool {
        sorted(self@)
    }

    /// An index without entries.
    pub fn new() -> (index: Index)
        ensures
            index@ == Seq::<(Seq<char>, Pointer)>::empty(),
            index.wf(),
    {
        let index = Index { entries: Vec::new() };
        assert(index@ =~= Seq::<(Seq<char>, Pointer)>::empty());
        index
    }

    /// How many keys the index holds.
    pub fn len(&self) -> (n: usize)
        ensures
            n == self@.len(),
    {
        self.entries.len()
    }

    /// The key of the entry at offset `i`, counted in key order.
    pub fn key_at(&self, i: usize) -> (key: &String)
        requires
            i < self@.len(),
        ensures
            key@ == self@[i as int].0,
    {
        &self.entries[i].key
    }

    /// The pointer of the entry at offset `i`, counted in key order.
    pub fn pointer_at(&self, i: usize) -> (pointer: Pointer)
        requires
            i < self@.len(),
        ensures
            pointer == self@[i as int].1,
    {
        self.entries[i].pointer
    }

    /// Points the entry at offset `i` at `pointer`, and leaves its key.
    pub fn set_pointer_at(&mut self, i: usize, pointer: Pointer)
        requires
            i < old(self)@.len(),
        ensures
            final(self)@ == old(self)@.update(i as int, (old(self)@[i as int].0, pointer)),
            old(self).wf() ==> final(self).wf(),
    {
        self.entries[i].pointer = pointer;
        assert(self@ =~= old(self)@.update(i as int, (old(self)@[i as int].0, pointer)));
        assert forall|j: int| 0 <= j < self@.len() implies (#[trigger] self@[j]).0 == old(self)@[j].0 by {}
    }

    /// Where `key` stands, and whether it stands there.
    fn search(&self, key: &str) -> (r: (usize, bool))
        requires
            self.wf(),
        ensures
            r.0 == position(self@, key@),
            splits_at(self@, key@, r.0 as int),
            r.1 == holds(self@, key@),
    {
        let mut low: usize = 0;
        let mut high: usize = self.entries.len();
        while low < high
            invariant
                low <= high <= self@.len(),
                self@.len() == self.entries@.len(),
                self.wf(),
                forall|i: int| 0 <= i < low ==> key_lt((#[trigger] self@[i]).0, key@),
                forall|i: int| high <= i < self@.len() ==> key_lt(key@, (#[trigger] self@[i]).0),
            decreases high - low,
        {
            let mid = low + (high - low) / 2;
            let ghost here = self@[mid as int].0;
            match key_order(self.entries[mid].key.as_str(), key) {
                KeyOrder::Before => {
                    assert forall|i: int| 0 <= i < mid + 1 implies key_lt(
                        (#[trigger] self@[i]).0,
                        key@,
                    ) by {
                        if i < mid {
                            lemma_key_lt_transitive(self@[i].0, here, key@);
                        }
                    }
                    low = mid + 1;
                },
                KeyOrder::After => {
                    assert forall|i: int| mid <= i < self@.len() implies key_lt(
                        key@,
                        (#[trigger] self@[i]).0,
                    ) by {
                        if mid < i {
                            lemma_key_lt_transitive(key@, here, self@[i].0);
                        }
                    }
                    high = mid;
                },
                KeyOrder::Same => {
                    proof {
                        lemma_lookup_entry(self@, mid as int);
                        lemma_position_exists(self@, key@);
                    }
                    return (mid, true);
                },
            }
        }
        proof {
            assert(splits_at(self@, key@, low as int)) by {
                assert forall|i: int| low <= i < self@.len() implies !key_lt(
                    (#[trigger] self@[i]).0,
                    key@,
                ) by {
                    lemma_key_lt_asymmetric(key@, self@[i].0);
                }
            }
            lemma_position_is(self@, key@, low as int);
            if low < self@.len() {
                lemma_key_lt_asymmetric(key@, self@[low as int].0);
            }
        }
        (low, false)
    }

    /// The pointer that the index has for `key`.
    pub fn get(&self, key: &str) -> (r: Option<Pointer>)
        requires
            self.wf(),
        ensures
            r == lookup(self@, key@),
    {
        let (at, found) = self.search(key);
        if found {
            Some(self.entries[at].pointer)
        } else {
            None
        }
    }

    /// Points `key` at `pointer`. Returns the pointer that `key` had before.
    pub fn insert(&mut self, key: String, pointer: Pointer) -> (r: Option<Pointer>)
        requires
            old(self).wf(),
        ensures
            final(self).wf(),
            final(self)@ == inserted(old(self)@, key@, pointer),
            r == lookup(old(self)@, key@),
    {
        let (at, found) = self.search(key.as_str());
        proof {
            lemma_inserted(self@, key@, pointer, key@);
        }
        if found {
            let before = self.entries[at].pointer;
            self.entries[at].pointer = pointer;
            assert(self@ =~= inserted(old(self)@, key@, pointer));
            Some(before)
        } else {
            self.entries.insert(at, Entry { key, pointer });
            assert(self@ =~= inserted(old(self)@, key@, pointer));
            None
        }
    }

    /// Takes `key` out of the index. Returns the pointer that it had.
    pub fn remove(&mut self, key: &str) -> (r: Option<Pointer>)
        requires
            old(self).wf(),
        ensures
            final(self).wf(),
            final(self)@ == removed(old(self)@, key@),
            r == lookup(old(self)@, key@),
    {
        let (at, found) = self.search(key);
        proof {
            lemma_removed(self@, key@, key@);
        }
        if found {
            let entry = self.entries.remove(at);
            assert(self@ =~= removed(old(self)@, key@));
            Some(entry.pointer)
        } else {
            None
        }
    }
}

} // verus!
