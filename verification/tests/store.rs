use kvs::{KvStore, KvsEngine, KvsError, COMPACT_BYTES};

fn s(text: &str) -> String {
    text.to_string()
}

fn fresh() -> KvStore {
    KvStore::new().unwrap()
}

fn reopened(store: &KvStore) -> KvStore {
    KvStore::open(store.log_bytes().to_vec()).unwrap()
}

#[test]
fn new_store_is_empty() {
    let mut store = fresh();
    assert_eq!(store.log_bytes(), b"");
    assert_eq!(store.uncompacted(), 0);
    assert_eq!(store.flushed_len(), 0);
    assert_eq!(store.get(s("a")), Ok(None));
}

#[test]
fn set_then_get_returns_the_value() {
    let mut store = fresh();
    assert_eq!(store.set(s("key"), s("value")), Ok(()));
    assert_eq!(store.get(s("key")), Ok(Some(s("value"))));
}

#[test]
fn set_twice_keeps_the_later_value() {
    let mut store = fresh();
    store.set(s("key"), s("one")).unwrap();
    store.set(s("key"), s("two")).unwrap();
    assert_eq!(store.get(s("key")), Ok(Some(s("two"))));
}

#[test]
fn get_of_a_key_never_written_is_none() {
    let mut store = fresh();
    store.set(s("a"), s("1")).unwrap();
    assert_eq!(store.get(s("b")), Ok(None));
    assert_eq!(store.get(s("")), Ok(None));
    assert_eq!(store.get(s("aa")), Ok(None));
}

#[test]
fn get_of_a_removed_key_is_none() {
    let mut store = fresh();
    store.set(s("a"), s("1")).unwrap();
    assert_eq!(store.remove(s("a")), Ok(()));
    assert_eq!(store.get(s("a")), Ok(None));
}

#[test]
fn remove_of_an_absent_key_fails_and_changes_nothing() {
    let mut store = fresh();
    store.set(s("a"), s("1")).unwrap();
    let log_before = store.log_bytes().to_vec();
    let uncompacted_before = store.uncompacted();
    assert_eq!(store.remove(s("b")), Err(KvsError::KeyNotFound));
    assert_eq!(store.log_bytes(), &log_before[..]);
    assert_eq!(store.uncompacted(), uncompacted_before);
    assert_eq!(store.get(s("a")), Ok(Some(s("1"))));
}

#[test]
fn remove_twice_fails_the_second_time() {
    let mut store = fresh();
    store.set(s("a"), s("1")).unwrap();
    assert_eq!(store.remove(s("a")), Ok(()));
    assert_eq!(store.remove(s("a")), Err(KvsError::KeyNotFound));
}

#[test]
fn remove_missing_on_an_empty_store() {
    let mut store = fresh();
    assert_eq!(store.remove(s("missing")), Err(KvsError::KeyNotFound));
    assert_eq!(store.get(s("missing")), Ok(None));
    assert_eq!(store.log_bytes(), b"");
}

#[test]
fn set_overwrite_remove_and_reopen() {
    let mut store = fresh();
    store.set(s("a"), s("1")).unwrap();
    store.set(s("b"), s("2")).unwrap();
    store.set(s("a"), s("3")).unwrap();
    store.remove(s("b")).unwrap();
    assert_eq!(store.get(s("a")), Ok(Some(s("3"))));
    assert_eq!(store.get(s("b")), Ok(None));

    let mut again = reopened(&store);
    assert_eq!(again.get(s("a")), Ok(Some(s("3"))));
    assert_eq!(again.get(s("b")), Ok(None));
}

#[test]
fn set_appends_one_record_to_the_log() {
    let mut store = fresh();
    store.set(s("a"), s("1")).unwrap();
    assert_eq!(store.log_bytes(), b"\r\n{\"Set\":{\"key\":\"a\",\"value\":\"1\"}}");
    store.set(s("b"), s("2")).unwrap();
    assert_eq!(
        store.log_bytes(),
        &b"\r\n{\"Set\":{\"key\":\"a\",\"value\":\"1\"}}\r\n{\"Set\":{\"key\":\"b\",\"value\":\"2\"}}"[..]
    );
}

#[test]
fn remove_appends_one_record_to_the_log() {
    let mut store = fresh();
    store.set(s("a"), s("1")).unwrap();
    store.remove(s("a")).unwrap();
    assert_eq!(
        store.log_bytes(),
        &b"\r\n{\"Set\":{\"key\":\"a\",\"value\":\"1\"}}\r\n{\"Remove\":{\"key\":\"a\"}}"[..]
    );
}

#[test]
fn uncompacted_counts_replaced_records_and_removes() {
    let mut store = fresh();
    store.set(s("a"), s("1")).unwrap();
    assert_eq!(store.uncompacted(), 0);
    store.set(s("b"), s("22")).unwrap();
    assert_eq!(store.uncompacted(), 0);
    // The first record of "a" takes 33 bytes.
    store.set(s("a"), s("3")).unwrap();
    assert_eq!(store.uncompacted(), 33);
    // The record of the remove takes 24 bytes; the record of "b" is not counted.
    store.remove(s("b")).unwrap();
    assert_eq!(store.uncompacted(), 57);
}

#[test]
fn reopen_gives_the_same_count_of_reclaimable_bytes() {
    let mut store = fresh();
    store.set(s("a"), s("1")).unwrap();
    store.set(s("b"), s("22")).unwrap();
    store.set(s("a"), s("3")).unwrap();
    store.remove(s("b")).unwrap();
    store.set(s("c"), s("4")).unwrap();
    let again = reopened(&store);
    assert_eq!(again.uncompacted(), store.uncompacted());
    assert_eq!(again.log_bytes(), store.log_bytes());
    assert_eq!(again.flushed_len(), store.log_bytes().len());
}

#[test]
fn a_store_goes_on_after_reopening() {
    let mut store = fresh();
    store.set(s("a"), s("1")).unwrap();
    store.remove(s("a")).unwrap();
    let mut again = reopened(&store);
    again.set(s("a"), s("2")).unwrap();
    again.set(s("b"), s("3")).unwrap();
    assert_eq!(again.get(s("a")), Ok(Some(s("2"))));
    let mut third = reopened(&again);
    assert_eq!(third.get(s("a")), Ok(Some(s("2"))));
    assert_eq!(third.get(s("b")), Ok(Some(s("3"))));
    assert_eq!(third.uncompacted(), again.uncompacted());
}

#[test]
fn open_of_an_empty_log() {
    let mut store = KvStore::open(Vec::new()).unwrap();
    assert_eq!(store.get(s("a")), Ok(None));
    assert_eq!(store.uncompacted(), 0);
}

#[test]
fn open_of_a_log_of_white_space() {
    let mut store = KvStore::open(b" \r\n\t".to_vec()).unwrap();
    assert_eq!(store.get(s("a")), Ok(None));
    store.set(s("a"), s("1")).unwrap();
    assert_eq!(store.get(s("a")), Ok(Some(s("1"))));
    let mut again = reopened(&store);
    assert_eq!(again.get(s("a")), Ok(Some(s("1"))));
    store.set(s("a"), s("2")).unwrap();
    // The record of "a" starts at the first byte of the log: 4 + 33 bytes.
    assert_eq!(store.uncompacted(), 37);
    assert_eq!(reopened(&store).uncompacted(), 37);
}

#[test]
fn open_reads_a_log_with_white_space_after_the_records() {
    let log = b"\r\n{\"Set\":{\"key\":\"a\",\"value\":\"1\"}}{\"Remove\":{\"key\":\"a\"}}\r\n".to_vec();
    let mut store = KvStore::open(log).unwrap();
    assert_eq!(store.get(s("a")), Ok(None));
    // The remove lies right behind the set and takes 22 bytes.
    assert_eq!(store.uncompacted(), 22);
    store.set(s("b"), s("2")).unwrap();
    assert_eq!(store.get(s("b")), Ok(Some(s("2"))));
    store.set(s("b"), s("3")).unwrap();
    // The first record of "b" starts where the remove ends: 2 + 33 bytes.
    assert_eq!(store.uncompacted(), 22 + 35);
    let mut again = reopened(&store);
    assert_eq!(again.uncompacted(), 22 + 35);
    assert_eq!(again.get(s("b")), Ok(Some(s("3"))));
}

#[test]
fn open_fails_on_a_record_cut_short() {
    let log = b"\r\n{\"Set\":{\"key\":\"a\",\"value\":\"1\"}}\r\n{\"Set\":{\"key\":\"b\",\"val".to_vec();
    assert!(matches!(KvStore::open(log), Err(KvsError::Serialization)));
}

#[test]
fn open_fails_on_what_is_no_record() {
    assert!(matches!(KvStore::open(b"hello".to_vec()), Err(KvsError::Serialization)));
    assert!(matches!(KvStore::open(b"{}".to_vec()), Err(KvsError::Serialization)));
    assert!(matches!(
        KvStore::open(b"{\"Get\":{\"key\":\"a\"}}".to_vec()),
        Err(KvsError::Serialization)
    ));
    assert!(matches!(
        KvStore::open(b"{\"Set\":{\"key\":\"a\"}}".to_vec()),
        Err(KvsError::Serialization)
    ));
}

#[test]
fn open_fails_on_a_string_that_is_not_utf8() {
    let mut log = b"{\"Set\":{\"key\":\"".to_vec();
    log.push(0xff);
    log.extend_from_slice(b"\",\"value\":\"1\"}}");
    assert!(matches!(KvStore::open(log), Err(KvsError::Serialization)));
}

#[test]
fn open_applies_a_remove_of_an_absent_key_as_nothing() {
    let log = b"{\"Remove\":{\"key\":\"a\"}}{\"Set\":{\"key\":\"a\",\"value\":\"1\"}}".to_vec();
    let mut store = KvStore::open(log).unwrap();
    assert_eq!(store.get(s("a")), Ok(Some(s("1"))));
    assert_eq!(store.uncompacted(), 0);
}

#[test]
fn keys_and_values_of_any_shape() {
    let shapes = [
        "",
        " ",
        "plain",
        "with \"quotes\"",
        "back\\slash",
        "line\nfeed\r\ntab\t",
        "\u{0}\u{1}\u{8}\u{c}\u{1f}\u{7f}",
        "{\"Set\":{\"key\":\"a\",\"value\":\"1\"}}",
        "caf\u{e9} \u{4e2d}\u{6587} \u{1f600}",
        "\\u0041",
    ];
    let mut store = fresh();
    for key in shapes.iter() {
        for value in shapes.iter() {
            store.set(s(key), s(value)).unwrap();
            assert_eq!(store.get(s(key)), Ok(Some(s(value))));
        }
    }
    for key in shapes.iter() {
        assert_eq!(store.get(s(key)), Ok(Some(s(shapes[shapes.len() - 1]))));
    }
    let mut again = reopened(&store);
    for key in shapes.iter() {
        assert_eq!(again.get(s(key)), Ok(Some(s(shapes[shapes.len() - 1]))));
    }
    assert_eq!(again.uncompacted(), store.uncompacted());
}

#[test]
fn set_compacts_once_the_log_passes_the_threshold() {
    let value = "v".repeat(100);
    // One record of "k" takes 2 + 14 + 3 + 9 + 102 + 2 = 132 bytes.
    let mut store = fresh();
    for round in 1..=7u64 {
        store.set(s("k"), value.clone()).unwrap();
        assert_eq!(store.log_bytes().len() as u64, 132 * round);
        assert_eq!(store.uncompacted(), 132 * (round - 1));
    }
    assert!(store.log_bytes().len() as u64 <= COMPACT_BYTES);
    store.set(s("k"), value.clone()).unwrap();
    assert_eq!(store.log_bytes().len(), 132);
    assert_eq!(store.uncompacted(), 0);
    assert_eq!(store.flushed_len(), 0);
    assert_eq!(store.get(s("k")), Ok(Some(value)));
}

#[test]
fn set_does_not_compact_at_the_threshold() {
    // 1024 = 7 * 132 + 100, and a record of "j" with a value of 68 bytes takes 100.
    let mut store = fresh();
    for _ in 0..7 {
        store.set(s("k"), "v".repeat(100)).unwrap();
    }
    store.set(s("j"), "w".repeat(68)).unwrap();
    assert_eq!(store.log_bytes().len() as u64, COMPACT_BYTES);
    assert_eq!(store.uncompacted(), 6 * 132);
    store.set(s("j"), s("")).unwrap();
    // Live: the last record of "k" and the new record of "j", 32 bytes.
    assert_eq!(store.log_bytes().len(), 132 + 32);
    assert_eq!(store.uncompacted(), 0);
}

#[test]
fn remove_never_compacts() {
    let mut store = fresh();
    for _ in 0..7 {
        store.set(s("k"), "v".repeat(100)).unwrap();
    }
    store.set(s("a"), "w".repeat(50)).unwrap();
    let len = store.log_bytes().len();
    assert!(len as u64 <= COMPACT_BYTES);
    store.remove(s("k")).unwrap();
    store.remove(s("a")).unwrap();
    assert!(store.log_bytes().len() as u64 > COMPACT_BYTES);
    assert_eq!(store.log_bytes().len(), len + 24 + 24);
}

#[test]
fn compaction_keeps_every_live_key_with_its_value() {
    let mut store = fresh();
    let mut expected = std::collections::BTreeMap::new();
    for round in 0..40u32 {
        let key = format!("key{}", round % 7);
        let value = format!("value {} {}", round, "x".repeat((round % 5) as usize * 20));
        store.set(key.clone(), value.clone()).unwrap();
        expected.insert(key, value);
        if round % 11 == 10 {
            let gone = format!("key{}", round % 3);
            if expected.remove(&gone).is_some() {
                store.remove(gone).unwrap();
            } else {
                assert_eq!(store.remove(gone), Err(KvsError::KeyNotFound));
            }
        }
        for probe in 0..7u32 {
            let key = format!("key{}", probe);
            assert_eq!(store.get(key.clone()), Ok(expected.get(&key).cloned()));
        }
    }
    let mut again = reopened(&store);
    for probe in 0..7u32 {
        let key = format!("key{}", probe);
        assert_eq!(again.get(key.clone()), Ok(expected.get(&key).cloned()));
    }
    assert_eq!(again.uncompacted(), store.uncompacted());
}

#[test]
fn compact_writes_the_live_records_in_key_order() {
    let mut store = fresh();
    store.set(s("b"), s("2")).unwrap();
    store.set(s("a"), s("1")).unwrap();
    store.set(s("c"), s("3")).unwrap();
    store.set(s("b"), s("4")).unwrap();
    store.remove(s("c")).unwrap();
    let before = store.log_bytes().len();
    assert_eq!(store.compact(), Ok(()));
    assert_eq!(
        store.log_bytes(),
        &b"\r\n{\"Set\":{\"key\":\"a\",\"value\":\"1\"}}\r\n{\"Set\":{\"key\":\"b\",\"value\":\"4\"}}"[..]
    );
    assert!(store.log_bytes().len() <= before);
    assert_eq!(store.uncompacted(), 0);
    assert_eq!(store.flushed_len(), 0);
    assert_eq!(store.get(s("a")), Ok(Some(s("1"))));
    assert_eq!(store.get(s("b")), Ok(Some(s("4"))));
    assert_eq!(store.get(s("c")), Ok(None));
}

#[test]
fn compact_of_an_empty_store() {
    let mut store = fresh();
    assert_eq!(store.compact(), Ok(()));
    assert_eq!(store.log_bytes(), b"");
    store.set(s("a"), s("1")).unwrap();
    store.remove(s("a")).unwrap();
    assert_eq!(store.compact(), Ok(()));
    assert_eq!(store.log_bytes(), b"");
    assert_eq!(store.uncompacted(), 0);
}

#[test]
fn compact_twice_changes_nothing_more() {
    let mut store = fresh();
    store.set(s("b"), s("2")).unwrap();
    store.set(s("a"), s("1")).unwrap();
    store.set(s("a"), s("3")).unwrap();
    store.compact().unwrap();
    let once = store.log_bytes().to_vec();
    store.compact().unwrap();
    assert_eq!(store.log_bytes(), &once[..]);
}

#[test]
fn a_store_goes_on_after_compaction() {
    let mut store = fresh();
    store.set(s("a"), s("1")).unwrap();
    store.set(s("a"), s("2")).unwrap();
    store.compact().unwrap();
    store.set(s("a"), s("3")).unwrap();
    store.set(s("b"), s("4")).unwrap();
    assert_eq!(store.uncompacted(), 33);
    assert_eq!(store.get(s("a")), Ok(Some(s("3"))));
    store.remove(s("a")).unwrap();
    assert_eq!(store.get(s("a")), Ok(None));
    let mut again = reopened(&store);
    assert_eq!(again.get(s("b")), Ok(Some(s("4"))));
    assert_eq!(again.uncompacted(), store.uncompacted());
}

#[test]
fn flushed_len_says_what_is_left_to_write() {
    let mut store = fresh();
    store.set(s("a"), s("1")).unwrap();
    assert_eq!(store.flushed_len(), 0);
    store.mark_flushed();
    assert_eq!(store.flushed_len(), 33);
    store.set(s("b"), s("2")).unwrap();
    assert_eq!(store.flushed_len(), 33);
    assert_eq!(&store.log_bytes()[33..], b"\r\n{\"Set\":{\"key\":\"b\",\"value\":\"2\"}}");
    store.remove(s("b")).unwrap();
    assert_eq!(store.flushed_len(), 33);
    store.mark_flushed();
    assert_eq!(store.flushed_len(), store.log_bytes().len());
    store.compact().unwrap();
    assert_eq!(store.flushed_len(), 0);
}
