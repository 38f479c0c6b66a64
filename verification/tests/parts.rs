use kvs::recovery::recover;
use kvs::{reply_to_result, Index, KvsError, LogStore, Pointer};

fn s(text: &str) -> String {
    text.to_string()
}

fn p(pos: u64, len: u64) -> Pointer {
    Pointer { pos, len }
}

fn keys_of(index: &Index) -> Vec<String> {
    (0..index.len()).map(|i| index.key_at(i).clone()).collect()
}

#[test]
fn pointer_from_a_range() {
    assert_eq!(Pointer::from(3..10), p(3, 7));
    assert_eq!(Pointer::from(5..5), p(5, 0));
    assert_eq!(Pointer::from(0..u64::MAX), p(0, u64::MAX));
}

#[test]
fn index_starts_empty() {
    let index = Index::new();
    assert_eq!(index.len(), 0);
    assert_eq!(index.get("a"), None);
}

#[test]
fn index_insert_returns_the_pointer_before() {
    let mut index = Index::new();
    assert_eq!(index.insert(s("a"), p(0, 10)), None);
    assert_eq!(index.insert(s("b"), p(10, 5)), None);
    assert_eq!(index.insert(s("a"), p(15, 7)), Some(p(0, 10)));
    assert_eq!(index.len(), 2);
    assert_eq!(index.get("a"), Some(p(15, 7)));
    assert_eq!(index.get("b"), Some(p(10, 5)));
    assert_eq!(index.get("c"), None);
}

#[test]
fn index_remove_returns_the_pointer() {
    let mut index = Index::new();
    index.insert(s("a"), p(0, 10));
    index.insert(s("b"), p(10, 5));
    assert_eq!(index.remove("c"), None);
    assert_eq!(index.len(), 2);
    assert_eq!(index.remove("a"), Some(p(0, 10)));
    assert_eq!(index.remove("a"), None);
    assert_eq!(index.len(), 1);
    assert_eq!(index.get("a"), None);
    assert_eq!(index.get("b"), Some(p(10, 5)));
}

#[test]
fn index_keeps_its_keys_in_the_order_of_strings() {
    let keys = [
        "b", "a", "", "ab", "aa", "B", "\u{e9}", "z", "a\u{0}", "\u{1f600}", "\u{ffff}", "~", "a b",
        "10", "9",
    ];
    let mut index = Index::new();
    for (at, key) in keys.iter().enumerate() {
        assert_eq!(index.insert(s(key), p(at as u64, 1)), None);
    }
    let mut sorted: Vec<String> = keys.iter().map(|key| s(key)).collect();
    sorted.sort();
    assert_eq!(keys_of(&index), sorted);
    for (at, key) in keys.iter().enumerate() {
        assert_eq!(index.get(key), Some(p(at as u64, 1)));
    }
    for at in 0..index.len() {
        assert_eq!(index.get(index.key_at(at)), Some(index.pointer_at(at)));
    }
    for key in keys.iter().step_by(2) {
        assert!(index.remove(key).is_some());
        sorted.retain(|kept| kept != key);
        assert_eq!(keys_of(&index), sorted);
    }
}

#[test]
fn index_set_pointer_at_keeps_the_key() {
    let mut index = Index::new();
    index.insert(s("a"), p(0, 10));
    index.insert(s("b"), p(10, 5));
    index.set_pointer_at(1, p(0, 5));
    assert_eq!(index.key_at(1), "b");
    assert_eq!(index.pointer_at(1), p(0, 5));
    assert_eq!(index.get("b"), Some(p(0, 5)));
    assert_eq!(index.get("a"), Some(p(0, 10)));
}

#[test]
fn log_store_appends_at_the_end() {
    let mut log = LogStore::new();
    assert_eq!(log.len(), 0);
    assert_eq!(log.append(b"abc"), 0..3);
    assert_eq!(log.append(b""), 3..3);
    assert_eq!(log.append(b"de"), 3..5);
    assert_eq!(log.len(), 5);
    assert_eq!(log.as_bytes(), b"abcde");
}

#[test]
fn log_store_reads_a_range() {
    let log = LogStore::from_bytes(b"abcde".to_vec());
    assert_eq!(log.read_range(p(1, 3)), Ok(&b"bcd"[..]));
    assert_eq!(log.read_range(p(0, 5)), Ok(&b"abcde"[..]));
    assert_eq!(log.read_range(p(5, 0)), Ok(&b""[..]));
    assert_eq!(log.read_range(p(0, 6)), Err(KvsError::Serialization));
    assert_eq!(log.read_range(p(6, 0)), Err(KvsError::Serialization));
    assert_eq!(log.read_range(p(3, u64::MAX)), Err(KvsError::Serialization));
    assert_eq!(log.read_range(p(u64::MAX, 3)), Err(KvsError::Serialization));
}

#[test]
fn log_store_counts_what_is_flushed() {
    let mut log = LogStore::from_bytes(b"abc".to_vec());
    assert_eq!(log.flushed_len(), 3);
    log.append(b"de");
    assert_eq!(log.flushed_len(), 3);
    log.mark_flushed();
    assert_eq!(log.flushed_len(), 5);
    log.replace(b"xy".to_vec());
    assert_eq!(log.as_bytes(), b"xy");
    assert_eq!(log.len(), 2);
    assert_eq!(log.flushed_len(), 0);
    log.mark_flushed();
    assert_eq!(log.flushed_len(), 2);
}

#[test]
fn recover_rebuilds_the_index() {
    let log = b"\r\n{\"Set\":{\"key\":\"b\",\"value\":\"1\"}}\r\n{\"Set\":{\"key\":\"a\",\"value\":\"22\"}}\r\n{\"Set\":{\"key\":\"b\",\"value\":\"3\"}}\r\n{\"Remove\":{\"key\":\"a\"}}\r\n{\"Set\":{\"key\":\"c\",\"value\":\"\"}} ";
    let (index, uncompacted, tail) = match recover(log) {
        Ok(found) => found,
        Err(e) => panic!("{:?}", e),
    };
    assert_eq!(keys_of(&index), vec![s("b"), s("c")]);
    assert_eq!(index.get("b"), Some(p(67, 33)));
    assert_eq!(index.get("c"), Some(p(124, 32)));
    // The first record of "b" and the record of the remove.
    assert_eq!(uncompacted, 33 + 24);
    assert_eq!(tail, 156);
    assert_eq!(log.len(), 157);
}

#[test]
fn recover_fails_on_a_broken_log() {
    assert!(matches!(recover(b"{\"Remove\":{\"key\":\"a\"}}x"), Err(KvsError::Serialization)));
    assert!(matches!(recover(b"x"), Err(KvsError::Serialization)));
    assert!(matches!(recover(b"{\"Remove\":{\"key\":\"a\"}"), Err(KvsError::Serialization)));
}

#[test]
fn recover_of_nothing() {
    let (index, uncompacted, tail) = match recover(b"") {
        Ok(found) => found,
        Err(e) => panic!("{:?}", e),
    };
    assert_eq!(index.len(), 0);
    assert_eq!(uncompacted, 0);
    assert_eq!(tail, 0);
}

#[test]
fn reply_of_a_server_becomes_a_result() {
    assert_eq!(reply_to_result(Ok(Some(s("value")))), Ok(Some(s("value"))));
    assert_eq!(reply_to_result::<Option<String>>(Ok(None)), Ok(None));
    assert_eq!(reply_to_result(Ok(())), Ok(()));
    assert_eq!(reply_to_result::<()>(Err(s("Key not found"))), Err(KvsError::Remote(s("Key not found"))));
}

#[test]
fn errors_have_messages() {
    assert_eq!(KvsError::KeyNotFound.message(), "Key not found");
    assert_eq!(KvsError::Serialization.message(), "Malformed record");
    assert_eq!(KvsError::Remote(s("server says no")).message(), "server says no");
    assert_eq!(KvsError::Remote(s("")).message(), "");
}
