use kvs::command::Command;
use kvs::record::{encode_record, next_record, read_record};
use kvs::text::{push_quoted, read_quoted};
use kvs::{KvsEngine, KvsError};

fn s(text: &str) -> String {
    text.to_string()
}

fn text_of(command: &Command) -> Vec<u8> {
    let mut out = Vec::new();
    command.write_to(&mut out);
    out
}

/// The text that serde_json writes for a command of this shape.
fn json_of_set(key: &str, value: &str) -> String {
    format!(
        "{{\"Set\":{{\"key\":{},\"value\":{}}}}}",
        serde_json::to_string(key).unwrap(),
        serde_json::to_string(value).unwrap()
    )
}

fn json_of_remove(key: &str) -> String {
    format!("{{\"Remove\":{{\"key\":{}}}}}", serde_json::to_string(key).unwrap())
}

const SHAPES: [&str; 12] = [
    "",
    "a",
    "two words",
    "\"",
    "\\",
    "/",
    "\u{8}\u{9}\u{a}\u{c}\u{d}",
    "\u{0}\u{1}\u{b}\u{e}\u{f}\u{10}\u{1a}\u{1f}",
    "\u{7f}\u{80}\u{7ff}\u{800}\u{ffff}\u{10000}\u{10ffff}",
    "caf\u{e9} \u{4e2d}\u{6587} \u{1f600}",
    "\\u0041\\n",
    "}}\r\n{\"Set\":{\"key\":\"x\",\"value\":\"y\"}}",
];

#[test]
fn command_set_builds_a_set() {
    assert_eq!(
        Command::set(s("k"), s("v")),
        Command::SetValue { key: s("k"), value: s("v") }
    );
}

#[test]
fn command_remove_builds_a_remove() {
    assert_eq!(Command::remove(s("k")), Command::Remove { key: s("k") });
}

#[test]
fn text_of_a_set() {
    assert_eq!(
        text_of(&Command::set(s("a"), s("1"))),
        b"{\"Set\":{\"key\":\"a\",\"value\":\"1\"}}".to_vec()
    );
}

#[test]
fn text_of_a_remove() {
    assert_eq!(text_of(&Command::remove(s("a"))), b"{\"Remove\":{\"key\":\"a\"}}".to_vec());
}

#[test]
fn write_to_appends_and_keeps_what_was_there() {
    let mut out = b"xy".to_vec();
    Command::remove(s("a")).write_to(&mut out);
    assert_eq!(out, b"xy{\"Remove\":{\"key\":\"a\"}}".to_vec());
}

#[test]
fn text_of_escapes() {
    assert_eq!(
        text_of(&Command::remove(s("\"\\\u{8}\u{9}\u{a}\u{c}\u{d}"))),
        b"{\"Remove\":{\"key\":\"\\\"\\\\\\b\\t\\n\\f\\r\"}}".to_vec()
    );
    assert_eq!(
        text_of(&Command::remove(s("\u{0}\u{b}\u{1f}\u{7f}/"))),
        b"{\"Remove\":{\"key\":\"\\u0000\\u000b\\u001f\x7f/\"}}".to_vec()
    );
    assert_eq!(
        text_of(&Command::remove(s("\u{e9}"))),
        b"{\"Remove\":{\"key\":\"\xc3\xa9\"}}".to_vec()
    );
}

#[test]
fn text_is_what_serde_json_writes() {
    for key in SHAPES.iter() {
        assert_eq!(text_of(&Command::remove(s(key))), json_of_remove(key).into_bytes());
        for value in SHAPES.iter() {
            assert_eq!(
                text_of(&Command::set(s(key), s(value))),
                json_of_set(key, value).into_bytes()
            );
        }
    }
}

#[test]
fn every_byte_is_written_as_serde_json_writes_it() {
    for byte in 0u8..128 {
        let text = String::from_utf8(vec![b'<', byte, b'>']).unwrap();
        let mut out = Vec::new();
        push_quoted(&mut out, text.as_bytes());
        assert_eq!(out, serde_json::to_string(&text).unwrap().into_bytes());
        assert_eq!(read_quoted(&out, 0), Some((text.into_bytes(), out.len())));
    }
}

#[test]
fn serde_json_reads_the_text_back() {
    for key in SHAPES.iter() {
        for value in SHAPES.iter() {
            let text = text_of(&Command::set(s(key), s(value)));
            let parsed: serde_json::Value = serde_json::from_slice(&text).unwrap();
            let fields = parsed.get("Set").unwrap();
            assert_eq!(fields.get("key").unwrap().as_str(), Some(*key));
            assert_eq!(fields.get("value").unwrap().as_str(), Some(*value));
            assert_eq!(parsed.as_object().unwrap().len(), 1);
            assert_eq!(fields.as_object().unwrap().len(), 2);
        }
        let text = text_of(&Command::remove(s(key)));
        let parsed: serde_json::Value = serde_json::from_slice(&text).unwrap();
        assert_eq!(parsed.get("Remove").unwrap().get("key").unwrap().as_str(), Some(*key));
    }
}

#[test]
fn read_at_reads_back_what_write_to_wrote() {
    for key in SHAPES.iter() {
        for value in SHAPES.iter() {
            let command = Command::set(s(key), s(value));
            let mut bytes = b"##".to_vec();
            command.write_to(&mut bytes);
            let end = bytes.len();
            bytes.extend_from_slice(b"{\"Rem");
            assert_eq!(Command::read_at(&bytes, 2), Some((command, end)));
        }
        let command = Command::remove(s(key));
        let bytes = text_of(&command);
        assert_eq!(Command::read_at(&bytes, 0), Some((command, bytes.len())));
    }
}

#[test]
fn read_at_refuses_what_write_to_does_not_write() {
    let refused: [&[u8]; 16] = [
        b"",
        b"{",
        b"{\"Set\":{\"key\":\"a\",\"value\":\"1\"}",
        b"{\"Set\":{\"key\":\"a\",\"value\":\"1\"} }",
        b"{\"Set\": {\"key\":\"a\",\"value\":\"1\"}}",
        b"{\"Set\":{\"value\":\"1\",\"key\":\"a\"}}",
        b"{\"Set\":{\"key\":\"a\"}}",
        b"{\"Set\":{\"key\":\"a\",\"value\":1}}",
        b"{\"Remove\":{\"key\":\"a\",\"value\":\"1\"}}",
        b"{\"Get\":{\"key\":\"a\"}}",
        b"{\"Remove\":{\"key\":\"a}}",
        b"{\"Remove\":{\"key\":\"\\x\"}}",
        b"{\"Remove\":{\"key\":\"\\u0041\"}}",
        b"{\"Remove\":{\"key\":\"\\u000A\"}}",
        b"{\"Remove\":{\"key\":\"\\u000a\"}}",
        b"{\"Remove\":{\"key\":\"\n\"}}",
    ];
    for bytes in refused.iter() {
        assert_eq!(Command::read_at(bytes, 0), None);
    }
}

#[test]
fn read_at_refuses_a_string_that_is_not_utf8() {
    for bad in [&[0xffu8][..], &[0xc3][..], &[0xed, 0xa0, 0x80][..], &[0xc0, 0x80][..]].iter() {
        let mut bytes = b"{\"Remove\":{\"key\":\"".to_vec();
        bytes.extend_from_slice(bad);
        bytes.extend_from_slice(b"\"}}");
        assert_eq!(Command::read_at(&bytes, 0), None);

        let mut bytes = b"{\"Set\":{\"key\":\"k\",\"value\":\"".to_vec();
        bytes.extend_from_slice(bad);
        bytes.extend_from_slice(b"\"}}");
        assert_eq!(Command::read_at(&bytes, 0), None);
    }
}

#[test]
fn read_at_gives_the_string_that_the_bytes_encode() {
    let mut bytes = b"{\"Set\":{\"key\":\"".to_vec();
    bytes.extend_from_slice(&[0xe4, 0xb8, 0xad]);
    bytes.extend_from_slice(b"\",\"value\":\"");
    bytes.extend_from_slice(&[0xf0, 0x9f, 0x98, 0x80]);
    bytes.extend_from_slice(b"\"}}");
    assert_eq!(
        Command::read_at(&bytes, 0),
        Some((Command::set(s("\u{4e2d}"), s("\u{1f600}")), bytes.len()))
    );
}

#[test]
fn read_at_at_the_end_of_the_bytes() {
    let bytes = text_of(&Command::remove(s("a")));
    assert_eq!(Command::read_at(&bytes, bytes.len()), None);
}

#[test]
fn read_quoted_reads_one_literal() {
    assert_eq!(read_quoted(b"\"ab\"cd", 0), Some((b"ab".to_vec(), 4)));
    assert_eq!(read_quoted(b"x\"\"", 1), Some((Vec::new(), 3)));
    assert_eq!(read_quoted(b"\"a\\\"b\"", 0), Some((b"a\"b".to_vec(), 6)));
    assert_eq!(read_quoted(b"\"\\u001f\"", 0), Some((vec![0x1f], 8)));
    assert_eq!(read_quoted(b"\"ab", 0), None);
    assert_eq!(read_quoted(b"ab\"", 0), None);
    assert_eq!(read_quoted(b"\"\\", 0), None);
    assert_eq!(read_quoted(b"\"\\u00\"", 0), None);
    assert_eq!(read_quoted(b"\"\\u0020\"", 0), None);
    assert_eq!(read_quoted(b"\"\\u001g\"", 0), None);
    assert_eq!(read_quoted(b"\"\\u001F\"", 0), None);
    assert_eq!(read_quoted(b"\"\\u0008\"", 0), None);
    assert_eq!(read_quoted(b"\"\\/\"", 0), None);
    assert_eq!(read_quoted(b"\"\x01\"", 0), None);
    assert_eq!(read_quoted(b"", 0), None);
}

#[test]
fn push_quoted_writes_one_literal() {
    let mut out = b"k:".to_vec();
    push_quoted(&mut out, b"a\"b\\c\n");
    assert_eq!(out, b"k:\"a\\\"b\\\\c\\n\"".to_vec());
}

#[test]
fn encode_record_puts_a_line_break_first() {
    assert_eq!(
        encode_record(&Command::set(s("a"), s("1"))),
        b"\r\n{\"Set\":{\"key\":\"a\",\"value\":\"1\"}}".to_vec()
    );
    assert_eq!(
        encode_record(&Command::remove(s("a"))),
        b"\r\n{\"Remove\":{\"key\":\"a\"}}".to_vec()
    );
}

#[test]
fn next_record_walks_through_a_log() {
    let log = b"\r\n{\"Set\":{\"key\":\"a\",\"value\":\"1\"}} \t{\"Remove\":{\"key\":\"a\"}}\n";
    assert_eq!(next_record(log, 0), Ok(Some((Command::set(s("a"), s("1")), 33))));
    assert_eq!(next_record(log, 33), Ok(Some((Command::remove(s("a")), 57))));
    assert_eq!(next_record(log, 57), Ok(None));
    assert_eq!(next_record(log, log.len()), Ok(None));
    assert_eq!(next_record(log, 1), Ok(Some((Command::set(s("a"), s("1")), 33))));
    assert_eq!(next_record(log, 3), Err(KvsError::Serialization));
}

#[test]
fn next_record_of_an_empty_log() {
    assert_eq!(next_record(b"", 0), Ok(None));
    assert_eq!(next_record(b"  ", 0), Ok(None));
}

#[test]
fn read_record_reads_exactly_one_record() {
    assert_eq!(
        read_record(b"\r\n{\"Remove\":{\"key\":\"a\"}}"),
        Ok(Command::remove(s("a")))
    );
    assert_eq!(read_record(b"{\"Remove\":{\"key\":\"a\"}}"), Ok(Command::remove(s("a"))));
    assert_eq!(read_record(b""), Err(KvsError::Serialization));
    assert_eq!(read_record(b"\r\n"), Err(KvsError::Serialization));
    assert_eq!(read_record(b"{\"Remove\":{\"key\":\"a\"}}\n"), Err(KvsError::Serialization));
    assert_eq!(
        read_record(b"{\"Remove\":{\"key\":\"a\"}}{\"Remove\":{\"key\":\"a\"}}"),
        Err(KvsError::Serialization)
    );
    assert_eq!(read_record(b"{\"Remove\":{\"key\":\"a\"}"), Err(KvsError::Serialization));
}

#[test]
fn serde_json_reads_a_log_as_a_stream() {
    let mut store = kvs::KvStore::new().unwrap();
    store.set(s("a"), s("1")).unwrap();
    store.set(s("b \"quoted\""), s("line\nbreak")).unwrap();
    store.remove(s("a")).unwrap();
    let mut stream =
        serde_json::Deserializer::from_slice(store.log_bytes()).into_iter::<serde_json::Value>();
    let mut ends = Vec::new();
    let mut tags = Vec::new();
    while let Some(value) = stream.next() {
        let value = value.unwrap();
        tags.push(value.as_object().unwrap().keys().next().unwrap().clone());
        ends.push(stream.byte_offset());
    }
    assert_eq!(tags, vec![s("Set"), s("Set"), s("Remove")]);
    // serde_json stops where next_record stops.
    let mut at = 0;
    for end in ends.iter() {
        match next_record(store.log_bytes(), at) {
            Ok(Some((_, stop))) => {
                assert_eq!(stop, *end);
                at = stop;
            }
            other => panic!("no record at {}: {:?}", at, other),
        }
    }
    assert_eq!(next_record(store.log_bytes(), at), Ok(None));
}

#[test]
fn every_char_is_written_as_serde_json_writes_it() {
    let mut text = String::new();
    for code in 0..=0x10ffffu32 {
        if let Some(c) = char::from_u32(code) {
            text.push(c);
        }
    }
    let mut out = Vec::new();
    push_quoted(&mut out, text.as_bytes());
    assert!(out == serde_json::to_string(&text).unwrap().into_bytes());
    let (read, end) = read_quoted(&out, 0).unwrap();
    assert!(read == text.into_bytes());
    assert_eq!(end, out.len());
}
