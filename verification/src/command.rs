//! The two commands that the log records, and their text.
//!
//! A command is written as one compact JSON object, tagged by its kind:
//! `{"Set":{"key":"k","value":"v"}}` or `{"Remove":{"key":"k"}}`. Reading
//! accepts exactly the texts that writing produces.

use crate::text::{
    lemma_literal_concat, lemma_quoted_at_of_quoted, lemma_quoted_of_quoted_at, literal_at,
    push_quoted, quoted, quoted_at, read_quoted,
};
use vstd::prelude::*;
use vstd::utf8::*;

verus! {

/// A command of the store, as the log records it.
#[derive(Debug, PartialEq, Eq)]
pub enum Command {
    SetValue { key: String, value: String },
    Remove { key: String },
}

/// What a [`Command`] stands for: its kind and its strings.
pub enum CommandView {
    SetValue { key: Seq<char>, value: Seq<char> },
    Remove { key: Seq<char> },
}

impl View for Command {
    type V = CommandView;

    open spec fn view(&self) -> CommandView {
        match self {
            Command::SetValue { key, value } => CommandView::SetValue { key: key@, value: value@ },
            Command::Remove { key } => CommandView::Remove { key: key@ },
        }
    }
}

/// `{"Set":{"key":`
pub open spec fn set_open() -> Seq<u8> {
    seq![
        0x7bu8, 0x22u8, 0x53u8, 0x65u8, 0x74u8, 0x22u8, 0x3au8, 0x7bu8, 0x22u8, 0x6bu8, 0x65u8,
        0x79u8, 0x22u8, 0x3au8,
    ]
}

/// `{"Remove":{"key":`
pub open spec fn remove_open() -> Seq<u8> {
    seq![
        0x7bu8, 0x22u8, 0x52u8, 0x65u8, 0x6du8, 0x6fu8, 0x76u8, 0x65u8, 0x22u8, 0x3au8, 0x7bu8,
        0x22u8, 0x6bu8, 0x65u8, 0x79u8, 0x22u8, 0x3au8,
    ]
}

/// `,"value":`
pub open spec fn value_mark() -> Seq<u8> {
    seq![0x2cu8, 0x22u8, 0x76u8, 0x61u8, 0x6cu8, 0x75u8, 0x65u8, 0x22u8, 0x3au8]
}

/// `}}`
pub open spec fn close() -> Seq<u8> {
    seq![0x7du8, 0x7du8]
}

/// The text of a `Set` whose key and value are these bytes.
pub open spec fn set_text(key: Seq<u8>, value: Seq<u8>) -> Seq<u8> {
    set_open() + quoted(key) + value_mark() + quoted(value) + close()
}

/// The text of a `Remove` whose key is these bytes.
pub open spec fn remove_text(key: Seq<u8>) -> Seq<u8> {
    remove_open() + quoted(key) + close()
}

impl CommandView {
    /// The key that the command is about.
    pub open spec fn key(self) -> Seq<char> {
        match self {
            CommandView::SetValue { key, .. } => key,
            CommandView::Remove { key } => key,
        }
    }

    /// The bytes that the command is written as.
    pub open spec fn text(self) -> Seq<u8> {
        match self {
            CommandView::SetValue { key, value } => set_text(encode_utf8(key), encode_utf8(value)),
            CommandView::Remove { key } => remove_text(encode_utf8(key)),
        }
    }
}

/// The strings of a command before they are checked to be UTF-8.
enum Fields {
    SetValue { key: Seq<u8>, value: Seq<u8> },
    Remove { key: Seq<u8> },
}

impl Fields {
    spec fn text(self) -> Seq<u8> {
        match self {
            Fields::SetValue { key, value } => set_text(key, value),
            Fields::Remove { key } => remove_text(key),
        }
    }

    spec fn well_encoded(self) -> bool {
        match self {
            Fields::SetValue { key, value } => valid_utf8(key) && valid_utf8(value),
            Fields::Remove { key } => valid_utf8(key),
        }
    }

    spec fn decoded(self) -> CommandView {
        match self {
            Fields::SetValue { key, value } => CommandView::SetValue {
                key: decode_utf8(key),
                value: decode_utf8(value),
            },
            Fields::Remove { key } => CommandView::Remove { key: decode_utf8(key) },
        }
    }
}

spec fn fields_of(c: CommandView) -> Fields {
    match c {
        CommandView::SetValue { key, value } => Fields::SetValue {
            key: encode_utf8(key),
            value: encode_utf8(value),
        },
        CommandView::Remove { key } => Fields::Remove { key: encode_utf8(key) },
    }
}

/// The fields of the command whose text starts at `pos`, and the offset just
/// past that text.
spec fn fields_at(s: Seq<u8>, pos: int) -> Option<(Fields, int)> {
    if literal_at(s, pos, set_open()) {
        match quoted_at(s, pos + set_open().len()) {
            Some((key, after_key)) => if literal_at(s, after_key, value_mark()) {
                match quoted_at(s, after_key + value_mark().len()) {
                    Some((value, after_value)) => if literal_at(s, after_value, close()) {
                        Some((Fields::SetValue { key, value }, after_value + close().len()))
                    } else {
                        None
                    },
                    None => None,
                }
            } else {
                None
            },
            None => None,
        }
    } else if literal_at(s, pos, remove_open()) {
        match quoted_at(s, pos + remove_open().len()) {
            Some((key, after_key)) => if literal_at(s, after_key, close()) {
                Some((Fields::Remove { key }, after_key + close().len()))
            } else {
                None
            },
            None => None,
        }
    } else {
        None
    }
}

/// A `Set` and a `Remove` do not start alike.
proof fn lemma_opens_differ(s: Seq<u8>, pos: int)
    ensures
        !(literal_at(s, pos, set_open()) && literal_at(s, pos, remove_open())),
{
    if literal_at(s, pos, set_open()) && literal_at(s, pos, remove_open()) {
        assert(s.subrange(pos, pos + set_open().len())[2] == s[pos + 2]);
        assert(s.subrange(pos, pos + remove_open().len())[2] == s[pos + 2]);
    }
}

/// The text of a command is read back as the fields it was written from.
proof fn lemma_fields_at_of_text(s: Seq<u8>, pos: int, f: Fields)
    requires
        literal_at(s, pos, f.text()),
    ensures
        fields_at(s, pos) == Some((f, pos + f.text().len())),
{
    lemma_opens_differ(s, pos);
    match f {
        Fields::SetValue { key, value } => {
            let a = set_open();
            let b = quoted(key);
            let c = value_mark();
            let d = quoted(value);
            let e = close();
            lemma_literal_concat(s, pos, a + b + c + d, e);
            lemma_literal_concat(s, pos, a + b + c, d);
            lemma_literal_concat(s, pos, a + b, c);
            lemma_literal_concat(s, pos, a, b);
            lemma_quoted_at_of_quoted(s, pos + a.len(), key);
            lemma_quoted_at_of_quoted(s, pos + a.len() + b.len() + c.len(), value);
        },
        Fields::Remove { key } => {
            let a = remove_open();
            let b = quoted(key);
            let e = close();
            lemma_literal_concat(s, pos, a + b, e);
            lemma_literal_concat(s, pos, a, b);
            lemma_quoted_at_of_quoted(s, pos + a.len(), key);
        },
    }
}

/// What is read as the fields of a command is the text of those fields.
proof fn lemma_text_of_fields_at(s: Seq<u8>, pos: int)
    requires
        fields_at(s, pos) is Some,
    ensures
        fields_at(s, pos) matches Some((f, end)) && literal_at(s, pos, f.text()) && end == pos
            + f.text().len(),
{
    let (f, end) = fields_at(s, pos)->0;
    match f {
        Fields::SetValue { key, value } => {
            let a = set_open();
            let b = quoted(key);
            let c = value_mark();
            let d = quoted(value);
            let e = close();
            lemma_quoted_of_quoted_at(s, pos + a.len());
            lemma_quoted_of_quoted_at(s, pos + a.len() + b.len() + c.len());
            lemma_literal_concat(s, pos, a, b);
            lemma_literal_concat(s, pos, a + b, c);
            lemma_literal_concat(s, pos, a + b + c, d);
            lemma_literal_concat(s, pos, a + b + c + d, e);
        },
        Fields::Remove { key } => {
            let a = remove_open();
            let b = quoted(key);
            let e = close();
            lemma_quoted_of_quoted_at(s, pos + a.len());
            lemma_literal_concat(s, pos, a, b);
            lemma_literal_concat(s, pos, a + b, e);
        },
    }
}

/// No text of a command is empty, and each starts with an opening brace.
pub proof fn lemma_text_starts_with_brace(c: CommandView)
    ensures
        c.text().len() > 0,
        c.text()[0] == 0x7b,
{
}

/// Where the text of a command stands, the text of no other command stands:
/// neither another command of the same length, nor a shorter or longer one.
pub proof fn lemma_text_is_unique(s: Seq<u8>, pos: int, a: CommandView, b: CommandView)
    requires
        literal_at(s, pos, a.text()),
        literal_at(s, pos, b.text()),
    ensures
        a == b,
{
    broadcast use encode_utf8_decode_utf8;

    lemma_fields_at_of_text(s, pos, fields_of(a));
    lemma_fields_at_of_text(s, pos, fields_of(b));
    assert(fields_of(a).decoded() == a);
    assert(fields_of(b).decoded() == b);
}

/// The bytes of `{"Set":{"key":`.
fn set_open_bytes() -> (lit: [u8; 14])
    ensures
        lit@ == set_open(),
{
    let lit: [u8; 14] = [
        0x7b, 0x22, 0x53, 0x65, 0x74, 0x22, 0x3a, 0x7b, 0x22, 0x6b, 0x65, 0x79, 0x22, 0x3a,
    ];
    assert(lit@ =~= set_open());
    lit
}

/// The bytes of `{"Remove":{"key":`.
fn remove_open_bytes() -> (lit: [u8; 17])
    ensures
        lit@ == remove_open(),
{
    let lit: [u8; 17] = [
        0x7b, 0x22, 0x52, 0x65, 0x6d, 0x6f, 0x76, 0x65, 0x22, 0x3a, 0x7b, 0x22, 0x6b, 0x65, 0x79,
        0x22, 0x3a,
    ];
    assert(lit@ =~= remove_open());
    lit
}

/// The bytes of `,"value":`.
fn value_mark_bytes() -> (lit: [u8; 9])
    ensures
        lit@ == value_mark(),
{
    let lit: [u8; 9] = [0x2c, 0x22, 0x76, 0x61, 0x6c, 0x75, 0x65, 0x22, 0x3a];
    assert(lit@ =~= value_mark());
    lit
}

/// The bytes of `}}`.
fn close_bytes() -> (lit: [u8; 2])
    ensures
        lit@ == close(),
{
    let lit: [u8; 2] = [0x7d, 0x7d];
    assert(lit@ =~= close());
    lit
}

/// Whether `lit` stands in `bytes` at `pos`.
fn stands_at(bytes: &[u8], pos: usize, lit: &[u8]) -> (found: bool)
    requires
        pos <= bytes@.len(),
    ensures
        found == literal_at(bytes@, pos as int, lit@),
{
    if bytes.len() - pos < lit.len() {
        return false;
    }
    let mut i: usize = 0;
    while i < lit.len()
        invariant
            i <= lit@.len(),
            pos + lit@.len() <= bytes@.len() <= usize::MAX,
            bytes@.subrange(pos as int, pos + i) == lit@.take(i as int),
        decreases lit@.len() - i,
    {
        if bytes[pos + i] != lit[i] {
            assert(bytes@.subrange(pos as int, pos + lit@.len())[i as int] != lit@[i as int]);
            return false;
        }
        assert(bytes@.subrange(pos as int, pos + i + 1) =~= bytes@.subrange(pos as int, pos + i).push(
            bytes@[pos + i],
        ));
        assert(lit@.take(i + 1) =~= lit@.take(i as int).push(lit@[i as int]));
        i += 1;
    }
    assert(lit@.take(lit@.len() as int) =~= lit@);
    true
}

/// The string that `bytes` are in UTF-8, if they are one.
///
/// This is `String::from_utf8` of the standard library. It fails exactly
/// where the bytes are not valid UTF-8, and else hands back a string that is
/// made of the very bytes it was given.
#[verifier::external_body]
fn string_from_utf8(bytes: Vec<u8>) -> (r: Option<String>)
    ensures
        r is Some <==> valid_utf8(bytes@),
        r matches Some(s) ==> encode_utf8(s@) == bytes@,
{
    match String::from_utf8(bytes) {
        Ok(s) => Some(s),
        Err(_) => None,
    }
}

/// Reads the fields of the command whose text starts at `pos`.
fn read_fields(bytes: &[u8], pos: usize) -> (r: Option<(bool, Vec<u8>, Vec<u8>, usize)>)
    requires
        pos <= bytes@.len(),
    ensures
        match r {
            Some((is_set, key, value, end)) => fields_at(bytes@, pos as int) == Some(
                (
                    if is_set {
                        Fields::SetValue { key: key@, value: value@ }
                    } else {
                        Fields::Remove { key: key@ }
                    },
                    end as int,
                ),
            ),
            None => fields_at(bytes@, pos as int) is None,
        },
{
    let set_open = set_open_bytes();
    let remove_open = remove_open_bytes();
    let value_mark = value_mark_bytes();
    let close = close_bytes();
    assert(bytes@.len() <= usize::MAX) by {
        vstd::slice::axiom_spec_len(bytes);
    }
    if stands_at(bytes, pos, set_open.as_slice()) {
        let (key, after_key) = match read_quoted(bytes, pos + set_open.as_slice().len()) {
            Some(found) => found,
            None => {
                return None;
            },
        };
        if !stands_at(bytes, after_key, value_mark.as_slice()) {
            return None;
        }
        let (value, after_value) = match read_quoted(
            bytes,
            after_key + value_mark.as_slice().len(),
        ) {
            Some(found) => found,
            None => {
                return None;
            },
        };
        if !stands_at(bytes, after_value, close.as_slice()) {
            return None;
        }
        Some((true, key, value, after_value + close.as_slice().len()))
    } else if stands_at(bytes, pos, remove_open.as_slice()) {
        let (key, after_key) = match read_quoted(bytes, pos + remove_open.as_slice().len()) {
            Some(found) => found,
            None => {
                return None;
            },
        };
        if !stands_at(bytes, after_key, close.as_slice()) {
            return None;
        }
        Some((false, key, Vec::new(), after_key + close.as_slice().len()))
    } else {
        None
    }
}

impl Command {
    /// The command that sets `key` to `value`.
    pub fn set(key: String, value: String) -> (c: Command)
        ensures
            c@ == (CommandView::SetValue { key: key@, value: value@ }),
    {
        Command::SetValue { key, value }
    }

    /// The command that removes `key`.
    pub fn remove(key: String) -> (c: Command)
        ensures
            c@ == (CommandView::Remove { key: key@ }),
    {
        Command::Remove { key }
    }

    /// Appends the text of this command to `out`.
    pub fn write_to(&self, out: &mut Vec<u8>)
        ensures
            final(out)@ == old(out)@ + self@.text(),
    {
        match self {
            Command::SetValue { key, value } => {
                let open = set_open_bytes();
                let mark = value_mark_bytes();
                let close = close_bytes();
                out.extend_from_slice(open.as_slice());
                push_quoted(out, key.as_str().as_bytes());
                out.extend_from_slice(mark.as_slice());
                push_quoted(out, value.as_str().as_bytes());
                out.extend_from_slice(close.as_slice());
                assert(out@ =~= old(out)@ + self@.text());
            },
            Command::Remove { key } => {
                let open = remove_open_bytes();
                let close = close_bytes();
                out.extend_from_slice(open.as_slice());
                push_quoted(out, key.as_str().as_bytes());
                out.extend_from_slice(close.as_slice());
                assert(out@ =~= old(out)@ + self@.text());
            },
        }
    }

    /// Reads the command whose text starts at `pos`: the command, and the
    /// offset just past its text. `None` where the text of no command starts
    /// at `pos`.
    pub fn read_at(bytes: &[u8], pos: usize) -> (r: Option<(Command, usize)>)
        requires
            pos <= bytes@.len(),
        ensures
            match r {
                Some((c, end)) => literal_at(bytes@, pos as int, c@.text()) && end == pos
                    + c@.text().len(),
                None => forall|c: CommandView| !literal_at(bytes@, pos as int, #[trigger] c.text()),
            },
    {
        broadcast use encode_utf8_valid_utf8;

        proof {
            assert forall|c: CommandView|
                literal_at(bytes@, pos as int, #[trigger] c.text()) implies fields_at(
                bytes@,
                pos as int,
            ) == Some((fields_of(c), pos + c.text().len())) && fields_of(c).well_encoded() by {
                lemma_fields_at_of_text(bytes@, pos as int, fields_of(c));
            }
            if fields_at(bytes@, pos as int) is Some {
                lemma_text_of_fields_at(bytes@, pos as int);
            }
        }
        let (is_set, key_bytes, value_bytes, end) = match read_fields(bytes, pos) {
            Some(found) => found,
            None => {
                return None;
            },
        };
        let key = match string_from_utf8(key_bytes) {
            Some(key) => key,
            None => {
                return None;
            },
        };
        if is_set {
            let value = match string_from_utf8(value_bytes) {
                Some(value) => value,
                None => {
                    return None;
                },
            };
            Some((Command::SetValue { key, value }, end))
        } else {
            Some((Command::Remove { key }, end))
        }
    }
}

} // verus!
