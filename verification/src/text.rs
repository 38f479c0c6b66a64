//! String literals of the record format: how the bytes of a key or a value
//! are written between double quotes, and how they are read back.
//!
//! A byte is written as itself, except for the double quote, the backslash and
//! the control bytes below `0x20`, which are written as a backslash escape.
//! Reading accepts exactly what writing produces.

use vstd::prelude::*;

verus! {

pub const QUOTE: u8 = 0x22;

pub const BACKSLASH: u8 = 0x5c;

/// The lower-case hexadecimal digit for `n`, where `0 <= n < 16`.
pub open spec fn hex_digit(n: int) -> u8 {
    if n < 10 {
        (0x30 + n) as u8
    } else {
        (0x57 + n) as u8
    }
}

/// How one byte of a string is written.
pub open spec fn escape_byte(b: u8) -> Seq<u8> {
    if b == 0x22 {
        // a double quote: \"
        seq![0x5cu8, 0x22u8]
    } else if b == 0x5c {
        // a backslash: \\
        seq![0x5cu8, 0x5cu8]
    } else if b == 0x08 {
        // a backspace: \b
        seq![0x5cu8, 0x62u8]
    } else if b == 0x09 {
        // a tab: \t
        seq![0x5cu8, 0x74u8]
    } else if b == 0x0a {
        // a line feed: \n
        seq![0x5cu8, 0x6eu8]
    } else if b == 0x0c {
        // a form feed: \f
        seq![0x5cu8, 0x66u8]
    } else if b == 0x0d {
        // a carriage return: \r
        seq![0x5cu8, 0x72u8]
    } else if b < 0x20 {
        // any other control byte: \u00 and two hexadecimal digits
        seq![0x5cu8, 0x75u8, 0x30u8, 0x30u8, hex_digit(b as int / 16), hex_digit(b as int % 16)]
    } else {
        seq![b]
    }
}

/// How the bytes of a string are written, without the quotes around them.
pub open spec fn escape(s: Seq<u8>) -> Seq<u8>
    decreases s.len(),
{
    if s.len() == 0 {
        Seq::empty()
    } else {
        escape_byte(s[0]) + escape(s.drop_first())
    }
}

/// A string literal: the escaped bytes between two double quotes.
pub open spec fn quoted(s: Seq<u8>) -> Seq<u8> {
    seq![QUOTE] + escape(s) + seq![QUOTE]
}

/// `lit` stands in `s` at offset `pos`.
pub open spec fn literal_at(s: Seq<u8>, pos: int, lit: Seq<u8>) -> bool {
    &&& 0 <= pos
    &&& pos + lit.len() <= s.len()
    &&& s.subrange(pos, pos + lit.len()) == lit
}

/// The byte that is written at `pos`, and how many bytes its written form
/// takes; `None` where no byte's written form stands there.
pub open spec fn unit_at(s: Seq<u8>, pos: int) -> Option<(u8, int)> {
    if pos < 0 || pos >= s.len() {
        None
    } else if s[pos] == BACKSLASH {
        if pos + 1 >= s.len() {
            None
        } else if s[pos + 1] == 0x22 {
            Some((0x22u8, 2int))
        } else if s[pos + 1] == 0x5c {
            Some((0x5cu8, 2int))
        } else if s[pos + 1] == 0x62 {
            Some((0x08u8, 2int))
        } else if s[pos + 1] == 0x74 {
            Some((0x09u8, 2int))
        } else if s[pos + 1] == 0x6e {
            Some((0x0au8, 2int))
        } else if s[pos + 1] == 0x66 {
            Some((0x0cu8, 2int))
        } else if s[pos + 1] == 0x72 {
            Some((0x0du8, 2int))
        } else if s[pos + 1] == 0x75 && pos + 5 < s.len() && s[pos + 2] == 0x30 && s[pos + 3]
            == 0x30 && (s[pos + 4] == 0x30 || s[pos + 4] == 0x31) && hex_value(s[pos + 5])
            is Some {
            let b = (s[pos + 4] - 0x30) * 16 + hex_value(s[pos + 5])->0;
            if b == 0x08 || b == 0x09 || b == 0x0a || b == 0x0c || b == 0x0d {
                None
            } else {
                Some((b as u8, 6int))
            }
        } else {
            None
        }
    } else if s[pos] < 0x20 || s[pos] == QUOTE {
        None
    } else {
        Some((s[pos], 1int))
    }
}

/// The number that a lower-case hexadecimal digit stands for.
pub open spec fn hex_value(c: u8) -> Option<int> {
    if 0x30 <= c <= 0x39 {
        Some(c - 0x30)
    } else if 0x61 <= c <= 0x66 {
        Some(c - 0x57)
    } else {
        None
    }
}

/// The string whose written form, with its closing quote, starts at `pos`,
/// and the offset just past that quote.
pub open spec fn unescape_at(s: Seq<u8>, pos: int) -> Option<(Seq<u8>, int)>
    decreases s.len() - pos,
{
    if pos < 0 || pos >= s.len() {
        None
    } else if s[pos] == QUOTE {
        Some((Seq::empty(), pos + 1))
    } else {
        match unit_at(s, pos) {
            None => None,
            Some((b, width)) => match unescape_at(s, pos + width) {
                None => None,
                Some((rest, end)) => Some((seq![b] + rest, end)),
            },
        }
    }
}

/// The string whose literal starts at `pos`, and the offset just past it.
pub open spec fn quoted_at(s: Seq<u8>, pos: int) -> Option<(Seq<u8>, int)> {
    if 0 <= pos < s.len() && s[pos] == QUOTE {
        unescape_at(s, pos + 1)
    } else {
        None
    }
}

/// A literal made of two parts stands where its parts stand one after the other.
pub proof fn lemma_literal_concat(s: Seq<u8>, pos: int, a: Seq<u8>, b: Seq<u8>)
    ensures
        literal_at(s, pos, a + b) <==> literal_at(s, pos, a) && literal_at(s, pos + a.len(), b),
{
    if literal_at(s, pos, a + b) {
        assert(s.subrange(pos, pos + a.len()) =~= (a + b).subrange(0, a.len() as int));
        assert((a + b).subrange(0, a.len() as int) =~= a);
        assert(s.subrange(pos + a.len(), pos + a.len() + b.len()) =~= (a + b).subrange(
            a.len() as int,
            (a + b).len() as int,
        ));
        assert((a + b).subrange(a.len() as int, (a + b).len() as int) =~= b);
    }
    if literal_at(s, pos, a) && literal_at(s, pos + a.len(), b) {
        assert(s.subrange(pos, pos + (a + b).len()) =~= s.subrange(pos, pos + a.len())
            + s.subrange(pos + a.len(), pos + a.len() + b.len()));
    }
}

/// Writing a string that ends in `b` is writing the rest and then `b`.
pub proof fn lemma_escape_push(s: Seq<u8>, b: u8)
    ensures
        escape(s.push(b)) == escape(s) + escape_byte(b),
    decreases s.len(),
{
    if s.len() == 0 {
        assert(s.push(b).drop_first() =~= Seq::<u8>::empty());
        assert(escape(s.push(b)) =~= escape_byte(b) + escape(Seq::<u8>::empty()));
        assert(escape(s) + escape_byte(b) =~= escape_byte(b));
        assert(escape_byte(b) + Seq::<u8>::empty() =~= escape_byte(b));
    } else {
        lemma_escape_push(s.drop_first(), b);
        assert(s.push(b).drop_first() =~= s.drop_first().push(b));
        assert(s.push(b)[0] == s[0]);
        assert(escape_byte(s[0]) + (escape(s.drop_first()) + escape_byte(b)) =~= (escape_byte(s[0])
            + escape(s.drop_first())) + escape_byte(b));
    }
}

/// The written form of a byte is read back as that byte.
pub proof fn lemma_unit_of_escape(s: Seq<u8>, pos: int, b: u8)
    requires
        literal_at(s, pos, escape_byte(b)),
    ensures
        unit_at(s, pos) == Some((b, escape_byte(b).len() as int)),
        s[pos] != QUOTE,
{
    let e = escape_byte(b);
    assert forall|i: int| 0 <= i < e.len() implies s[pos + i] == e[i] by {
        assert(s.subrange(pos, pos + e.len())[i] == s[pos + i]);
    }
    assert(s[pos] == e[0]);
    if e.len() >= 2 {
        assert(s[pos + 1] == e[1]);
    }
    if b < 0x20 && b != 0x08 && b != 0x09 && b != 0x0a && b != 0x0c && b != 0x0d {
        assert(s[pos + 2] == e[2]);
        assert(s[pos + 3] == e[3]);
        assert(s[pos + 4] == e[4]);
        assert(s[pos + 5] == e[5]);
    }
}

/// What is read as one byte is the written form of that byte.
pub proof fn lemma_escape_of_unit(s: Seq<u8>, pos: int)
    requires
        unit_at(s, pos) is Some,
    ensures
        unit_at(s, pos) matches Some((b, width)) && literal_at(s, pos, escape_byte(b)) && width
            == escape_byte(b).len(),
        s[pos] != QUOTE,
{
    let (b, w) = unit_at(s, pos)->0;
    let e = escape_byte(b);
    assert(e.len() == w);
    assert(s.subrange(pos, pos + w) =~= e);
}

/// A written string followed by a quote is read back as that string.
pub proof fn lemma_unescape_of_escape(s: Seq<u8>, pos: int, x: Seq<u8>)
    requires
        literal_at(s, pos, escape(x) + seq![QUOTE]),
    ensures
        unescape_at(s, pos) == Some((x, pos + escape(x).len() + 1)),
    decreases x.len(),
{
    lemma_literal_concat(s, pos, escape(x), seq![QUOTE]);
    if x.len() == 0 {
        assert(s.subrange(pos, pos + 1)[0] == QUOTE);
    } else {
        let head = escape_byte(x[0]);
        let tail = escape(x.drop_first());
        lemma_literal_concat(s, pos, head, tail);
        lemma_unit_of_escape(s, pos, x[0]);
        lemma_literal_concat(s, pos + head.len(), tail, seq![QUOTE]);
        lemma_unescape_of_escape(s, pos + head.len(), x.drop_first());
        assert(seq![x[0]] + x.drop_first() =~= x);
    }
}

/// What is read as a string is that string's written form and a quote.
pub proof fn lemma_escape_of_unescape(s: Seq<u8>, pos: int)
    requires
        unescape_at(s, pos) is Some,
    ensures
        unescape_at(s, pos) matches Some((x, end)) && literal_at(s, pos, escape(x) + seq![QUOTE])
            && end == pos + escape(x).len() + 1,
    decreases s.len() - pos,
{
    if s[pos] == QUOTE {
        assert(escape(Seq::<u8>::empty()) + seq![QUOTE] =~= seq![QUOTE]);
        assert(s.subrange(pos, pos + 1) =~= seq![QUOTE]);
    } else {
        let (b, width) = unit_at(s, pos)->0;
        let (rest, end) = unescape_at(s, pos + width)->0;
        let x = seq![b] + rest;
        lemma_escape_of_unit(s, pos);
        lemma_escape_of_unescape(s, pos + width);
        assert(x.drop_first() =~= rest);
        assert(x[0] == b);
        lemma_literal_concat(s, pos + width, escape(rest), seq![QUOTE]);
        lemma_literal_concat(s, pos, escape_byte(b), escape(rest));
        lemma_literal_concat(s, pos, escape(x), seq![QUOTE]);
    }
}

/// A string literal is read back as the string it was written from.
pub proof fn lemma_quoted_at_of_quoted(s: Seq<u8>, pos: int, x: Seq<u8>)
    requires
        literal_at(s, pos, quoted(x)),
    ensures
        quoted_at(s, pos) == Some((x, pos + quoted(x).len())),
{
    assert(quoted(x) =~= seq![QUOTE] + (escape(x) + seq![QUOTE]));
    lemma_literal_concat(s, pos, seq![QUOTE], escape(x) + seq![QUOTE]);
    assert(s.subrange(pos, pos + 1)[0] == QUOTE);
    lemma_unescape_of_escape(s, pos + 1, x);
}

/// What is read as a string literal is the literal of that string.
pub proof fn lemma_quoted_of_quoted_at(s: Seq<u8>, pos: int)
    requires
        quoted_at(s, pos) is Some,
    ensures
        quoted_at(s, pos) matches Some((x, end)) && literal_at(s, pos, quoted(x)) && end == pos
            + quoted(x).len(),
{
    let (x, end) = quoted_at(s, pos)->0;
    lemma_escape_of_unescape(s, pos + 1);
    assert(s.subrange(pos, pos + 1) =~= seq![QUOTE]);
    assert(quoted(x) =~= seq![QUOTE] + (escape(x) + seq![QUOTE]));
    lemma_literal_concat(s, pos, seq![QUOTE], escape(x) + seq![QUOTE]);
}

/// A string literal is read at an offset exactly where one stands there, and
/// as the string that it is the literal of.
pub proof fn lemma_quoted_at_is_exact(s: Seq<u8>, pos: int)
    ensures
        quoted_at(s, pos) matches Some((x, end)) ==> literal_at(s, pos, quoted(x)) && end == pos
            + quoted(x).len(),
        quoted_at(s, pos) is None ==> forall|x: Seq<u8>| !literal_at(s, pos, #[trigger] quoted(x)),
{
    if quoted_at(s, pos) is Some {
        lemma_quoted_of_quoted_at(s, pos);
    }
    assert forall|x: Seq<u8>| literal_at(s, pos, #[trigger] quoted(x)) implies quoted_at(s, pos)
        is Some by {
        lemma_quoted_at_of_quoted(s, pos, x);
    }
}

/// The lower-case hexadecimal digit for `n`.
fn hex_char(n: u8) -> (c: u8)
    requires
        n < 16,
    ensures
        c == hex_digit(n as int),
{
    if n < 10 {
        0x30 + n
    } else {
        0x57 + n
    }
}

/// Appends the written form of one byte to `out`.
fn push_escaped_byte(out: &mut Vec<u8>, b: u8)
    ensures
        final(out)@ == old(out)@ + escape_byte(b),
{
    if b == 0x22 || b == 0x5c || b == 0x08 || b == 0x09 || b == 0x0a || b == 0x0c || b == 0x0d {
        let letter: u8 = if b == 0x08 {
            0x62
        } else if b == 0x09 {
            0x74
        } else if b == 0x0a {
            0x6e
        } else if b == 0x0c {
            0x66
        } else if b == 0x0d {
            0x72
        } else {
            b
        };
        out.push(BACKSLASH);
        out.push(letter);
        assert(out@ =~= old(out)@ + escape_byte(b));
    } else if b < 0x20 {
        out.push(BACKSLASH);
        out.push(0x75);
        out.push(0x30);
        out.push(0x30);
        out.push(hex_char(b / 16));
        out.push(hex_char(b % 16));
        assert(out@ =~= old(out)@ + escape_byte(b));
    } else {
        out.push(b);
        assert(out@ =~= old(out)@ + escape_byte(b));
    }
}

/// Appends the literal of the string `s` to `out`.
pub fn push_quoted(out: &mut Vec<u8>, s: &[u8])
    ensures
        final(out)@ == old(out)@ + quoted(s@),
{
    out.push(QUOTE);
    let mut i: usize = 0;
    while i < s.len()
        invariant
            i <= s@.len(),
            out@ == old(out)@ + seq![QUOTE] + escape(s@.take(i as int)),
        decreases s@.len() - i,
    {
        let ghost before = out@;
        push_escaped_byte(out, s[i]);
        proof {
            lemma_escape_push(s@.take(i as int), s@[i as int]);
            assert(s@.take(i as int).push(s@[i as int]) =~= s@.take(i + 1));
            assert(out@ =~= old(out)@ + seq![QUOTE] + escape(s@.take(i + 1)));
        }
        i += 1;
    }
    out.push(QUOTE);
    proof {
        assert(s@.take(s@.len() as int) =~= s@);
        assert(out@ =~= old(out)@ + quoted(s@));
    }
}

/// Reads the written form of one byte at `pos`.
fn read_unit(bytes: &[u8], pos: usize) -> (r: Option<(u8, usize)>)
    requires
        pos < bytes@.len(),
    ensures
        match r {
            Some((b, width)) => unit_at(bytes@, pos as int) == Some((b, width as int)),
            None => unit_at(bytes@, pos as int) is None,
        },
{
    let c: u8 = bytes[pos];
    if c == BACKSLASH {
        if bytes.len() - pos < 2 {
            return None;
        }
        let d: u8 = bytes[pos + 1];
        if d == 0x22 {
            Some((0x22, 2))
        } else if d == 0x5c {
            Some((0x5c, 2))
        } else if d == 0x62 {
            Some((0x08, 2))
        } else if d == 0x74 {
            Some((0x09, 2))
        } else if d == 0x6e {
            Some((0x0a, 2))
        } else if d == 0x66 {
            Some((0x0c, 2))
        } else if d == 0x72 {
            Some((0x0d, 2))
        } else if d == 0x75 {
            if bytes.len() - pos < 6 {
                return None;
            }
            let high: u8 = bytes[pos + 4];
            let low: u8 = bytes[pos + 5];
            if bytes[pos + 2] != 0x30 || bytes[pos + 3] != 0x30 || (high != 0x30 && high != 0x31) {
                return None;
            }
            let low_value: u8 = if 0x30 <= low && low <= 0x39 {
                low - 0x30
            } else if 0x61 <= low && low <= 0x66 {
                low - 0x57
            } else {
                return None;
            };
            let b: u8 = (high - 0x30) * 16 + low_value;
            if b == 0x08 || b == 0x09 || b == 0x0a || b == 0x0c || b == 0x0d {
                None
            } else {
                Some((b, 6))
            }
        } else {
            None
        }
    } else if c < 0x20 || c == QUOTE {
        None
    } else {
        Some((c, 1))
    }
}

/// `front` put before the string of a reading.
spec fn prepend(front: Seq<u8>, reading: Option<(Seq<u8>, int)>) -> Option<(Seq<u8>, int)> {
    match reading {
        Some((rest, end)) => Some((front + rest, end)),
        None => None,
    }
}

/// Reads the string literal at `pos`: the string, and the offset just past
/// its closing quote.
pub fn read_quoted(bytes: &[u8], pos: usize) -> (r: Option<(Vec<u8>, usize)>)
    requires
        pos <= bytes@.len(),
    ensures
        match r {
            Some((x, end)) => {
                &&& literal_at(bytes@, pos as int, quoted(x@))
                &&& end == pos + quoted(x@).len()
                &&& quoted_at(bytes@, pos as int) == Some((x@, end as int))
            },
            None => {
                &&& forall|x: Seq<u8>| !literal_at(bytes@, pos as int, #[trigger] quoted(x))
                &&& quoted_at(bytes@, pos as int) is None
            },
        },
{
    proof {
        lemma_quoted_at_is_exact(bytes@, pos as int);
    }
    if pos >= bytes.len() || bytes[pos] != QUOTE {
        return None;
    }
    let mut out: Vec<u8> = Vec::new();
    let mut i: usize = pos + 1;
    assert(prepend(out@, unescape_at(bytes@, i as int)) =~= unescape_at(bytes@, i as int)) by {
        match unescape_at(bytes@, i as int) {
            Some((rest, end)) => {
                assert(out@ + rest =~= rest);
            },
            None => {},
        }
    }
    while i < bytes.len()
        invariant
            pos < i <= bytes@.len(),
            quoted_at(bytes@, pos as int) == prepend(out@, unescape_at(bytes@, i as int)),
        decreases bytes@.len() - i,
    {
        proof {
            lemma_quoted_at_is_exact(bytes@, pos as int);
        }
        if bytes[i] == QUOTE {
            assert(out@ + Seq::<u8>::empty() =~= out@);
            return Some((out, i + 1));
        }
        match read_unit(bytes, i) {
            None => {
                return None;
            },
            Some((b, width)) => {
                proof {
                    lemma_escape_of_unit(bytes@, i as int);
                    match unescape_at(bytes@, i + width) {
                        Some((rest, end)) => {
                            assert(out@ + (seq![b] + rest) =~= out@.push(b) + rest);
                        },
                        None => {},
                    }
                }
                out.push(b);
                i += width;
            },
        }
    }
    proof {
        lemma_quoted_at_is_exact(bytes@, pos as int);
    }
    None
}

} // verus!
