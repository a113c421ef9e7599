//! Writing JSON strings.

use vstd::prelude::*;
use crate::json::{
    decoded, escape_at, hex4, hex_digit, parse_value, skip_spaces, string_from, utf8_bytes,
    JsonValue, BACKSLASH, LOWER_A, LOWER_U, MAX_DEPTH, QUOTE, ZERO,
};

verus! {

/// The digit that writes `v`, a number below 16, in hexadecimal.
pub open spec fn hex_char(v: int) -> u8 {
    if v < 10 {
        (ZERO + v) as u8
    } else {
        (LOWER_A + v - 10) as u8
    }
}

/// How one byte of a text stands inside a JSON string: the quote and the
/// backslash behind a backslash, a control character as a `\u` escape,
/// every other byte as it is.
pub open spec fn escaped_byte(b: u8) -> Seq<u8> {
    if b == QUOTE || b == BACKSLASH {
        seq![BACKSLASH, b]
    } else if b < 0x20 {
        seq![BACKSLASH, LOWER_U, ZERO, ZERO, hex_char(b as int / 16), hex_char(b as int % 16)]
    } else {
        seq![b]
    }
}

/// How a text stands inside a JSON string.
pub open spec fn escaped(text: Seq<u8>) -> Seq<u8>
    decreases text.len(),
{
    if text.len() == 0 {
        Seq::empty()
    } else {
        escaped_byte(text[0]) + escaped(text.drop_first())
    }
}

/// The JSON string that writes `text`.
pub open spec fn quoted(text: Seq<u8>) -> Seq<u8> {
    seq![QUOTE] + escaped(text) + seq![QUOTE]
}

pub proof fn lemma_escaped_push(text: Seq<u8>, b: u8)
    ensures
        escaped(text.push(b)) == escaped(text) + escaped_byte(b),
    decreases text.len(),
{
    if text.len() == 0 {
        assert(text.push(b).drop_first() =~= Seq::<u8>::empty());
        assert(escaped(Seq::<u8>::empty()) =~= Seq::<u8>::empty());
        assert(escaped(text.push(b)) =~= escaped_byte(b) + Seq::<u8>::empty());
        assert(escaped(text) + escaped_byte(b) =~= escaped_byte(b));
    } else {
        lemma_escaped_push(text.drop_first(), b);
        assert(text.push(b).drop_first() =~= text.drop_first().push(b));
        assert(escaped_byte(text[0]) + (escaped(text.drop_first()) + escaped_byte(b)) =~= (
        escaped_byte(text[0]) + escaped(text.drop_first())) + escaped_byte(b));
    }
}

/// Puts `bytes` behind `out`.
pub fn append(out: &mut Vec<u8>, bytes: &[u8])
    ensures
        final(out)@ == old(out)@ + bytes@,
{
    let mut k: usize = 0;
    assert(out@ =~= old(out)@ + bytes@.take(0));
    while k < bytes.len()
        invariant
            k <= bytes@.len(),
            out@ == old(out)@ + bytes@.take(k as int),
        decreases bytes@.len() - k,
    {
        out.push(bytes[k]);
        assert(out@ =~= old(out)@ + bytes@.take(k + 1));
        k += 1;
    }
    assert(bytes@.take(k as int) =~= bytes@);
}

fn hex_char_of(v: u8) -> (c: u8)
    requires
        v < 16,
    ensures
        c == hex_char(v as int),
{
    if v < 10 {
        ZERO + v
    } else {
        LOWER_A + (v - 10)
    }
}

fn write_escaped_byte(b: u8, out: &mut Vec<u8>)
    ensures
        final(out)@ == old(out)@ + escaped_byte(b),
{
    if b == QUOTE || b == BACKSLASH {
        out.push(BACKSLASH);
        out.push(b);
    } else if b < 0x20 {
        out.push(BACKSLASH);
        out.push(LOWER_U);
        out.push(ZERO);
        out.push(ZERO);
        out.push(hex_char_of(b / 16));
        out.push(hex_char_of(b % 16));
    } else {
        out.push(b);
    }
    assert(out@ =~= old(out)@ + escaped_byte(b));
}

/// Puts the JSON string that writes `text` behind `out`.
pub fn write_quoted(text: &[u8], out: &mut Vec<u8>)
    ensures
        final(out)@ == old(out)@ + quoted(text@),
{
    out.push(QUOTE);
    let mut k: usize = 0;
    assert(text@.take(0) =~= Seq::<u8>::empty());
    assert(out@ =~= old(out)@ + seq![QUOTE] + escaped(text@.take(0)));
    while k < text.len()
        invariant
            k <= text@.len(),
            out@ == old(out)@ + seq![QUOTE] + escaped(text@.take(k as int)),
        decreases text@.len() - k,
    {
        proof {
            lemma_escaped_push(text@.take(k as int), text@[k as int]);
            assert(text@.take(k as int).push(text@[k as int]) =~= text@.take(k + 1));
        }
        write_escaped_byte(text[k], out);
        assert(out@ =~= old(out)@ + seq![QUOTE] + escaped(text@.take(k + 1)));
        k += 1;
    }
    assert(text@.take(k as int) =~= text@);
    out.push(QUOTE);
    assert(out@ =~= old(out)@ + quoted(text@));
}

/// The reader finds in an escaped text, behind any head and before its
/// closing quote, the text that was escaped.
proof fn lemma_escaped_reads_back(head: Seq<u8>, text: Seq<u8>, tail: Seq<u8>)
    ensures
        string_from(head + escaped(text) + seq![QUOTE] + tail, head.len() as int) == Some(
            (text, head.len() as int + escaped(text).len() + 1),
        ),
    decreases text.len(),
{
    let s = head + escaped(text) + seq![QUOTE] + tail;
    let i = head.len() as int;
    if text.len() == 0 {
        assert(s[i] == QUOTE);
        assert(text =~= Seq::<u8>::empty());
    } else {
        let b = text[0];
        let rest = text.drop_first();
        let piece = escaped_byte(b);
        let longer = head + piece;
        assert(s =~= longer + escaped(rest) + seq![QUOTE] + tail);
        lemma_escaped_reads_back(longer, rest, tail);
        assert(seq![b] + rest =~= text);
        assert(forall|k: int| 0 <= k < piece.len() ==> s[i + k] == piece[k]);
        if b == QUOTE || b == BACKSLASH {
            assert(s[i] == piece[0]);
            assert(s[i + 1] == piece[1]);
            assert(escape_at(s, i + 1) == Some((seq![b], i + 2)));
        } else if b < 0x20 {
            assert(s[i] == piece[0]);
            assert(s[i + 1] == piece[1]);
            assert(s[i + 2] == piece[2]);
            assert(s[i + 3] == piece[3]);
            assert(s[i + 4] == piece[4]);
            assert(s[i + 5] == piece[5]);
            assert(hex_digit(hex_char(b as int / 16)) == Some(b as int / 16));
            assert(hex_digit(hex_char(b as int % 16)) == Some(b as int % 16));
            assert(hex4(s, i + 2) == Some(b as int));
            assert(utf8_bytes(b as int) =~= seq![b]);
            assert(escape_at(s, i + 1) == Some((seq![b], i + 6)));
        } else {
            assert(s[i] == piece[0]);
        }
    }
}

/// Every text reads back from the JSON string that writes it.
pub proof fn law_quoted_reads_back(text: Seq<u8>)
    ensures
        decoded(quoted(text)) == Some(JsonValue::Text(text)),
{
    let s = quoted(text);
    lemma_escaped_reads_back(seq![QUOTE], text, Seq::empty());
    assert(s =~= seq![QUOTE] + escaped(text) + seq![QUOTE] + Seq::<u8>::empty());
    assert(s[0] == QUOTE);
    assert(skip_spaces(s, 0) == 0);
    assert(parse_value(s, 0, MAX_DEPTH as nat) == Some(
        (JsonValue::Text(text), s.len() as int),
    ));
    assert(skip_spaces(s, s.len() as int) == s.len());
}

} // verus!
