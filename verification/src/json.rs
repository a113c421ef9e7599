//! JSON values and the grammar of their textual form.
//!
//! The grammar is given as specification functions that read a byte string
//! from a position; the executable reader is proved to compute exactly what
//! they say. Texts are byte strings in UTF-8 throughout.

use vstd::prelude::*;
use crate::bytes::{bytes_equal, copy_range, has_word, word_at};

verus! {

/// A JSON value as a mathematical tree.
pub enum JsonValue {
    Null,
    Bool(bool),
    /// A number, kept as the bytes of its literal.
    Number(Seq<u8>),
    /// A string, with its escapes resolved.
    Text(Seq<u8>),
    Array(Seq<JsonValue>),
    /// The members of an object, in the order of the text.
    Object(Seq<(Seq<u8>, JsonValue)>),
}

/// One `key: value` pair of an object.
#[derive(Debug, PartialEq, Eq)]
pub struct Member {
    pub key: Vec<u8>,
    pub value: Json,
}

/// A JSON value held in memory.
#[derive(Debug, PartialEq, Eq)]
pub enum Json {
    Null,
    Bool(bool),
    Number(Vec<u8>),
    Text(Vec<u8>),
    Array(Vec<Json>),
    Object(Vec<Member>),
}

/// The tree that a stored value stands for.
pub open spec fn value_of(j: Json) -> JsonValue
    decreases j,
{
    match j {
        Json::Null => JsonValue::Null,
        Json::Bool(b) => JsonValue::Bool(b),
        Json::Number(n) => JsonValue::Number(n@),
        Json::Text(t) => JsonValue::Text(t@),
        Json::Array(items) => JsonValue::Array(
            Seq::new(
                items@.len(),
                |k: int|
                    if 0 <= k < items@.len() {
                        value_of(items@[k])
                    } else {
                        JsonValue::Null
                    },
            ),
        ),
        Json::Object(members) => JsonValue::Object(
            Seq::new(
                members@.len(),
                |k: int|
                    if 0 <= k < members@.len() {
                        (members@[k].key@, value_of(members@[k].value))
                    } else {
                        (Seq::empty(), JsonValue::Null)
                    },
            ),
        ),
    }
}

impl View for Json {
    type V = JsonValue;

    open spec fn view(&self) -> JsonValue {
        value_of(*self)
    }
}

/// The trees of a sequence of stored values.
pub open spec fn values_of(items: Seq<Json>) -> Seq<JsonValue> {
    Seq::new(items.len(), |k: int| value_of(items[k]))
}

/// The pairs of a sequence of stored members.
pub open spec fn members_of(members: Seq<Member>) -> Seq<(Seq<u8>, JsonValue)> {
    Seq::new(members.len(), |k: int| (members[k].key@, value_of(members[k].value)))
}

/// A stored array stands for the array of what its items stand for.
pub proof fn lemma_array_value(items: Vec<Json>)
    ensures
        Json::Array(items)@ == JsonValue::Array(values_of(items@)),
{
    assert(Json::Array(items)@->Array_0 =~= values_of(items@));
}

/// A stored object stands for the object of what its members stand for.
pub proof fn lemma_object_value(members: Vec<Member>)
    ensures
        Json::Object(members)@ == JsonValue::Object(members_of(members@)),
{
    assert(Json::Object(members)@->Object_0 =~= members_of(members@));
}

/// The deepest nesting of arrays and objects that the reader follows.
pub const MAX_DEPTH: usize = 128;

// The characters of the grammar.

pub const QUOTE: u8 = 0x22;

pub const BACKSLASH: u8 = 0x5C;

pub const SLASH: u8 = 0x2F;

pub const MINUS: u8 = 0x2D;

pub const PLUS: u8 = 0x2B;

pub const DOT: u8 = 0x2E;

pub const COMMA: u8 = 0x2C;

pub const COLON: u8 = 0x3A;

pub const OPEN_BRACKET: u8 = 0x5B;

pub const CLOSE_BRACKET: u8 = 0x5D;

pub const OPEN_BRACE: u8 = 0x7B;

pub const CLOSE_BRACE: u8 = 0x7D;

pub const ZERO: u8 = 0x30;

pub const NINE: u8 = 0x39;

pub const LOWER_A: u8 = 0x61;

pub const LOWER_B: u8 = 0x62;

pub const LOWER_E: u8 = 0x65;

pub const LOWER_F: u8 = 0x66;

pub const LOWER_L: u8 = 0x6C;

pub const LOWER_N: u8 = 0x6E;

pub const LOWER_R: u8 = 0x72;

pub const LOWER_S: u8 = 0x73;

pub const LOWER_T: u8 = 0x74;

pub const LOWER_U: u8 = 0x75;

pub const UPPER_A: u8 = 0x41;

pub const UPPER_E: u8 = 0x45;

pub const UPPER_F: u8 = 0x46;

/// Space, tab, line feed and carriage return separate tokens.
pub open spec fn is_space(b: u8) -> bool {
    b == 0x20 || b == 0x09 || b == 0x0A || b == 0x0D
}

/// The ten decimal digits.
pub open spec fn is_digit(b: u8) -> bool {
    ZERO <= b <= NINE
}

/// The first position from `i` on that holds no white space.
pub open spec fn skip_spaces(s: Seq<u8>, i: int) -> int
    decreases s.len() - i,
{
    if 0 <= i < s.len() && is_space(s[i]) {
        skip_spaces(s, i + 1)
    } else {
        i
    }
}

/// The first position from `i` on that holds no decimal digit.
pub open spec fn skip_digits(s: Seq<u8>, i: int) -> int
    decreases s.len() - i,
{
    if 0 <= i < s.len() && is_digit(s[i]) {
        skip_digits(s, i + 1)
    } else {
        i
    }
}

/// The word that writes the null value.
pub open spec fn word_null() -> Seq<u8> {
    seq![LOWER_N, LOWER_U, LOWER_L, LOWER_L]
}

/// The word that writes the true value.
pub open spec fn word_true() -> Seq<u8> {
    seq![LOWER_T, LOWER_R, LOWER_U, LOWER_E]
}

/// The word that writes the false value.
pub open spec fn word_false() -> Seq<u8> {
    seq![LOWER_F, LOWER_A, LOWER_L, LOWER_S, LOWER_E]
}

/// Where the number literal that starts at `i` ends: an optional minus, an
/// integer part without a leading zero, an optional fraction, an optional
/// exponent. `None` where no number starts at `i`.
pub open spec fn number_end(s: Seq<u8>, i: int) -> Option<int> {
    let a = if 0 <= i < s.len() && s[i] == MINUS {
        i + 1
    } else {
        i
    };
    if !(0 <= a < s.len() && is_digit(s[a])) {
        None
    } else {
        let b = if s[a] == ZERO {
            a + 1
        } else {
            skip_digits(s, a)
        };
        let c = if b < s.len() && s[b] == DOT {
            if b + 1 < s.len() && is_digit(s[b + 1]) {
                Some(skip_digits(s, b + 1))
            } else {
                None
            }
        } else {
            Some(b)
        };
        match c {
            None => None,
            Some(c) => if c < s.len() && (s[c] == LOWER_E || s[c] == UPPER_E) {
                let d = if c + 1 < s.len() && (s[c + 1] == PLUS || s[c + 1] == MINUS) {
                    c + 2
                } else {
                    c + 1
                };
                if d < s.len() && is_digit(s[d]) {
                    Some(skip_digits(s, d))
                } else {
                    None
                }
            } else {
                Some(c)
            },
        }
    }
}

/// The value of a hexadecimal digit.
pub open spec fn hex_digit(b: u8) -> Option<int> {
    if ZERO <= b <= NINE {
        Some(b - ZERO)
    } else if LOWER_A <= b <= LOWER_F {
        Some(b - LOWER_A + 10)
    } else if UPPER_A <= b <= UPPER_F {
        Some(b - UPPER_A + 10)
    } else {
        None
    }
}

/// The number that the four hexadecimal digits at `i` write.
pub open spec fn hex4(s: Seq<u8>, i: int) -> Option<int> {
    if 0 <= i && i + 4 <= s.len() && hex_digit(s[i]) is Some && hex_digit(s[i + 1]) is Some
        && hex_digit(s[i + 2]) is Some && hex_digit(s[i + 3]) is Some {
        Some(
            ((hex_digit(s[i])->0 * 16 + hex_digit(s[i + 1])->0) * 16 + hex_digit(s[i + 2])->0) * 16
                + hex_digit(s[i + 3])->0,
        )
    } else {
        None
    }
}

/// The UTF-8 encoding of a code point below 0x110000.
pub open spec fn utf8_bytes(cp: int) -> Seq<u8> {
    if cp < 0x80 {
        seq![cp as u8]
    } else if cp < 0x800 {
        seq![(0xC0 + cp / 0x40) as u8, (0x80 + cp % 0x40) as u8]
    } else if cp < 0x10000 {
        seq![
            (0xE0 + cp / 0x1000) as u8,
            (0x80 + (cp / 0x40) % 0x40) as u8,
            (0x80 + cp % 0x40) as u8,
        ]
    } else {
        seq![
            (0xF0 + cp / 0x40000) as u8,
            (0x80 + (cp / 0x1000) % 0x40) as u8,
            (0x80 + (cp / 0x40) % 0x40) as u8,
            (0x80 + cp % 0x40) as u8,
        ]
    }
}

/// The bytes that the escape after the backslash at `i - 1` stands for, and
/// the position after it. A `\u` escape of a leading surrogate must be
/// followed by one of a trailing surrogate; the pair gives one code point.
pub open spec fn escape_at(s: Seq<u8>, i: int) -> Option<(Seq<u8>, int)> {
    if !(0 <= i < s.len()) {
        None
    } else if s[i] == QUOTE || s[i] == BACKSLASH || s[i] == SLASH {
        Some((seq![s[i]], i + 1))
    } else if s[i] == LOWER_B {
        Some((seq![0x08u8], i + 1))
    } else if s[i] == LOWER_F {
        Some((seq![0x0Cu8], i + 1))
    } else if s[i] == LOWER_N {
        Some((seq![0x0Au8], i + 1))
    } else if s[i] == LOWER_R {
        Some((seq![0x0Du8], i + 1))
    } else if s[i] == LOWER_T {
        Some((seq![0x09u8], i + 1))
    } else if s[i] == LOWER_U {
        match hex4(s, i + 1) {
            None => None,
            Some(unit) => if 0xD800 <= unit < 0xDC00 {
                if i + 7 <= s.len() && s[i + 5] == BACKSLASH && s[i + 6] == LOWER_U {
                    match hex4(s, i + 7) {
                        None => None,
                        Some(low) => if 0xDC00 <= low < 0xE000 {
                            Some(
                                (
                                    utf8_bytes(0x10000 + (unit - 0xD800) * 0x400 + (low - 0xDC00)),
                                    i + 11,
                                ),
                            )
                        } else {
                            None
                        },
                    }
                } else {
                    None
                }
            } else if 0xDC00 <= unit < 0xE000 {
                None
            } else {
                Some((utf8_bytes(unit), i + 5))
            },
        }
    } else {
        None
    }
}

/// The content of the string whose opening quote stands at `i - 1`, and the
/// position after its closing quote. Control characters must be escaped.
pub open spec fn string_from(s: Seq<u8>, i: int) -> Option<(Seq<u8>, int)>
    decreases s.len() - i,
{
    if !(0 <= i < s.len()) {
        None
    } else if s[i] == QUOTE {
        Some((Seq::empty(), i + 1))
    } else if s[i] < 0x20 {
        None
    } else if s[i] == BACKSLASH {
        match escape_at(s, i + 1) {
            None => None,
            Some((bytes, next)) => match string_from(s, next) {
                None => None,
                Some((rest, end)) => Some((bytes + rest, end)),
            },
        }
    } else {
        match string_from(s, i + 1) {
            None => None,
            Some((rest, end)) => Some((seq![s[i]] + rest, end)),
        }
    }
}

/// The value that starts at `i`, and the position after it, following at
/// most `depth` levels of arrays and objects.
pub open spec fn parse_value(s: Seq<u8>, i: int, depth: nat) -> Option<(JsonValue, int)>
    decreases depth, 1nat, s.len() - i,
{
    if !(0 <= i < s.len()) {
        None
    } else if s[i] == LOWER_N {
        if has_word(s, i, word_null()) {
            Some((JsonValue::Null, i + 4))
        } else {
            None
        }
    } else if s[i] == LOWER_T {
        if has_word(s, i, word_true()) {
            Some((JsonValue::Bool(true), i + 4))
        } else {
            None
        }
    } else if s[i] == LOWER_F {
        if has_word(s, i, word_false()) {
            Some((JsonValue::Bool(false), i + 5))
        } else {
            None
        }
    } else if s[i] == QUOTE {
        match string_from(s, i + 1) {
            None => None,
            Some((text, end)) => Some((JsonValue::Text(text), end)),
        }
    } else if s[i] == MINUS || is_digit(s[i]) {
        match number_end(s, i) {
            None => None,
            Some(end) => Some((JsonValue::Number(s.subrange(i, end)), end)),
        }
    } else if s[i] == OPEN_BRACKET {
        let first = skip_spaces(s, i + 1);
        if depth == 0 {
            None
        } else if first < s.len() && s[first] == CLOSE_BRACKET {
            Some((JsonValue::Array(Seq::empty()), first + 1))
        } else {
            parse_elements(s, first, depth, Seq::empty())
        }
    } else if s[i] == OPEN_BRACE {
        let first = skip_spaces(s, i + 1);
        if depth == 0 {
            None
        } else if first < s.len() && s[first] == CLOSE_BRACE {
            Some((JsonValue::Object(Seq::empty()), first + 1))
        } else {
            parse_members(s, first, depth, Seq::empty())
        }
    } else {
        None
    }
}

/// The array whose elements before `i` are `done` and whose next element
/// starts at `i`, and the position after its closing bracket.
///
/// A value is never empty, so the test that the next element starts after
/// `i` never fails; it makes the recursion well-founded.
pub open spec fn parse_elements(s: Seq<u8>, i: int, depth: nat, done: Seq<JsonValue>) -> Option<
    (JsonValue, int),
>
    decreases depth, 0nat, s.len() - i,
{
    if depth == 0 {
        None
    } else {
        match parse_value(s, i, (depth - 1) as nat) {
            None => None,
            Some((v, end)) => {
                let k = skip_spaces(s, end);
                if !(0 <= k < s.len()) {
                    None
                } else if s[k] == COMMA {
                    let next = skip_spaces(s, k + 1);
                    if i < next <= s.len() {
                        parse_elements(s, next, depth, done.push(v))
                    } else {
                        None
                    }
                } else if s[k] == CLOSE_BRACKET {
                    Some((JsonValue::Array(done.push(v)), k + 1))
                } else {
                    None
                }
            },
        }
    }
}

/// The object whose members before `i` are `done` and whose next member
/// starts at `i`, and the position after its closing brace.
///
/// As for the elements of an array, the test that the next member starts
/// after `i` never fails.
pub open spec fn parse_members(
    s: Seq<u8>,
    i: int,
    depth: nat,
    done: Seq<(Seq<u8>, JsonValue)>,
) -> Option<(JsonValue, int)>
    decreases depth, 0nat, s.len() - i,
{
    if depth == 0 || !(0 <= i < s.len()) || s[i] != QUOTE {
        None
    } else {
        match string_from(s, i + 1) {
            None => None,
            Some((key, key_end)) => {
                let colon = skip_spaces(s, key_end);
                if !(0 <= colon < s.len()) || s[colon] != COLON {
                    None
                } else {
                    match parse_value(s, skip_spaces(s, colon + 1), (depth - 1) as nat) {
                        None => None,
                        Some((v, end)) => {
                            let k = skip_spaces(s, end);
                            if !(0 <= k < s.len()) {
                                None
                            } else if s[k] == COMMA {
                                let next = skip_spaces(s, k + 1);
                                if i < next <= s.len() {
                                    parse_members(s, next, depth, done.push((key, v)))
                                } else {
                                    None
                                }
                            } else if s[k] == CLOSE_BRACE {
                                Some((JsonValue::Object(done.push((key, v))), k + 1))
                            } else {
                                None
                            }
                        },
                    }
                }
            },
        }
    }
}

/// The value that the whole of `s` writes: one value, with nothing but white
/// space around it. `None` where `s` is no JSON text, or nests deeper than
/// `MAX_DEPTH`.
pub open spec fn decoded(s: Seq<u8>) -> Option<JsonValue> {
    match parse_value(s, skip_spaces(s, 0), MAX_DEPTH as nat) {
        None => None,
        Some((v, end)) => if skip_spaces(s, end) == s.len() {
            Some(v)
        } else {
            None
        },
    }
}


// ---------------------------------------------------------------------
// What holds of the grammar
// ---------------------------------------------------------------------

proof fn lemma_skip_spaces_bounds(s: Seq<u8>, i: int)
    requires
        0 <= i <= s.len(),
    ensures
        i <= skip_spaces(s, i) <= s.len(),
    decreases s.len() - i,
{
    if i < s.len() && is_space(s[i]) {
        lemma_skip_spaces_bounds(s, i + 1);
    }
}

proof fn lemma_skip_digits_bounds(s: Seq<u8>, i: int)
    requires
        0 <= i <= s.len(),
    ensures
        i <= skip_digits(s, i) <= s.len(),
    decreases s.len() - i,
{
    if i < s.len() && is_digit(s[i]) {
        lemma_skip_digits_bounds(s, i + 1);
    }
}

proof fn lemma_number_bounds(s: Seq<u8>, i: int)
    ensures
        number_end(s, i) matches Some(end) ==> i < end <= s.len(),
{
    if let Some(end) = number_end(s, i) {
        let a = if 0 <= i < s.len() && s[i] == MINUS {
            i + 1
        } else {
            i
        };
        lemma_skip_digits_bounds(s, a + 1);
        let b = if s[a] == ZERO {
            a + 1
        } else {
            skip_digits(s, a)
        };
        if b + 1 <= s.len() {
            lemma_skip_digits_bounds(s, b + 1);
        }
        let c = if b < s.len() && s[b] == DOT {
            skip_digits(s, b + 1)
        } else {
            b
        };
        if c < s.len() && (s[c] == LOWER_E || s[c] == UPPER_E) {
            let d = if c + 1 < s.len() && (s[c + 1] == PLUS || s[c + 1] == MINUS) {
                c + 2
            } else {
                c + 1
            };
            lemma_skip_digits_bounds(s, d);
        }
    }
}

proof fn lemma_string_bounds(s: Seq<u8>, i: int)
    ensures
        string_from(s, i) matches Some((text, end)) ==> i < end <= s.len(),
    decreases s.len() - i,
{
    if 0 <= i < s.len() && s[i] != QUOTE && s[i] >= 0x20 {
        if s[i] == BACKSLASH {
            if let Some((bytes, next)) = escape_at(s, i + 1) {
                lemma_string_bounds(s, next);
            }
        } else {
            lemma_string_bounds(s, i + 1);
        }
    }
}

proof fn lemma_value_bounds(s: Seq<u8>, i: int, depth: nat)
    ensures
        parse_value(s, i, depth) matches Some((v, end)) ==> i < end <= s.len(),
    decreases depth, 1nat, s.len() - i,
{
    if 0 <= i < s.len() {
        if s[i] == QUOTE {
            lemma_string_bounds(s, i + 1);
        } else if s[i] == MINUS || is_digit(s[i]) {
            lemma_number_bounds(s, i);
        } else if s[i] == OPEN_BRACKET {
            lemma_skip_spaces_bounds(s, i + 1);
            lemma_elements_bounds(s, skip_spaces(s, i + 1), depth, Seq::empty());
        } else if s[i] == OPEN_BRACE {
            lemma_skip_spaces_bounds(s, i + 1);
            lemma_members_bounds(s, skip_spaces(s, i + 1), depth, Seq::empty());
        }
    }
}

proof fn lemma_elements_bounds(s: Seq<u8>, i: int, depth: nat, done: Seq<JsonValue>)
    ensures
        parse_elements(s, i, depth, done) matches Some((v, end)) ==> i < end <= s.len(),
    decreases depth, 0nat, s.len() - i,
{
    if depth > 0 {
        lemma_value_bounds(s, i, (depth - 1) as nat);
        if let Some((v, end)) = parse_value(s, i, (depth - 1) as nat) {
            lemma_skip_spaces_bounds(s, end);
            let k = skip_spaces(s, end);
            if 0 <= k < s.len() && s[k] == COMMA {
                let next = skip_spaces(s, k + 1);
                if i < next <= s.len() {
                    lemma_elements_bounds(s, next, depth, done.push(v));
                }
            }
        }
    }
}

proof fn lemma_members_bounds(s: Seq<u8>, i: int, depth: nat, done: Seq<(Seq<u8>, JsonValue)>)
    ensures
        parse_members(s, i, depth, done) matches Some((v, end)) ==> i < end <= s.len(),
    decreases depth, 0nat, s.len() - i,
{
    if depth > 0 && 0 <= i < s.len() && s[i] == QUOTE {
        lemma_string_bounds(s, i + 1);
        if let Some((key, key_end)) = string_from(s, i + 1) {
            lemma_skip_spaces_bounds(s, key_end);
            let colon = skip_spaces(s, key_end);
            if 0 <= colon < s.len() && s[colon] == COLON {
                lemma_skip_spaces_bounds(s, colon + 1);
                let start = skip_spaces(s, colon + 1);
                lemma_value_bounds(s, start, (depth - 1) as nat);
                if let Some((v, end)) = parse_value(s, start, (depth - 1) as nat) {
                    lemma_skip_spaces_bounds(s, end);
                    let k = skip_spaces(s, end);
                    if 0 <= k < s.len() && s[k] == COMMA {
                        let next = skip_spaces(s, k + 1);
                        if i < next <= s.len() {
                            lemma_members_bounds(s, next, depth, done.push((key, v)));
                        }
                    }
                }
            }
        }
    }
}

/// A value is never empty and never runs past the end of the text.
pub proof fn law_value_is_not_empty(s: Seq<u8>, i: int, depth: nat)
    ensures
        parse_value(s, i, depth) matches Some((v, end)) ==> i < end <= s.len(),
{
    lemma_value_bounds(s, i, depth);
}

/// The element that follows a comma in an array starts behind the element
/// before it: the test in `parse_elements` never fails.
pub proof fn law_next_element_starts_later(s: Seq<u8>, i: int, depth: nat)
    ensures
        parse_value(s, i, depth) matches Some((v, end)) ==> ({
            let k = skip_spaces(s, end);
            0 <= k < s.len() ==> i < skip_spaces(s, k + 1) <= s.len()
        }),
{
    lemma_value_bounds(s, i, depth);
    if let Some((v, end)) = parse_value(s, i, depth) {
        lemma_skip_spaces_bounds(s, end);
        let k = skip_spaces(s, end);
        if 0 <= k < s.len() {
            lemma_skip_spaces_bounds(s, k + 1);
        }
    }
}

// ---------------------------------------------------------------------
// The reader
// ---------------------------------------------------------------------

/// `head` put in front of the text of a parsed string tail.
pub open spec fn prepend(head: Seq<u8>, tail: Option<(Seq<u8>, int)>) -> Option<(Seq<u8>, int)> {
    match tail {
        None => None,
        Some((rest, end)) => Some((head + rest, end)),
    }
}

proof fn lemma_prepend_twice(a: Seq<u8>, b: Seq<u8>, tail: Option<(Seq<u8>, int)>)
    ensures
        prepend(a, prepend(b, tail)) == prepend(a + b, tail),
{
    if let Some((rest, end)) = tail {
        assert(a + (b + rest) =~= (a + b) + rest);
    }
}

fn is_space_byte(b: u8) -> (r: bool)
    ensures
        r == is_space(b),
{
    b == 0x20 || b == 0x09 || b == 0x0A || b == 0x0D
}

fn is_digit_byte(b: u8) -> (r: bool)
    ensures
        r == is_digit(b),
{
    ZERO <= b && b <= NINE
}

fn after_spaces(s: &[u8], i: usize) -> (j: usize)
    requires
        i <= s@.len(),
    ensures
        j == skip_spaces(s@, i as int),
        i <= j <= s@.len(),
{
    let mut j = i;
    while j < s.len() && is_space_byte(s[j])
        invariant
            i <= j <= s@.len(),
            skip_spaces(s@, j as int) == skip_spaces(s@, i as int),
        decreases s@.len() - j,
    {
        j += 1;
    }
    j
}

fn after_digits(s: &[u8], i: usize) -> (j: usize)
    requires
        i <= s@.len(),
    ensures
        j == skip_digits(s@, i as int),
        i <= j <= s@.len(),
{
    let mut j = i;
    while j < s.len() && is_digit_byte(s[j])
        invariant
            i <= j <= s@.len(),
            skip_digits(s@, j as int) == skip_digits(s@, i as int),
        decreases s@.len() - j,
    {
        j += 1;
    }
    j
}

fn number_end_at(s: &[u8], i: usize) -> (res: Option<usize>)
    requires
        i <= s@.len(),
    ensures
        res matches Some(end) ==> number_end(s@, i as int) == Some(end as int) && i < end
            <= s@.len(),
        res is None ==> number_end(s@, i as int) is None,
{
    let n = s.len();
    let mut a = i;
    if a < n && s[a] == MINUS {
        a += 1;
    }
    if !(a < n && is_digit_byte(s[a])) {
        return None;
    }
    let b = if s[a] == ZERO {
        a + 1
    } else {
        assert(skip_digits(s@, a as int) == skip_digits(s@, a + 1));
        after_digits(s, a + 1)
    };
    let mut c = b;
    if b < n && s[b] == DOT {
        if b + 1 < n && is_digit_byte(s[b + 1]) {
            c = after_digits(s, b + 1);
        } else {
            return None;
        }
    }
    if c < n && (s[c] == LOWER_E || s[c] == UPPER_E) {
        let mut d = c + 1;
        if d < n && (s[d] == PLUS || s[d] == MINUS) {
            d += 1;
        }
        if d < n && is_digit_byte(s[d]) {
            Some(after_digits(s, d))
        } else {
            None
        }
    } else {
        Some(c)
    }
}

fn hex_value(b: u8) -> (r: Option<u32>)
    ensures
        r matches Some(v) ==> hex_digit(b) == Some(v as int) && v < 16,
        r is None ==> hex_digit(b) is None,
{
    if ZERO <= b && b <= NINE {
        Some((b - ZERO) as u32)
    } else if LOWER_A <= b && b <= LOWER_F {
        Some((b - LOWER_A + 10) as u32)
    } else if UPPER_A <= b && b <= UPPER_F {
        Some((b - UPPER_A + 10) as u32)
    } else {
        None
    }
}

fn hex4_at(s: &[u8], i: usize) -> (r: Option<u32>)
    requires
        i <= s@.len(),
    ensures
        r matches Some(v) ==> hex4(s@, i as int) == Some(v as int) && v < 0x10000,
        r is None ==> hex4(s@, i as int) is None,
{
    if s.len() - i < 4 {
        return None;
    }
    match (hex_value(s[i]), hex_value(s[i + 1]), hex_value(s[i + 2]), hex_value(s[i + 3])) {
        (Some(a), Some(b), Some(c), Some(d)) => Some(((a * 16 + b) * 16 + c) * 16 + d),
        _ => None,
    }
}

fn push_utf8(out: &mut Vec<u8>, cp: u32)
    requires
        cp < 0x110000,
    ensures
        final(out)@ == old(out)@ + utf8_bytes(cp as int),
{
    if cp < 0x80 {
        out.push(cp as u8);
    } else if cp < 0x800 {
        out.push((0xC0 + cp / 0x40) as u8);
        out.push((0x80 + cp % 0x40) as u8);
    } else if cp < 0x10000 {
        out.push((0xE0 + cp / 0x1000) as u8);
        out.push((0x80 + (cp / 0x40) % 0x40) as u8);
        out.push((0x80 + cp % 0x40) as u8);
    } else {
        out.push((0xF0 + cp / 0x40000) as u8);
        out.push((0x80 + (cp / 0x1000) % 0x40) as u8);
        out.push((0x80 + (cp / 0x40) % 0x40) as u8);
        out.push((0x80 + cp % 0x40) as u8);
    }
    assert(out@ =~= old(out)@ + utf8_bytes(cp as int));
}

fn escape_into(s: &[u8], i: usize, out: &mut Vec<u8>) -> (res: Option<usize>)
    requires
        i <= s@.len(),
    ensures
        res matches Some(n) ==> (escape_at(s@, i as int) matches Some((bytes, next)) && next == n
            && i < n <= s@.len() && final(out)@ == old(out)@ + bytes),
        res is None ==> escape_at(s@, i as int) is None,
{
    if i >= s.len() {
        return None;
    }
    let c = s[i];
    if c == QUOTE || c == BACKSLASH || c == SLASH {
        out.push(c);
        assert(out@ =~= old(out)@ + seq![c]);
        Some(i + 1)
    } else if c == LOWER_B {
        out.push(0x08);
        assert(out@ =~= old(out)@ + seq![0x08u8]);
        Some(i + 1)
    } else if c == LOWER_F {
        out.push(0x0C);
        assert(out@ =~= old(out)@ + seq![0x0Cu8]);
        Some(i + 1)
    } else if c == LOWER_N {
        out.push(0x0A);
        assert(out@ =~= old(out)@ + seq![0x0Au8]);
        Some(i + 1)
    } else if c == LOWER_R {
        out.push(0x0D);
        assert(out@ =~= old(out)@ + seq![0x0Du8]);
        Some(i + 1)
    } else if c == LOWER_T {
        out.push(0x09);
        assert(out@ =~= old(out)@ + seq![0x09u8]);
        Some(i + 1)
    } else if c == LOWER_U {
        match hex4_at(s, i + 1) {
            None => None,
            Some(unit) => {
                if 0xD800 <= unit && unit < 0xDC00 {
                    if s.len() - i >= 7 && s[i + 5] == BACKSLASH && s[i + 6] == LOWER_U {
                        match hex4_at(s, i + 7) {
                            None => None,
                            Some(low) => {
                                if 0xDC00 <= low && low < 0xE000 {
                                    push_utf8(out, 0x10000 + (unit - 0xD800) * 0x400 + (low - 0xDC00));
                                    Some(i + 11)
                                } else {
                                    None
                                }
                            },
                        }
                    } else {
                        None
                    }
                } else if 0xDC00 <= unit && unit < 0xE000 {
                    None
                } else {
                    push_utf8(out, unit);
                    Some(i + 5)
                }
            },
        }
    } else {
        None
    }
}

fn string_at(s: &[u8], i: usize) -> (res: Option<(Vec<u8>, usize)>)
    requires
        i <= s@.len(),
    ensures
        res matches Some((text, end)) ==> string_from(s@, i as int) == Some((text@, end as int))
            && i < end <= s@.len(),
        res is None ==> string_from(s@, i as int) is None,
{
    let mut out: Vec<u8> = Vec::new();
    let mut j = i;
    loop
        invariant
            i <= j <= s@.len(),
            string_from(s@, i as int) == prepend(out@, string_from(s@, j as int)),
        decreases s@.len() - j,
    {
        if j >= s.len() {
            return None;
        }
        let c = s[j];
        if c == QUOTE {
            assert(out@ + Seq::<u8>::empty() =~= out@);
            return Some((out, j + 1));
        }
        if c < 0x20 {
            return None;
        }
        if c == BACKSLASH {
            let ghost before = out@;
            match escape_into(s, j + 1, &mut out) {
                None => {
                    return None;
                },
                Some(next) => {
                    proof {
                        let escape = escape_at(s@, j + 1)->0;
                        lemma_prepend_twice(before, escape.0, string_from(s@, next as int));
                    }
                    j = next;
                },
            }
        } else {
            proof {
                lemma_prepend_twice(out@, seq![c], string_from(s@, j + 1));
                assert(out@ + seq![c] =~= out@.push(c));
            }
            out.push(c);
            j += 1;
        }
    }
}

fn value_at(s: &[u8], i: usize, depth: usize) -> (res: Option<(Json, usize)>)
    requires
        i <= s@.len(),
    ensures
        res matches Some((v, end)) ==> parse_value(s@, i as int, depth as nat) == Some(
            (v@, end as int),
        ) && i < end <= s@.len(),
        res is None ==> parse_value(s@, i as int, depth as nat) is None,
    decreases depth,
{
    if i >= s.len() {
        return None;
    }
    let c = s[i];
    if c == LOWER_N {
        let word = [LOWER_N, LOWER_U, LOWER_L, LOWER_L];
        assert(word@ =~= word_null());
        if word_at(s, i, word.as_slice()) {
            Some((Json::Null, i + 4))
        } else {
            None
        }
    } else if c == LOWER_T {
        let word = [LOWER_T, LOWER_R, LOWER_U, LOWER_E];
        assert(word@ =~= word_true());
        if word_at(s, i, word.as_slice()) {
            Some((Json::Bool(true), i + 4))
        } else {
            None
        }
    } else if c == LOWER_F {
        let word = [LOWER_F, LOWER_A, LOWER_L, LOWER_S, LOWER_E];
        assert(word@ =~= word_false());
        if word_at(s, i, word.as_slice()) {
            Some((Json::Bool(false), i + 5))
        } else {
            None
        }
    } else if c == QUOTE {
        match string_at(s, i + 1) {
            None => None,
            Some((text, end)) => Some((Json::Text(text), end)),
        }
    } else if c == MINUS || is_digit_byte(c) {
        match number_end_at(s, i) {
            None => None,
            Some(end) => Some((Json::Number(copy_range(s, i, end)), end)),
        }
    } else if c == OPEN_BRACKET {
        let first = after_spaces(s, i + 1);
        if depth == 0 {
            return None;
        }
        let mut items: Vec<Json> = Vec::new();
        if first < s.len() && s[first] == CLOSE_BRACKET {
            proof {
                lemma_array_value(items);
                assert(values_of(items@) =~= Seq::<JsonValue>::empty());
            }
            return Some((Json::Array(items), first + 1));
        }
        let mut at = first;
        assert(values_of(items@) =~= Seq::<JsonValue>::empty());
        loop
            invariant
                i < at <= s@.len(),
                depth > 0,
                parse_value(s@, i as int, depth as nat) == parse_elements(
                    s@,
                    at as int,
                    depth as nat,
                    values_of(items@),
                ),
            decreases s@.len() - at,
        {
            match value_at(s, at, depth - 1) {
                None => {
                    return None;
                },
                Some((v, end)) => {
                    let k = after_spaces(s, end);
                    if k >= s.len() {
                        return None;
                    }
                    proof {
                        assert(values_of(items@.push(v)) =~= values_of(items@).push(v@));
                    }
                    if s[k] == COMMA {
                        items.push(v);
                        at = after_spaces(s, k + 1);
                    } else if s[k] == CLOSE_BRACKET {
                        items.push(v);
                        proof {
                            lemma_array_value(items);
                        }
                        return Some((Json::Array(items), k + 1));
                    } else {
                        return None;
                    }
                },
            }
        }
    } else if c == OPEN_BRACE {
        let first = after_spaces(s, i + 1);
        if depth == 0 {
            return None;
        }
        let mut members: Vec<Member> = Vec::new();
        if first < s.len() && s[first] == CLOSE_BRACE {
            proof {
                lemma_object_value(members);
                assert(members_of(members@) =~= Seq::<(Seq<u8>, JsonValue)>::empty());
            }
            return Some((Json::Object(members), first + 1));
        }
        let mut at = first;
        assert(members_of(members@) =~= Seq::<(Seq<u8>, JsonValue)>::empty());
        loop
            invariant
                i < at <= s@.len(),
                depth > 0,
                parse_value(s@, i as int, depth as nat) == parse_members(
                    s@,
                    at as int,
                    depth as nat,
                    members_of(members@),
                ),
            decreases s@.len() - at,
        {
            if at >= s.len() || s[at] != QUOTE {
                return None;
            }
            match string_at(s, at + 1) {
                None => {
                    return None;
                },
                Some((key, key_end)) => {
                    let colon = after_spaces(s, key_end);
                    if colon >= s.len() || s[colon] != COLON {
                        return None;
                    }
                    let start = after_spaces(s, colon + 1);
                    match value_at(s, start, depth - 1) {
                        None => {
                            return None;
                        },
                        Some((v, end)) => {
                            let k = after_spaces(s, end);
                            if k >= s.len() {
                                return None;
                            }
                            let member = Member { key, value: v };
                            proof {
                                assert(members_of(members@.push(member)) =~= members_of(
                                    members@,
                                ).push((member.key@, member.value@)));
                            }
                            if s[k] == COMMA {
                                members.push(member);
                                at = after_spaces(s, k + 1);
                            } else if s[k] == CLOSE_BRACE {
                                members.push(member);
                                proof {
                                    lemma_object_value(members);
                                }
                                return Some((Json::Object(members), k + 1));
                            } else {
                                return None;
                            }
                        },
                    }
                },
            }
        }
    } else {
        None
    }
}

/// Reads `text` as one JSON value.
///
/// Returns the value where `text` is a JSON text that nests no deeper than
/// `MAX_DEPTH`, and `None` for every other input.
pub fn decode(text: &[u8]) -> (res: Option<Json>)
    ensures
        res matches Some(v) ==> decoded(text@) == Some(v@),
        res is None ==> decoded(text@) is None,
{
    let start = after_spaces(text, 0);
    match value_at(text, start, MAX_DEPTH) {
        None => None,
        Some((v, end)) => {
            if after_spaces(text, end) == text.len() {
                Some(v)
            } else {
                None
            }
        },
    }
}


// ---------------------------------------------------------------------
// Looking into a value
// ---------------------------------------------------------------------

/// The value of the member `key` among `members`; the last one where the
/// key occurs more than once.
pub open spec fn lookup(members: Seq<(Seq<u8>, JsonValue)>, key: Seq<u8>) -> Option<JsonValue>
    decreases members.len(),
{
    if members.len() == 0 {
        None
    } else if members.last().0 == key {
        Some(members.last().1)
    } else {
        lookup(members.drop_last(), key)
    }
}

/// The member `key` of `v`, where `v` is an object that has one.
pub open spec fn field(v: JsonValue, key: Seq<u8>) -> Option<JsonValue> {
    match v {
        JsonValue::Object(members) => lookup(members, key),
        _ => None,
    }
}

/// The member `key` of `v`, where `v` is an object that has one and it is a
/// string.
pub open spec fn text_field(v: JsonValue, key: Seq<u8>) -> Option<Seq<u8>> {
    match field(v, key) {
        Some(JsonValue::Text(t)) => Some(t),
        _ => None,
    }
}

impl Json {
    /// The member `key` of an object; the last one where the key occurs
    /// more than once. `None` where there is none, or `self` is no object.
    pub fn get(&self, key: &[u8]) -> (res: Option<&Json>)
        ensures
            res matches Some(r) ==> field(self@, key@) == Some(r@),
            res is None ==> field(self@, key@) is None,
    {
        match self {
            Json::Object(members) => {
                proof {
                    lemma_object_value(*members);
                }
                let ghost all = members_of(members@);
                let mut k = members.len();
                assert(all.take(k as int) =~= all);
                while k > 0
                    invariant
                        k <= members@.len(),
                        all == members_of(members@),
                        self@ == JsonValue::Object(all),
                        lookup(all, key@) == lookup(all.take(k as int), key@),
                    decreases k,
                {
                    k -= 1;
                    proof {
                        assert(all.take(k + 1).drop_last() =~= all.take(k as int));
                        assert(all.take(k + 1).last() == all[k as int]);
                    }
                    if bytes_equal(members[k].key.as_slice(), key) {
                        return Some(&members[k].value);
                    }
                }
                None
            },
            _ => None,
        }
    }
}

} // verus!
