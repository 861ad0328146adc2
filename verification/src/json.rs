//! A strict JSON reader for a single value: no trailing commas, no single
//! quotes, no bare `NaN`/`Infinity`, no unescaped control characters and no
//! lone UTF-16 surrogates. Every rejection carries the line and column of
//! the offending character so a caller can point at the exact spot in a
//! multi-gigabyte file that broke.
//!
//! The grammar, the positions of the errors and their messages are stated
//! by the spec functions of this module over the characters of the input;
//! `parse` is proved to compute exactly `parse_model` of its input.

use vstd::prelude::*;
use crate::text::{is_digit, decimal_i64, decimal, decimal_string, chars_of, push_char, push_str, char_from_u32, string_from_range, parse_i64};

verus! {

// ---------------------------------------------------------------------------
// The mathematical model
// ---------------------------------------------------------------------------

/// The mathematical form of a parsed JSON value.
pub enum JsonValue {
    Null,
    Bool(bool),
    Int(i64),
    /// The literal text of a number written with a fraction or an exponent,
    /// or of an integer literal outside the range of `i64`.
    Float(Seq<char>),
    Str(Seq<char>),
    Array(Seq<JsonValue>),
    Object(Seq<(Seq<char>, JsonValue)>),
}

/// The mathematical form of a parse failure.
pub struct ErrorModel {
    pub line: nat,
    pub column: nat,
    pub message: Seq<char>,
}

/// A step of the grammar: the thing read and the position just after it, or
/// the position of the failure and its message.
pub type Step<T> = Result<(T, int), (int, Seq<char>)>;

/// The 1-based line and column of position `pos` of `s`: every `\n` before
/// it starts a new line, every other character moves one column right.
pub open spec fn line_col(s: Seq<char>, pos: int) -> (nat, nat)
    decreases pos,
{
    if pos <= 0 {
        (1, 1)
    } else {
        let (l, c) = line_col(s, pos - 1);
        if s[pos - 1] == '\n' {
            (l + 1, 1)
        } else {
            (l, c + 1)
        }
    }
}

pub open spec fn is_ws(c: char) -> bool {
    c == ' ' || c == '\t' || c == '\n' || c == '\r'
}

/// The first position at or after `i` that is not JSON whitespace.
pub open spec fn skip_ws(s: Seq<char>, i: int) -> int
    decreases s.len() - i,
{
    if 0 <= i < s.len() && is_ws(s[i]) {
        skip_ws(s, i + 1)
    } else {
        i
    }
}

/// The first position at or after `i` that is not a decimal digit.
pub open spec fn skip_digits(s: Seq<char>, i: int) -> int
    decreases s.len() - i,
{
    if 0 <= i < s.len() && is_digit(s[i]) {
        skip_digits(s, i + 1)
    } else {
        i
    }
}

/// `s` has the character `c` at position `i`.
pub open spec fn has_at(s: Seq<char>, i: int, c: char) -> bool {
    0 <= i < s.len() && s[i] == c
}

/// `s` has a decimal digit at position `i`.
pub open spec fn digit_at(s: Seq<char>, i: int) -> bool {
    0 <= i < s.len() && is_digit(s[i])
}

pub open spec fn msg_unexpected_char(c: char) -> Seq<char> {
    "unexpected character '"@.push(c) + "'"@
}

pub open spec fn msg_expected_literal(text: Seq<char>) -> Seq<char> {
    "expected '"@ + text + "'"@
}

// --- literals --------------------------------------------------------------

/// The literal `text` at position `p`, standing for `v`.
pub open spec fn literal(s: Seq<char>, p: int, text: Seq<char>, v: JsonValue) -> Step<JsonValue> {
    if p + text.len() <= s.len() && s.subrange(p, p + text.len()) == text {
        Ok((v, p + text.len()))
    } else {
        Err((p, msg_expected_literal(text)))
    }
}

// --- numbers ---------------------------------------------------------------

/// The end of the integer part of a number whose digits start at `a`
/// (the number itself starts at `p`).
pub open spec fn int_part_end(s: Seq<char>, p: int, a: int) -> Result<int, (int, Seq<char>)> {
    if has_at(s, a, '0') {
        Ok(a + 1)
    } else if digit_at(s, a) {
        Ok(skip_digits(s, a))
    } else {
        Err((p, "invalid number"@))
    }
}

/// The end of the optional fraction that may start at `b`, and whether there
/// was one.
pub open spec fn fraction_end(s: Seq<char>, b: int) -> Result<(int, bool), (int, Seq<char>)> {
    if has_at(s, b, '.') {
        if digit_at(s, b + 1) {
            Ok((skip_digits(s, b + 1), true))
        } else {
            Err((b + 1, "expected digit after decimal point"@))
        }
    } else {
        Ok((b, false))
    }
}

/// The end of the optional exponent that may start at `c`, and whether there
/// was one.
pub open spec fn exponent_end(s: Seq<char>, c: int) -> Result<(int, bool), (int, Seq<char>)> {
    if has_at(s, c, 'e') || has_at(s, c, 'E') {
        let d = if has_at(s, c + 1, '+') || has_at(s, c + 1, '-') {
            c + 2
        } else {
            c + 1
        };
        if digit_at(s, d) {
            Ok((skip_digits(s, d), true))
        } else {
            Err((d, "expected digit in exponent"@))
        }
    } else {
        Ok((c, false))
    }
}

/// The number starting at `p`: `-`? then `0` or a nonzero digit run, then an
/// optional fraction and an optional exponent. Without a fraction or an
/// exponent, and inside the range of `i64`, it is an `Int`; otherwise its
/// text is kept as a `Float`.
#[verifier::opaque]
pub open spec fn number(s: Seq<char>, p: int) -> Step<JsonValue> {
    let a = if has_at(s, p, '-') {
        p + 1
    } else {
        p
    };
    match int_part_end(s, p, a) {
        Err(e) => Err(e),
        Ok(b) => match fraction_end(s, b) {
            Err(e) => Err(e),
            Ok((c, has_fraction)) => match exponent_end(s, c) {
                Err(e) => Err(e),
                Ok((d, has_exponent)) => {
                    let text = s.subrange(p, d);
                    if has_fraction || has_exponent {
                        Ok((JsonValue::Float(text), d))
                    } else {
                        match decimal_i64(text) {
                            Some(n) => Ok((JsonValue::Int(n), d)),
                            None => Ok((JsonValue::Float(text), d)),
                        }
                    }
                },
            },
        },
    }
}

// --- strings ---------------------------------------------------------------

pub open spec fn is_hex(c: char) -> bool {
    ('0' <= c <= '9') || ('a' <= c <= 'f') || ('A' <= c <= 'F')
}

pub open spec fn hex_value(c: char) -> nat {
    if '0' <= c <= '9' {
        (c as nat - '0' as nat) as nat
    } else if 'a' <= c <= 'f' {
        (c as nat - 'a' as nat + 10) as nat
    } else {
        (c as nat - 'A' as nat + 10) as nat
    }
}

pub open spec fn hex_at(s: Seq<char>, i: int) -> bool {
    0 <= i < s.len() && is_hex(s[i])
}

/// Four hex digits at `q`, read as a 16-bit value; the failure is at the
/// first position that is not a hex digit.
pub open spec fn hex4(s: Seq<char>, q: int) -> Step<nat> {
    let m = "invalid unicode escape"@;
    if !hex_at(s, q) {
        Err((q, m))
    } else if !hex_at(s, q + 1) {
        Err((q + 1, m))
    } else if !hex_at(s, q + 2) {
        Err((q + 2, m))
    } else if !hex_at(s, q + 3) {
        Err((q + 3, m))
    } else {
        Ok((
            hex_value(s[q]) * 4096 + hex_value(s[q + 1]) * 256 + hex_value(s[q + 2]) * 16
                + hex_value(s[q + 3]),
            q + 4,
        ))
    }
}

pub open spec fn is_high_surrogate(v: nat) -> bool {
    0xD800 <= v <= 0xDBFF
}

pub open spec fn is_low_surrogate(v: nat) -> bool {
    0xDC00 <= v <= 0xDFFF
}

/// The character written by a `\u` escape whose hex digits start at `q`: a
/// high surrogate must be followed by `\u` and a low surrogate, and the pair
/// stands for one character; any other surrogate is rejected at `q`.
pub open spec fn unicode_escape(s: Seq<char>, q: int) -> Step<char> {
    let lone = "lone UTF-16 surrogate"@;
    match hex4(s, q) {
        Err(e) => Err(e),
        Ok((hi, q1)) => if is_high_surrogate(hi) {
            if !has_at(s, q1, '\\') || !has_at(s, q1 + 1, 'u') {
                Err((q, lone))
            } else {
                match hex4(s, q1 + 2) {
                    Err(e) => Err(e),
                    Ok((lo, q2)) => if is_low_surrogate(lo) {
                        Ok(
                            (
                                (0x10000 + (hi - 0xD800) * 1024 + (lo - 0xDC00)) as char,
                                q2,
                            ),
                        )
                    } else {
                        Err((q, lone))
                    },
                }
            }
        } else if is_low_surrogate(hi) {
            Err((q, lone))
        } else {
            Ok((hi as char, q1))
        },
    }
}

/// The character written by the two-character escape `\e`, if it is one.
pub open spec fn simple_escape(e: char) -> Option<char> {
    if e == '"' {
        Some('"')
    } else if e == '\\' {
        Some('\\')
    } else if e == '/' {
        Some('/')
    } else if e == 'b' {
        Some('\u{8}')
    } else if e == 'f' {
        Some('\u{c}')
    } else if e == 'n' {
        Some('\n')
    } else if e == 'r' {
        Some('\r')
    } else if e == 't' {
        Some('\t')
    } else {
        None
    }
}

/// The rest of a string whose opening quote is at `start`, read from `q`,
/// with `acc` the characters decoded so far.
pub open spec fn string_rest(s: Seq<char>, start: int, q: int, acc: Seq<char>) -> Step<Seq<char>>
    decreases s.len() - q,
{
    if q < 0 || q >= s.len() {
        Err((start, "unterminated string"@))
    } else {
        let c = s[q];
        if c == '"' {
            Ok((acc, q + 1))
        } else if c == '\\' {
            if q + 1 >= s.len() {
                Err((q + 1, "unterminated escape sequence"@))
            } else {
                let e = s[q + 1];
                match simple_escape(e) {
                    Some(m) => string_rest(s, start, q + 2, acc.push(m)),
                    None => if e == 'u' {
                        match unicode_escape(s, q + 2) {
                            Err(x) => Err(x),
                            Ok((ch, q2)) => string_rest(s, start, q2, acc.push(ch)),
                        }
                    } else {
                        Err((q + 1, "invalid escape sequence"@))
                    },
                }
            }
        } else if (c as u32) < 0x20 {
            Err((q, "control character must be escaped"@))
        } else {
            string_rest(s, start, q + 1, acc.push(c))
        }
    }
}

/// The string whose opening quote is at `p`.
pub open spec fn string(s: Seq<char>, p: int) -> Step<Seq<char>> {
    string_rest(s, p, p + 1, Seq::empty())
}


// --- whitespace and string positions -----------------------------------------

pub proof fn lemma_skip_ws(s: Seq<char>, i: int)
    requires
        0 <= i <= s.len(),
    ensures
        i <= skip_ws(s, i) <= s.len(),
        forall|k: int| i <= k < skip_ws(s, i) ==> is_ws(#[trigger] s[k]),
        skip_ws(s, i) < s.len() ==> !is_ws(s[skip_ws(s, i)]),
    decreases s.len() - i,
{
    if i < s.len() && is_ws(s[i]) {
        lemma_skip_ws(s, i + 1);
    }
}

pub proof fn lemma_skip_digits(s: Seq<char>, i: int)
    requires
        0 <= i <= s.len(),
    ensures
        i <= skip_digits(s, i) <= s.len(),
        forall|k: int| i <= k < skip_digits(s, i) ==> is_digit(#[trigger] s[k]),
        skip_digits(s, i) < s.len() ==> !is_digit(s[skip_digits(s, i)]),
    decreases s.len() - i,
{
    if i < s.len() && is_digit(s[i]) {
        lemma_skip_digits(s, i + 1);
    }
}

pub proof fn lemma_string_rest_advances(s: Seq<char>, start: int, q: int, acc: Seq<char>)
    requires
        0 <= q,
    ensures
        string_rest(s, start, q, acc) matches Ok((_, e)) ==> q < e <= s.len(),
    decreases s.len() - q,
{
    if 0 <= q < s.len() {
        let c = s[q];
        if c == '\\' && q + 1 < s.len() {
            let e = s[q + 1];
            match simple_escape(e) {
                Some(m) => lemma_string_rest_advances(s, start, q + 2, acc.push(m)),
                None => if e == 'u' {
                    match unicode_escape(s, q + 2) {
                        Err(x) => {},
                        Ok((ch, q2)) => lemma_string_rest_advances(s, start, q2, acc.push(ch)),
                    }
                },
            }
        } else if c != '"' && c != '\\' && !((c as u32) < 0x20) {
            lemma_string_rest_advances(s, start, q + 1, acc.push(c));
        }
    }
}

// --- values ----------------------------------------------------------------

/// The array whose `[` is at `p`.
pub open spec fn array_at(s: Seq<char>, p: int) -> Step<JsonValue>
    decreases s.len() - p, 0int,
{
    if 0 <= p < s.len() {
        let q1 = skip_ws(s, p + 1);
        proof {
            lemma_skip_ws(s, p + 1);
        }
        if has_at(s, q1, ']') {
            Ok((JsonValue::Array(Seq::empty()), q1 + 1))
        } else {
            elements(s, q1, Seq::empty())
        }
    } else {
        Err((p, "unexpected end of input"@))
    }
}

/// The object whose `{` is at `p`.
pub open spec fn object_at(s: Seq<char>, p: int) -> Step<JsonValue>
    decreases s.len() - p, 0int,
{
    if 0 <= p < s.len() {
        let q1 = skip_ws(s, p + 1);
        proof {
            lemma_skip_ws(s, p + 1);
        }
        if has_at(s, q1, '}') {
            Ok((JsonValue::Object(Seq::empty()), q1 + 1))
        } else {
            members(s, q1, Seq::empty())
        }
    } else {
        Err((p, "unexpected end of input"@))
    }
}

/// The value that starts at `q`, after any whitespace.
pub open spec fn value(s: Seq<char>, q: int) -> Step<JsonValue>
    decreases s.len() - q, 1int,
{
    let p = skip_ws(s, q);
    if q < 0 || q > s.len() {
        Err((q, "unexpected end of input"@))
    } else if p >= s.len() {
        Err((p, "unexpected end of input"@))
    } else {
        let c = s[p];
        proof {
            lemma_skip_ws(s, q);
        }
        if c == '"' {
            match string(s, p) {
                Err(e) => Err(e),
                Ok((t, e)) => Ok((JsonValue::Str(t), e)),
            }
        } else if c == '{' {
            object_at(s, p)
        } else if c == '[' {
            array_at(s, p)
        } else if c == 't' {
            literal(s, p, "true"@, JsonValue::Bool(true))
        } else if c == 'f' {
            literal(s, p, "false"@, JsonValue::Bool(false))
        } else if c == 'n' {
            literal(s, p, "null"@, JsonValue::Null)
        } else if c == '-' || is_digit(c) {
            number(s, p)
        } else {
            Err((p, msg_unexpected_char(c)))
        }
    }
}

/// The elements of an array, the next one starting at `q`, with `acc` the
/// elements read so far.
pub open spec fn elements(s: Seq<char>, q: int, acc: Seq<JsonValue>) -> Step<JsonValue>
    decreases s.len() - q, 2int,
{
    match value(s, q) {
        Err(e) => Err(e),
        Ok((v, q1)) => {
            let q2 = skip_ws(s, q1);
            if has_at(s, q2, ',') && q2 >= q {
                elements(s, q2 + 1, acc.push(v))
            } else if has_at(s, q2, ']') {
                Ok((JsonValue::Array(acc.push(v)), q2 + 1))
            } else {
                Err((q2, "expected ',' or ']'"@))
            }
        },
    }
}

/// The members of an object, the next one starting at `q`, with `acc` the
/// members read so far.
pub open spec fn members(s: Seq<char>, q: int, acc: Seq<(Seq<char>, JsonValue)>) -> Step<
    JsonValue,
>
    decreases s.len() - q, 2int,
{
    let p = skip_ws(s, q);
    if q < 0 || q > s.len() || !has_at(s, p, '"') {
        Err((p, "expected string key"@))
    } else {
        proof {
            lemma_skip_ws(s, q);
            lemma_string_rest_advances(s, p, p + 1, Seq::empty());
        }
        match string(s, p) {
            Err(e) => Err(e),
            Ok((k, q1)) => {
                let q2 = skip_ws(s, q1);
                proof {
                    lemma_skip_ws(s, q1);
                }
                if !has_at(s, q2, ':') {
                    Err((q2, "expected ':' after object key"@))
                } else {
                    match value(s, q2 + 1) {
                        Err(e) => Err(e),
                        Ok((v, q3)) => {
                            let q4 = skip_ws(s, q3);
                            if has_at(s, q4, ',') && q4 >= q {
                                members(s, q4 + 1, acc.push((k, v)))
                            } else if has_at(s, q4, '}') {
                                Ok((JsonValue::Object(acc.push((k, v))), q4 + 1))
                            } else {
                                Err((q4, "expected ',' or '}'"@))
                            }
                        },
                    }
                }
            },
        }
    }
}

/// The whole input as one value, with only whitespace around it.
pub open spec fn document(s: Seq<char>) -> Result<JsonValue, (int, Seq<char>)> {
    match value(s, 0) {
        Err(e) => Err(e),
        Ok((v, q)) => {
            let e = skip_ws(s, q);
            if e < s.len() {
                Err((e, "trailing characters after value"@))
            } else {
                Ok(v)
            }
        },
    }
}


// --- every successful step moves forward --------------------------------------

pub proof fn lemma_number_advances(s: Seq<char>, p: int)
    requires
        0 <= p < s.len(),
    ensures
        number(s, p) matches Ok((_, e)) ==> p < e <= s.len(),
{
    reveal(number);
    let a = if has_at(s, p, '-') {
        p + 1
    } else {
        p
    };
    if digit_at(s, a) {
        lemma_skip_digits(s, a);
    }
    if let Ok(b) = int_part_end(s, p, a) {
        if has_at(s, b, '.') && digit_at(s, b + 1) {
            lemma_skip_digits(s, b + 1);
        }
        if let Ok((c, _)) = fraction_end(s, b) {
            let d = if has_at(s, c + 1, '+') || has_at(s, c + 1, '-') {
                c + 2
            } else {
                c + 1
            };
            if digit_at(s, d) {
                lemma_skip_digits(s, d);
            }
        }
    }
}

pub proof fn lemma_value_advances(s: Seq<char>, q: int)
    requires
        0 <= q <= s.len(),
    ensures
        value(s, q) matches Ok((_, e)) ==> q < e <= s.len(),
    decreases s.len() - q, 1int,
{
    lemma_skip_ws(s, q);
    let p = skip_ws(s, q);
    if p < s.len() {
        let c = s[p];
        if c == '"' {
            lemma_string_rest_advances(s, p, p + 1, Seq::empty());
        } else if c == '{' {
            lemma_object_at_advances(s, p);
            assert(value(s, q) == object_at(s, p));
        } else if c == '[' {
            lemma_array_at_advances(s, p);
            assert(value(s, q) == array_at(s, p));
        } else if c == 't' || c == 'f' || c == 'n' {
            reveal_strlit("true");
            reveal_strlit("false");
            reveal_strlit("null");
        } else if c == '-' || is_digit(c) {
            lemma_number_advances(s, p);
            assert(value(s, q) == number(s, p));
        }
    }
}

pub proof fn lemma_array_at_advances(s: Seq<char>, p: int)
    requires
        0 <= p < s.len(),
    ensures
        array_at(s, p) matches Ok((_, e)) ==> p < e <= s.len(),
    decreases s.len() - p, 0int,
{
    lemma_skip_ws(s, p + 1);
    let q1 = skip_ws(s, p + 1);
    if !has_at(s, q1, ']') {
        lemma_elements_advances(s, q1, Seq::empty());
    }
}

pub proof fn lemma_object_at_advances(s: Seq<char>, p: int)
    requires
        0 <= p < s.len(),
    ensures
        object_at(s, p) matches Ok((_, e)) ==> p < e <= s.len(),
    decreases s.len() - p, 0int,
{
    lemma_skip_ws(s, p + 1);
    let q1 = skip_ws(s, p + 1);
    if !has_at(s, q1, '}') {
        lemma_members_advances(s, q1, Seq::empty());
    }
}

pub proof fn lemma_elements_advances(s: Seq<char>, q: int, acc: Seq<JsonValue>)
    requires
        0 <= q <= s.len(),
    ensures
        elements(s, q, acc) matches Ok((_, e)) ==> q < e <= s.len(),
    decreases s.len() - q, 2int,
{
    lemma_value_advances(s, q);
    if let Ok((v, q1)) = value(s, q) {
        lemma_skip_ws(s, q1);
        let q2 = skip_ws(s, q1);
        if has_at(s, q2, ',') && q2 >= q {
            lemma_elements_advances(s, q2 + 1, acc.push(v));
        }
    }
}

pub proof fn lemma_members_advances(s: Seq<char>, q: int, acc: Seq<(Seq<char>, JsonValue)>)
    requires
        0 <= q <= s.len(),
    ensures
        members(s, q, acc) matches Ok((_, e)) ==> q < e <= s.len(),
    decreases s.len() - q, 2int,
{
    lemma_skip_ws(s, q);
    let p = skip_ws(s, q);
    if has_at(s, p, '"') {
        lemma_string_rest_advances(s, p, p + 1, Seq::empty());
        if let Ok((k, q1)) = string(s, p) {
            lemma_skip_ws(s, q1);
            let q2 = skip_ws(s, q1);
            if has_at(s, q2, ':') {
                lemma_value_advances(s, q2 + 1);
                if let Ok((v, q3)) = value(s, q2 + 1) {
                    lemma_skip_ws(s, q3);
                    let q4 = skip_ws(s, q3);
                    if has_at(s, q4, ',') && q4 >= q {
                        lemma_members_advances(s, q4 + 1, acc.push((k, v)));
                    }
                }
            }
        }
    }
}

// --- a value never has more parts than the characters it was read from ------

/// The number of values in `v`, itself and everything nested in it included.
pub open spec fn nodes(v: JsonValue) -> nat
    decreases v,
{
    match v {
        JsonValue::Array(items) => 1 + nodes_of_items(items),
        JsonValue::Object(entries) => 1 + nodes_of_members(entries),
        _ => 1,
    }
}

/// The number of values in a run of array elements.
pub open spec fn nodes_of_items(items: Seq<JsonValue>) -> nat
    decreases items,
{
    if items.len() == 0 {
        0
    } else {
        nodes_of_items(items.subrange(0, items.len() - 1)) + nodes(items[items.len() - 1])
    }
}

/// The number of values in a run of object members.
pub open spec fn nodes_of_members(entries: Seq<(Seq<char>, JsonValue)>) -> nat
    decreases entries,
{
    if entries.len() == 0 {
        0
    } else {
        nodes_of_members(entries.subrange(0, entries.len() - 1)) + nodes(
            entries[entries.len() - 1].1,
        )
    }
}

pub proof fn lemma_nodes_of_items_push(items: Seq<JsonValue>, v: JsonValue)
    ensures
        nodes_of_items(items.push(v)) == nodes_of_items(items) + nodes(v),
{
    assert(items.push(v).subrange(0, items.len() as int) =~= items);
}

pub proof fn lemma_nodes_of_members_push(entries: Seq<(Seq<char>, JsonValue)>, m: (Seq<char>, JsonValue))
    ensures
        nodes_of_members(entries.push(m)) == nodes_of_members(entries) + nodes(m.1),
{
    assert(entries.push(m).subrange(0, entries.len() as int) =~= entries);
}

pub proof fn lemma_value_nodes(s: Seq<char>, q: int)
    requires
        0 <= q <= s.len(),
    ensures
        value(s, q) matches Ok((v, e)) ==> nodes(v) <= e - q,
    decreases s.len() - q, 1int,
{
    lemma_value_advances(s, q);
    lemma_skip_ws(s, q);
    let p = skip_ws(s, q);
    if p < s.len() {
        let c = s[p];
        if c == '{' {
            lemma_object_at_nodes(s, p);
            assert(value(s, q) == object_at(s, p));
        } else if c == '[' {
            lemma_array_at_nodes(s, p);
            assert(value(s, q) == array_at(s, p));
        } else if c == '-' || is_digit(c) {
            reveal(number);
            assert(value(s, q) == number(s, p));
        }
    }
}

pub proof fn lemma_array_at_nodes(s: Seq<char>, p: int)
    requires
        0 <= p < s.len(),
    ensures
        array_at(s, p) matches Ok((v, e)) ==> nodes(v) <= e - p,
    decreases s.len() - p, 0int,
{
    lemma_skip_ws(s, p + 1);
    let q1 = skip_ws(s, p + 1);
    if !has_at(s, q1, ']') {
        lemma_elements_nodes(s, q1, Seq::empty());
    }
}

pub proof fn lemma_object_at_nodes(s: Seq<char>, p: int)
    requires
        0 <= p < s.len(),
    ensures
        object_at(s, p) matches Ok((v, e)) ==> nodes(v) <= e - p,
    decreases s.len() - p, 0int,
{
    lemma_skip_ws(s, p + 1);
    let q1 = skip_ws(s, p + 1);
    if !has_at(s, q1, '}') {
        lemma_members_nodes(s, q1, Seq::empty());
    }
}

pub proof fn lemma_elements_nodes(s: Seq<char>, q: int, acc: Seq<JsonValue>)
    requires
        0 <= q <= s.len(),
    ensures
        elements(s, q, acc) matches Ok((v, e)) ==> (v matches JsonValue::Array(all)
            && nodes_of_items(all) <= nodes_of_items(acc) + e - q),
    decreases s.len() - q, 2int,
{
    lemma_value_advances(s, q);
    lemma_value_nodes(s, q);
    if let Ok((v, q1)) = value(s, q) {
        lemma_skip_ws(s, q1);
        let q2 = skip_ws(s, q1);
        lemma_nodes_of_items_push(acc, v);
        if has_at(s, q2, ',') && q2 >= q {
            lemma_elements_nodes(s, q2 + 1, acc.push(v));
        }
    }
}

pub proof fn lemma_members_nodes(s: Seq<char>, q: int, acc: Seq<(Seq<char>, JsonValue)>)
    requires
        0 <= q <= s.len(),
    ensures
        members(s, q, acc) matches Ok((v, e)) ==> (v matches JsonValue::Object(all)
            && nodes_of_members(all) <= nodes_of_members(acc) + e - q),
    decreases s.len() - q, 2int,
{
    lemma_skip_ws(s, q);
    let p = skip_ws(s, q);
    if has_at(s, p, '"') {
        lemma_string_rest_advances(s, p, p + 1, Seq::empty());
        if let Ok((k, q1)) = string(s, p) {
            lemma_skip_ws(s, q1);
            let q2 = skip_ws(s, q1);
            if has_at(s, q2, ':') {
                lemma_value_advances(s, q2 + 1);
                lemma_value_nodes(s, q2 + 1);
                if let Ok((v, q3)) = value(s, q2 + 1) {
                    lemma_skip_ws(s, q3);
                    let q4 = skip_ws(s, q3);
                    lemma_nodes_of_members_push(acc, (k, v));
                    if has_at(s, q4, ',') && q4 >= q {
                        lemma_members_nodes(s, q4 + 1, acc.push((k, v)));
                    }
                }
            }
        }
    }
}

/// A parsed document has no more values in it than the characters it was
/// read from.
pub proof fn lemma_document_nodes(s: Seq<char>)
    ensures
        document(s) matches Ok(v) ==> nodes(v) <= s.len(),
{
    lemma_value_advances(s, 0);
    lemma_value_nodes(s, 0);
}

/// A failure at position `pos` with message `m`, as it is reported.
pub open spec fn failure(s: Seq<char>, pos: int, m: Seq<char>) -> ErrorModel {
    ErrorModel { line: line_col(s, pos).0, column: line_col(s, pos).1, message: m }
}

/// What `parse` gives for the characters `s`.
pub open spec fn parse_model(s: Seq<char>) -> Result<JsonValue, ErrorModel> {
    match document(s) {
        Ok(v) => Ok(v),
        Err((pos, m)) => Err(failure(s, pos, m)),
    }
}


// ---------------------------------------------------------------------------
// The executable values
// ---------------------------------------------------------------------------

/// A parsed JSON value.
///
/// Integers and floats are kept distinct: `1` parses to `Int(1)`, `1.0` and
/// `1e0` parse to `Float`. An integer literal that does not fit in an `i64`
/// falls back to `Float`. A `Float` holds the literal text of the number as
/// it was written; its `f64` value is what `str::parse::<f64>` gives for that
/// text.
#[derive(Debug, PartialEq, Eq)]
pub enum Value {
    Null,
    Bool(bool),
    Int(i64),
    Float(String),
    String(String),
    Array(Vec<Value>),
    /// Object members in source order. Duplicate keys are kept as separate
    /// entries rather than merged, so a caller that cares can see the
    /// duplication.
    Object(Vec<(String, Value)>),
}

impl Value {
    /// The mathematical form of this value.
    pub open spec fn model(&self) -> JsonValue
        decreases self,
    {
        match self {
            Value::Null => JsonValue::Null,
            Value::Bool(b) => JsonValue::Bool(*b),
            Value::Int(n) => JsonValue::Int(*n),
            Value::Float(t) => JsonValue::Float(t@),
            Value::String(t) => JsonValue::Str(t@),
            Value::Array(items) => JsonValue::Array(
                Seq::new(
                    items@.len(),
                    |i: int|
                        if 0 <= i < items@.len() {
                            items@[i].model()
                        } else {
                            JsonValue::Null
                        },
                ),
            ),
            Value::Object(entries) => JsonValue::Object(
                Seq::new(
                    entries@.len(),
                    |i: int|
                        if 0 <= i < entries@.len() {
                            (entries@[i].0@, entries@[i].1.model())
                        } else {
                            (Seq::empty(), JsonValue::Null)
                        },
                ),
            ),
        }
    }
}

impl Clone for Value {
    #[verifier::loop_isolation(false)]
    fn clone(&self) -> (r: Value)
        ensures
            r.model() == self.model(),
        decreases self,
    {
        match self {
            Value::Null => Value::Null,
            Value::Bool(b) => Value::Bool(*b),
            Value::Int(n) => Value::Int(*n),
            Value::Float(t) => Value::Float(t.clone()),
            Value::String(t) => Value::String(t.clone()),
            Value::Array(items) => {
                let mut out: Vec<Value> = Vec::new();
                let mut i: usize = 0;
                while i < items.len()
                    invariant
                        i <= items@.len(),
                        models(out@) == models(items@).take(i as int),
                    decreases items@.len() - i,
                {
                    let item = items[i].clone();
                    let ghost before = out@;
                    out.push(item);
                    assert(models(out@) =~= models(before).push(item.model()));
                    assert(models(items@).take(i + 1) =~= models(items@).take(i as int).push(items@[i as int].model()));
                    i = i + 1;
                }
                assert(models(items@).take(items@.len() as int) =~= models(items@));
                proof {
                    lemma_array_model(*items);
                    lemma_array_model(out);
                }
                Value::Array(out)
            },
            Value::Object(entries) => {
                let mut out: Vec<(String, Value)> = Vec::new();
                let mut i: usize = 0;
                while i < entries.len()
                    invariant
                        i <= entries@.len(),
                        member_models(out@) == member_models(entries@).take(i as int),
                    decreases entries@.len() - i,
                {
                    let key = entries[i].0.clone();
                    let member = entries[i].1.clone();
                    let ghost before = out@;
                    let ghost m = (key@, member.model());
                    out.push((key, member));
                    assert(member_models(out@) =~= member_models(before).push(m));
                    assert(member_models(entries@).take(i + 1) =~= member_models(entries@).take(i as int).push(
                        (entries@[i as int].0@, entries@[i as int].1.model()),
                    ));
                    i = i + 1;
                }
                assert(member_models(entries@).take(entries@.len() as int) =~= member_models(entries@));
                proof {
                    lemma_object_model(*entries);
                    lemma_object_model(out);
                }
                Value::Object(out)
            },
        }
    }
}

/// The models of a run of array elements.
pub open spec fn models(items: Seq<Value>) -> Seq<JsonValue> {
    Seq::new(items.len(), |i: int| items[i].model())
}

/// The models of a run of object members.
pub open spec fn member_models(entries: Seq<(String, Value)>) -> Seq<(Seq<char>, JsonValue)> {
    Seq::new(entries.len(), |i: int| (entries[i].0@, entries[i].1.model()))
}

/// A parse failure, with the 1-based line and column of the character that
/// caused it.
#[derive(Debug, Clone, PartialEq, Eq)]
pub struct ParseError {
    pub line: usize,
    pub column: usize,
    pub message: String,
}

impl ParseError {
    pub open spec fn model(&self) -> ErrorModel {
        ErrorModel { line: self.line as nat, column: self.column as nat, message: self.message@ }
    }

    /// The error as it is displayed: `line L col C: message`.
    pub fn to_string(&self) -> (r: String)
        ensures
            r@ == "line "@ + decimal(self.line as nat) + " col "@ + decimal(self.column as nat) + ": "@
                + self.message@,
    {
        let mut r = owned("line ");
        let l = decimal_string(self.line as u64);
        push_str(&mut r, l.as_str());
        push_str(&mut r, " col ");
        let c = decimal_string(self.column as u64);
        push_str(&mut r, c.as_str());
        push_str(&mut r, ": ");
        push_str(&mut r, self.message.as_str());
        r
    }
}

/// `e` reports the failure of the step `m` on the characters `s`.
pub open spec fn reports<T>(s: Seq<char>, m: Step<T>, e: ParseError) -> bool {
    m is Err && e.model() == failure(s, m->Err_0.0, m->Err_0.1)
}

/// A `String` holding `t`.
fn owned(t: &str) -> (r: String)
    ensures
        r@ == t@,
{
    let mut r = String::new();
    push_str(&mut r, t);
    r
}

pub proof fn lemma_line_col_bound(s: Seq<char>, pos: int)
    requires
        0 <= pos,
    ensures
        1 <= line_col(s, pos).0 <= pos + 1,
        1 <= line_col(s, pos).1 <= pos + 1,
    decreases pos,
{
    if pos > 0 {
        lemma_line_col_bound(s, pos - 1);
    }
}

struct Scanner {
    chars: Vec<char>,
    pos: usize,
    line: usize,
    col: usize,
}

impl Scanner {
    spec fn wf(&self) -> bool {
        &&& self.pos <= self.chars@.len()
        &&& self.chars@.len() < usize::MAX
        &&& (self.line as nat, self.col as nat) == line_col(self.chars@, self.pos as int)
    }

    fn new(chars: Vec<char>) -> (r: Scanner)
        requires
            chars@.len() < usize::MAX,
        ensures
            r.wf(),
            r.chars@ == chars@,
            r.pos == 0,
    {
        Scanner { chars, pos: 0, line: 1, col: 1 }
    }

    fn peek(&self) -> (r: Option<char>)
        requires
            self.wf(),
        ensures
            self.pos < self.chars@.len() ==> r == Some(self.chars@[self.pos as int]),
            self.pos >= self.chars@.len() ==> r is None,
    {
        if self.pos < self.chars.len() {
            Some(self.chars[self.pos])
        } else {
            None
        }
    }

    fn peek_is(&self, c: char) -> (r: bool)
        requires
            self.wf(),
        ensures
            r == has_at(self.chars@, self.pos as int, c),
    {
        self.pos < self.chars.len() && self.chars[self.pos] == c
    }

    fn bump(&mut self)
        requires
            old(self).wf(),
            old(self).pos < old(self).chars@.len(),
        ensures
            final(self).wf(),
            final(self).chars == old(self).chars,
            final(self).pos == old(self).pos + 1,
    {
        proof {
            lemma_line_col_bound(self.chars@, self.pos as int);
        }
        if self.chars[self.pos] == '\n' {
            self.line = self.line + 1;
            self.col = 1;
        } else {
            self.col = self.col + 1;
        }
        self.pos = self.pos + 1;
    }

    fn error_here(&self, message: String) -> (e: ParseError)
        requires
            self.wf(),
        ensures
            e.model() == failure(self.chars@, self.pos as int, message@),
    {
        ParseError { line: self.line, column: self.col, message }
    }

    fn skip_whitespace(&mut self)
        requires
            old(self).wf(),
        ensures
            final(self).wf(),
            final(self).chars == old(self).chars,
            final(self).pos == skip_ws(old(self).chars@, old(self).pos as int),
            old(self).pos <= final(self).pos,
    {
        let ghost start = self.pos as int;
        proof {
            lemma_skip_ws(self.chars@, start);
        }
        while self.pos < self.chars.len() && (self.chars[self.pos] == ' ' || self.chars[self.pos]
            == '\t' || self.chars[self.pos] == '\n' || self.chars[self.pos] == '\r')
            invariant
                self.wf(),
                self.chars == old(self).chars,
                old(self).pos <= self.pos,
                skip_ws(self.chars@, self.pos as int) == skip_ws(old(self).chars@, start),
            decreases self.chars@.len() - self.pos,
        {
            self.bump();
        }
    }
}


impl Scanner {
    fn peek_digit(&self) -> (r: bool)
        requires
            self.wf(),
        ensures
            r == digit_at(self.chars@, self.pos as int),
    {
        self.pos < self.chars.len() && '0' <= self.chars[self.pos] && self.chars[self.pos] <= '9'
    }

    fn skip_digits(&mut self)
        requires
            old(self).wf(),
        ensures
            final(self).wf(),
            final(self).chars == old(self).chars,
            final(self).pos == skip_digits(old(self).chars@, old(self).pos as int),
            old(self).pos <= final(self).pos,
    {
        let ghost start = self.pos as int;
        proof {
            lemma_skip_digits(self.chars@, start);
        }
        while self.peek_digit()
            invariant
                self.wf(),
                self.chars == old(self).chars,
                skip_digits(self.chars@, self.pos as int) == skip_digits(old(self).chars@, start),
            decreases self.chars@.len() - self.pos,
        {
            self.bump();
        }
    }

    fn parse_literal(&mut self, text: &str, value: Value) -> (r: Result<Value, ParseError>)
        requires
            old(self).wf(),
        ensures
            final(self).wf(),
            final(self).chars == old(self).chars,
            match r {
                Ok(v) => literal(old(self).chars@, old(self).pos as int, text@, value.model()) == Ok::<
                    (JsonValue, int),
                    (int, Seq<char>),
                >((v.model(), final(self).pos as int)),
                Err(e) => reports(
                    old(self).chars@,
                    literal(old(self).chars@, old(self).pos as int, text@, value.model()),
                    e,
                ),
            },
    {
        let start_line = self.line;
        let start_col = self.col;
        let ghost s = self.chars@;
        let ghost p = self.pos as int;
        let expected = chars_of(text);
        let mut i: usize = 0;
        while i < expected.len()
            invariant
                self.wf(),
                self.chars == old(self).chars,
                s == self.chars@,
                p == old(self).pos,
                expected@ == text@,
                i <= expected@.len(),
                self.pos == p + i,
                s.subrange(p, p + i) == expected@.take(i as int),
                (start_line as nat, start_col as nat) == line_col(s, p),
            decreases expected@.len() - i,
        {
            if !self.peek_is(expected[i]) {
                proof {
                    if p + text@.len() <= s.len() {
                        assert(s.subrange(p, p + text@.len())[i as int] != text@[i as int]);
                    }
                }
                let mut message = owned("expected '");
                push_str(&mut message, text);
                push_str(&mut message, "'");
                return Err(ParseError { line: start_line, column: start_col, message });
            }
            self.bump();
            i = i + 1;
            assert(s.subrange(p, p + i) =~= expected@.take(i as int));
        }
        assert(expected@.take(i as int) =~= text@);
        Ok(value)
    }

    fn parse_number(&mut self) -> (r: Result<Value, ParseError>)
        requires
            old(self).wf(),
        ensures
            final(self).wf(),
            final(self).chars == old(self).chars,
            match r {
                Ok(v) => number(old(self).chars@, old(self).pos as int) == Ok::<
                    (JsonValue, int),
                    (int, Seq<char>),
                >((v.model(), final(self).pos as int)),
                Err(e) => reports(old(self).chars@, number(old(self).chars@, old(self).pos as int), e),
            },
    {
        reveal(number);
        let ghost s = self.chars@;
        let start = self.pos;
        let start_line = self.line;
        let start_col = self.col;
        if self.peek_is('-') {
            self.bump();
        }
        if self.peek_is('0') {
            self.bump();
        } else if self.peek_digit() {
            self.skip_digits();
        } else {
            return Err(ParseError { line: start_line, column: start_col, message: owned("invalid number") });
        }
        let mut is_float = false;
        if self.peek_is('.') {
            is_float = true;
            self.bump();
            if self.peek_digit() {
                self.skip_digits();
            } else {
                return Err(self.error_here(owned("expected digit after decimal point")));
            }
        }
        if self.peek_is('e') || self.peek_is('E') {
            is_float = true;
            self.bump();
            if self.peek_is('+') || self.peek_is('-') {
                self.bump();
            }
            if self.peek_digit() {
                self.skip_digits();
            } else {
                return Err(self.error_here(owned("expected digit in exponent")));
            }
        }
        let end = self.pos;
        if is_float {
            Ok(Value::Float(string_from_range(self.chars.as_slice(), start, end)))
        } else {
            match parse_i64(self.chars.as_slice(), start, end) {
                Some(n) => Ok(Value::Int(n)),
                None => Ok(Value::Float(string_from_range(self.chars.as_slice(), start, end))),
            }
        }
    }
}


/// The hex digits read so far from a run of `i` hex digits at `q`.
pub open spec fn hex_prefix(s: Seq<char>, q: int, i: int) -> nat
    decreases i,
{
    if i <= 0 {
        0
    } else {
        hex_prefix(s, q, i - 1) * 16 + hex_value(s[q + i - 1])
    }
}

impl Scanner {
    fn read_hex4(&mut self) -> (r: Result<u32, ParseError>)
        requires
            old(self).wf(),
        ensures
            final(self).wf(),
            final(self).chars == old(self).chars,
            match r {
                Ok(v) => hex4(old(self).chars@, old(self).pos as int) == Ok::<(nat, int), (int, Seq<char>)>(
                    (v as nat, final(self).pos as int),
                ),
                Err(e) => reports(old(self).chars@, hex4(old(self).chars@, old(self).pos as int), e),
            },
    {
        let ghost s = self.chars@;
        let ghost q = self.pos as int;
        let mut value: u32 = 0;
        let mut i: usize = 0;
        while i < 4
            invariant
                self.wf(),
                self.chars == old(self).chars,
                s == self.chars@,
                q == old(self).pos,
                i <= 4,
                self.pos == q + i,
                forall|k: int| q <= k < q + i ==> #[trigger] hex_at(s, k),
                value as nat == hex_prefix(s, q, i as int),
                i == 0 ==> value == 0,
                i <= 1 ==> value < 16,
                i <= 2 ==> value < 256,
                i <= 3 ==> value < 4096,
                value < 0x10000,
            decreases 4 - i,
        {
            let c = self.peek();
            let d: u32 = match c {
                Some(c) => if '0' <= c && c <= '9' {
                    (c as u32) - ('0' as u32)
                } else if 'a' <= c && c <= 'f' {
                    (c as u32) - ('a' as u32) + 10
                } else if 'A' <= c && c <= 'F' {
                    (c as u32) - ('A' as u32) + 10
                } else {
                    16
                },
                None => 16,
            };
            if d == 16 {
                proof {
                    assert(!hex_at(s, q + i));
                    if i > 0 {
                        assert(hex_at(s, q));
                    }
                    if i > 1 {
                        assert(hex_at(s, q + 1));
                    }
                    if i > 2 {
                        assert(hex_at(s, q + 2));
                    }
                }
                return Err(self.error_here(owned("invalid unicode escape")));
            }
            assert(hex_at(s, q + i) && hex_value(s[q + i]) == d);
            value = value * 16 + d;
            self.bump();
            i = i + 1;
        }
        proof {
            assert(hex_at(s, q) && hex_at(s, q + 1) && hex_at(s, q + 2) && hex_at(s, q + 3));
            reveal_with_fuel(hex_prefix, 5);
        }
        Ok(value)
    }
}


impl Scanner {
    /// Reads the four hex digits after a `\u` that has already been
    /// consumed, combining a surrogate pair into one scalar value and
    /// rejecting any surrogate that is not part of a valid pair.
    fn read_unicode_escape(&mut self) -> (r: Result<char, ParseError>)
        requires
            old(self).wf(),
        ensures
            final(self).wf(),
            final(self).chars == old(self).chars,
            match r {
                Ok(c) => unicode_escape(old(self).chars@, old(self).pos as int) == Ok::<
                    (char, int),
                    (int, Seq<char>),
                >((c, final(self).pos as int)),
                Err(e) => reports(
                    old(self).chars@,
                    unicode_escape(old(self).chars@, old(self).pos as int),
                    e,
                ),
            },
    {
        let err_line = self.line;
        let err_col = self.col;
        let hi = self.read_hex4()?;
        if 0xD800 <= hi && hi <= 0xDBFF {
            if !self.peek_is('\\') {
                return Err(ParseError { line: err_line, column: err_col, message: owned("lone UTF-16 surrogate") });
            }
            self.bump();
            if !self.peek_is('u') {
                return Err(ParseError { line: err_line, column: err_col, message: owned("lone UTF-16 surrogate") });
            }
            self.bump();
            let lo = self.read_hex4()?;
            if !(0xDC00 <= lo && lo <= 0xDFFF) {
                return Err(ParseError { line: err_line, column: err_col, message: owned("lone UTF-16 surrogate") });
            }
            let combined: u32 = 0x10000 + (hi - 0xD800) * 1024 + (lo - 0xDC00);
            Ok(char_from_u32(combined).unwrap())
        } else if 0xDC00 <= hi && hi <= 0xDFFF {
            Err(ParseError { line: err_line, column: err_col, message: owned("lone UTF-16 surrogate") })
        } else {
            Ok(char_from_u32(hi).unwrap())
        }
    }

    fn parse_string(&mut self) -> (r: Result<String, ParseError>)
        requires
            old(self).wf(),
            has_at(old(self).chars@, old(self).pos as int, '"'),
        ensures
            final(self).wf(),
            final(self).chars == old(self).chars,
            match r {
                Ok(t) => string(old(self).chars@, old(self).pos as int) == Ok::<
                    (Seq<char>, int),
                    (int, Seq<char>),
                >((t@, final(self).pos as int)),
                Err(e) => reports(old(self).chars@, string(old(self).chars@, old(self).pos as int), e),
            },
    {
        let ghost s = self.chars@;
        let ghost start = self.pos as int;
        let start_line = self.line;
        let start_col = self.col;
        self.bump();
        let mut out = String::new();
        loop
            invariant
                self.wf(),
                self.chars == old(self).chars,
                s == self.chars@,
                start == old(self).pos,
                start < self.pos,
                (start_line as nat, start_col as nat) == line_col(s, start),
                string(s, start) == string_rest(s, start, self.pos as int, out@),
            decreases s.len() - self.pos,
        {
            let c = match self.peek() {
                None => {
                    return Err(ParseError { line: start_line, column: start_col, message: owned("unterminated string") });
                },
                Some(c) => c,
            };
            if c == '"' {
                self.bump();
                return Ok(out);
            } else if c == '\\' {
                self.bump();
                let e = match self.peek() {
                    None => {
                        return Err(self.error_here(owned("unterminated escape sequence")));
                    },
                    Some(e) => e,
                };
                let simple: Option<char> = if e == '"' {
                    Some('"')
                } else if e == '\\' {
                    Some('\\')
                } else if e == '/' {
                    Some('/')
                } else if e == 'b' {
                    Some('\u{8}')
                } else if e == 'f' {
                    Some('\u{c}')
                } else if e == 'n' {
                    Some('\n')
                } else if e == 'r' {
                    Some('\r')
                } else if e == 't' {
                    Some('\t')
                } else {
                    None
                };
                match simple {
                    Some(m) => {
                        push_char(&mut out, m);
                        self.bump();
                    },
                    None => {
                        if e == 'u' {
                            self.bump();
                            let ch = self.read_unicode_escape()?;
                            push_char(&mut out, ch);
                        } else {
                            return Err(self.error_here(owned("invalid escape sequence")));
                        }
                    },
                }
            } else if (c as u32) < 0x20 {
                return Err(self.error_here(owned("control character must be escaped")));
            } else {
                push_char(&mut out, c);
                self.bump();
            }
        }
    }
}


proof fn lemma_models_push(items: Seq<Value>, v: Value)
    ensures
        models(items.push(v)) == models(items).push(v.model()),
{
    assert(models(items.push(v)) =~= models(items).push(v.model()));
}

proof fn lemma_member_models_push(entries: Seq<(String, Value)>, k: String, v: Value)
    ensures
        member_models(entries.push((k, v))) == member_models(entries).push((k@, v.model())),
{
    assert(member_models(entries.push((k, v))) =~= member_models(entries).push((k@, v.model())));
}

/// The model of an array value is the array of its elements' models.
pub proof fn lemma_array_model(items: Vec<Value>)
    ensures
        Value::Array(items).model() == JsonValue::Array(models(items@)),
{
    let m = Value::Array(items).model();
    assert(m->Array_0 =~= models(items@));
}

/// The model of an object value is the object of its members' models.
pub proof fn lemma_object_model(entries: Vec<(String, Value)>)
    ensures
        Value::Object(entries).model() == JsonValue::Object(member_models(entries@)),
{
    let m = Value::Object(entries).model();
    assert(m->Object_0 =~= member_models(entries@));
}

impl Scanner {
    fn parse_value(&mut self) -> (r: Result<Value, ParseError>)
        requires
            old(self).wf(),
        ensures
            final(self).wf(),
            final(self).chars == old(self).chars,
            match r {
                Ok(v) => value(old(self).chars@, old(self).pos as int) == Ok::<
                    (JsonValue, int),
                    (int, Seq<char>),
                >((v.model(), final(self).pos as int)),
                Err(e) => reports(old(self).chars@, value(old(self).chars@, old(self).pos as int), e),
            },
        decreases old(self).chars@.len() - old(self).pos, 1int,
    {
        let ghost s = self.chars@;
        let ghost q = self.pos as int;
        self.skip_whitespace();
        let c = match self.peek() {
            None => {
                return Err(self.error_here(owned("unexpected end of input")));
            },
            Some(c) => c,
        };
        if c == '"' {
            match self.parse_string() {
                Ok(t) => Ok(Value::String(t)),
                Err(e) => Err(e),
            }
        } else if c == '{' {
            self.parse_object()
        } else if c == '[' {
            self.parse_array()
        } else if c == 't' {
            self.parse_literal("true", Value::Bool(true))
        } else if c == 'f' {
            self.parse_literal("false", Value::Bool(false))
        } else if c == 'n' {
            self.parse_literal("null", Value::Null)
        } else if c == '-' || ('0' <= c && c <= '9') {
            self.parse_number()
        } else {
            let mut message = owned("unexpected character '");
            push_char(&mut message, c);
            push_str(&mut message, "'");
            Err(self.error_here(message))
        }
    }

    fn parse_array(&mut self) -> (r: Result<Value, ParseError>)
        requires
            old(self).wf(),
            has_at(old(self).chars@, old(self).pos as int, '['),
        ensures
            final(self).wf(),
            final(self).chars == old(self).chars,
            match r {
                Ok(v) => array_at(old(self).chars@, old(self).pos as int) == Ok::<
                    (JsonValue, int),
                    (int, Seq<char>),
                >((v.model(), final(self).pos as int)),
                Err(e) => reports(old(self).chars@, array_at(old(self).chars@, old(self).pos as int), e),
            },
        decreases old(self).chars@.len() - old(self).pos, 0int,
    {
        let ghost s = self.chars@;
        let ghost p = self.pos as int;
        self.bump();
        let mut items: Vec<Value> = Vec::new();
        assert(models(items@) =~= Seq::<JsonValue>::empty());
        self.skip_whitespace();
        if self.peek_is(']') {
            self.bump();
            proof {
                lemma_array_model(items);
            }
            return Ok(Value::Array(items));
        }
        loop
            invariant
                self.wf(),
                self.chars == old(self).chars,
                s == self.chars@,
                p == old(self).pos,
                p < self.pos <= s.len(),
                array_at(s, p) == elements(s, self.pos as int, models(items@)),
            decreases s.len() - self.pos,
        {
            let ghost q = self.pos as int;
            proof {
                lemma_value_advances(s, q);
            }
            let v = self.parse_value()?;
            self.skip_whitespace();
            proof {
                lemma_models_push(items@, v);
            }
            if self.peek_is(',') {
                self.bump();
                items.push(v);
            } else if self.peek_is(']') {
                self.bump();
                items.push(v);
                proof {
                    lemma_array_model(items);
                }
                return Ok(Value::Array(items));
            } else {
                return Err(self.error_here(owned("expected ',' or ']'")));
            }
        }
    }

    fn parse_object(&mut self) -> (r: Result<Value, ParseError>)
        requires
            old(self).wf(),
            has_at(old(self).chars@, old(self).pos as int, '{'),
        ensures
            final(self).wf(),
            final(self).chars == old(self).chars,
            match r {
                Ok(v) => object_at(old(self).chars@, old(self).pos as int) == Ok::<
                    (JsonValue, int),
                    (int, Seq<char>),
                >((v.model(), final(self).pos as int)),
                Err(e) => reports(old(self).chars@, object_at(old(self).chars@, old(self).pos as int), e),
            },
        decreases old(self).chars@.len() - old(self).pos, 0int,
    {
        let ghost s = self.chars@;
        let ghost p = self.pos as int;
        self.bump();
        let mut entries: Vec<(String, Value)> = Vec::new();
        assert(member_models(entries@) =~= Seq::<(Seq<char>, JsonValue)>::empty());
        self.skip_whitespace();
        if self.peek_is('}') {
            self.bump();
            proof {
                lemma_object_model(entries);
            }
            return Ok(Value::Object(entries));
        }
        loop
            invariant
                self.wf(),
                self.chars == old(self).chars,
                s == self.chars@,
                p == old(self).pos,
                p < self.pos <= s.len(),
                object_at(s, p) == members(s, self.pos as int, member_models(entries@)),
            decreases s.len() - self.pos,
        {
            let ghost q = self.pos as int;
            self.skip_whitespace();
            if !self.peek_is('"') {
                return Err(self.error_here(owned("expected string key")));
            }
            proof {
                lemma_string_rest_advances(s, self.pos as int, self.pos + 1, Seq::empty());
            }
            let key = self.parse_string()?;
            self.skip_whitespace();
            if !self.peek_is(':') {
                return Err(self.error_here(owned("expected ':' after object key")));
            }
            self.bump();
            proof {
                lemma_value_advances(s, self.pos as int);
            }
            let value = self.parse_value()?;
            self.skip_whitespace();
            proof {
                lemma_member_models_push(entries@, key, value);
            }
            if self.peek_is(',') {
                self.bump();
                entries.push((key, value));
            } else if self.peek_is('}') {
                self.bump();
                entries.push((key, value));
                proof {
                    lemma_object_model(entries);
                }
                return Ok(Value::Object(entries));
            } else {
                return Err(self.error_here(owned("expected ',' or '}'")));
            }
        }
    }
}

/// Parses `input` as a single JSON value. Leading and trailing whitespace is
/// allowed; anything else left over after the value is a trailing-characters
/// error rather than being silently ignored.
pub fn parse(input: &str) -> (r: Result<Value, ParseError>)
    requires
        input@.len() < usize::MAX,
    ensures
        match r {
            Ok(v) => parse_model(input@) == Ok::<JsonValue, ErrorModel>(v.model()),
            Err(e) => parse_model(input@) == Err::<JsonValue, ErrorModel>(e.model()),
        },
{
    let mut scanner = Scanner::new(chars_of(input));
    let ghost s = input@;
    let value = match scanner.parse_value() {
        Ok(v) => v,
        Err(e) => {
            return Err(e);
        },
    };
    scanner.skip_whitespace();
    if scanner.peek().is_some() {
        return Err(scanner.error_here(owned("trailing characters after value")));
    }
    Ok(value)
}

} // verus!
