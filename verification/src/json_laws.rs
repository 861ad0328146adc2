//! What the grammar of `json` gives for a text set inside a longer one: the
//! same value, read at positions moved by the offset. From this follow the
//! two promises of `parse` about what surrounds a value: whitespace on
//! either side changes nothing, and anything else after it is an error.

use vstd::prelude::*;
use crate::text::is_digit;
use crate::json::{
    JsonValue, Step, is_ws, skip_ws, skip_digits, has_at, digit_at, hex_at, literal,
    int_part_end, fraction_end, exponent_end, number, hex4, unicode_escape, simple_escape,
    string_rest, string, value, array_at, object_at, elements, members, document, parse_model,
    lemma_skip_ws, lemma_skip_digits, lemma_string_rest_advances, lemma_value_advances,
    lemma_number_advances,
};

verus! {

/// `s` stands in `t` from position `d` on.
#[verifier::opaque]
pub open spec fn sits_in(s: Seq<char>, t: Seq<char>, d: int) -> bool {
    &&& 0 <= d
    &&& d + s.len() <= t.len()
    &&& forall|i: int| 0 <= i < s.len() ==> t[d + i] == #[trigger] s[i]
}

/// A character that would carry on a number written just before it.
pub open spec fn continues_number(c: char) -> bool {
    is_digit(c) || c == '.' || c == 'e' || c == 'E'
}

/// What follows `s` in `t`, if anything, cannot carry on a number.
pub open spec fn closed_after(s: Seq<char>, t: Seq<char>, d: int) -> bool {
    d + s.len() == t.len() || !continues_number(t[d + s.len()])
}

/// A value read from `s` whose end does not depend on what follows `s` in
/// `t`: it ends before the end of `s`, or it is no number, or nothing that
/// could carry on a number follows.
pub open spec fn read_within(s: Seq<char>, t: Seq<char>, d: int, r: Step<JsonValue>) -> bool {
    match r {
        Ok((v, e)) => e < s.len() || closed_after(s, t, d) || !(v is Int || v is Float),
        Err(_) => false,
    }
}

proof fn lemma_char_in(s: Seq<char>, t: Seq<char>, d: int, i: int)
    requires
        sits_in(s, t, d),
        0 <= i < s.len(),
    ensures
        t[i + d] == s[i],
        0 <= i + d < t.len(),
{
    reveal(sits_in);
    assert(t[d + i] == s[i]);
}

proof fn lemma_skip_ws_in(s: Seq<char>, t: Seq<char>, d: int, i: int)
    requires
        sits_in(s, t, d),
        0 <= i <= s.len(),
    ensures
        skip_ws(s, i) < s.len() ==> skip_ws(t, i + d) == skip_ws(s, i) + d,
        skip_ws(s, i) == s.len() ==> skip_ws(t, i + d) == skip_ws(t, s.len() + d),
    decreases s.len() - i,
{
    if i < s.len() {
        lemma_char_in(s, t, d, i);
        if is_ws(s[i]) {
            lemma_skip_ws_in(s, t, d, i + 1);
        }
    }
}

proof fn lemma_skip_digits_in(s: Seq<char>, t: Seq<char>, d: int, i: int)
    requires
        sits_in(s, t, d),
        0 <= i <= s.len(),
    ensures
        skip_digits(s, i) < s.len() ==> skip_digits(t, i + d) == skip_digits(s, i) + d,
        skip_digits(s, i) == s.len() && closed_after(s, t, d) ==> skip_digits(t, i + d) == s.len() + d,
    decreases s.len() - i,
{
    if i < s.len() {
        lemma_char_in(s, t, d, i);
        if is_digit(s[i]) {
            lemma_skip_digits_in(s, t, d, i + 1);
        }
    }
}

/// `has_at` reads the same character in `s` and, moved, in `t`.
proof fn lemma_has_at_in(s: Seq<char>, t: Seq<char>, d: int, i: int, c: char)
    requires
        sits_in(s, t, d),
        0 <= i < s.len(),
    ensures
        has_at(t, i + d, c) == has_at(s, i, c),
        digit_at(t, i + d) == digit_at(s, i),
        hex_at(t, i + d) == hex_at(s, i),
{
    lemma_char_in(s, t, d, i);
}

proof fn lemma_literal_in(s: Seq<char>, t: Seq<char>, d: int, p: int, text: Seq<char>, v: JsonValue)
    requires
        sits_in(s, t, d),
        0 <= p,
        literal(s, p, text, v) is Ok,
    ensures
        literal(t, p + d, text, v) == (Ok::<(JsonValue, int), (int, Seq<char>)>((v, p + text.len() + d))),
{
    reveal(sits_in);
    assert forall|k: int| 0 <= k < text.len() implies t.subrange(p + d, p + d + text.len())[k] == #[trigger] s.subrange(
        p,
        p + text.len(),
    )[k] by {
        lemma_char_in(s, t, d, p + k);
    }
    assert(t.subrange(p + d, p + d + text.len()) =~= s.subrange(p, p + text.len()));
}

proof fn lemma_number_in(s: Seq<char>, t: Seq<char>, d: int, p: int)
    requires
        sits_in(s, t, d),
        0 <= p < s.len(),
        number(s, p) matches Ok((_, e)) && (e < s.len() || closed_after(s, t, d)),
    ensures
        number(t, p + d) matches Ok((v, e)) && number(s, p) == (Ok::<(JsonValue, int), (int, Seq<char>)>((v, e - d))),
{
    reveal(number);
    reveal(sits_in);
    let e = number(s, p)->Ok_0.1;
    lemma_number_advances(s, p);
    lemma_has_at_in(s, t, d, p, '-');
    let a = if has_at(s, p, '-') {
        p + 1
    } else {
        p
    };
    let b = int_part_end(s, p, a)->Ok_0;
    // The integer part.
    lemma_has_at_in(s, t, d, a, '0');
    if !has_at(s, a, '0') {
        lemma_skip_digits(s, a);
        lemma_skip_digits_in(s, t, d, a);
    }
    lemma_skip_digits(s, a);
    assert(int_part_end(t, p + d, a + d) == (Ok::<int, (int, Seq<char>)>(b + d)));
    // The fraction.
    let (c, hf) = fraction_end(s, b)->Ok_0;
    if b < s.len() {
        lemma_has_at_in(s, t, d, b, '.');
        if has_at(s, b, '.') {
            lemma_has_at_in(s, t, d, b + 1, '0');
            lemma_skip_digits(s, b + 1);
            lemma_skip_digits_in(s, t, d, b + 1);
        }
    } else {
        assert(!has_at(t, b + d, '.'));
    }
    assert(fraction_end(t, b + d) == (Ok::<(int, bool), (int, Seq<char>)>((c + d, hf))));
    // The exponent.
    let (f, he) = exponent_end(s, c)->Ok_0;
    if c < s.len() {
        lemma_has_at_in(s, t, d, c, 'e');
        lemma_has_at_in(s, t, d, c, 'E');
        if has_at(s, c, 'e') || has_at(s, c, 'E') {
            lemma_has_at_in(s, t, d, c + 1, '+');
            lemma_has_at_in(s, t, d, c + 1, '-');
            let g = if has_at(s, c + 1, '+') || has_at(s, c + 1, '-') {
                c + 2
            } else {
                c + 1
            };
            lemma_has_at_in(s, t, d, g, '0');
            lemma_skip_digits(s, g);
            lemma_skip_digits_in(s, t, d, g);
        }
    } else {
        assert(!has_at(t, c + d, 'e') && !has_at(t, c + d, 'E'));
    }
    assert(exponent_end(t, c + d) == (Ok::<(int, bool), (int, Seq<char>)>((f + d, he))));
    assert forall|k: int| 0 <= k < f - p implies t.subrange(p + d, f + d)[k] == #[trigger] s.subrange(p, f)[k] by {
        lemma_char_in(s, t, d, p + k);
    }
    assert(t.subrange(p + d, f + d) =~= s.subrange(p, f));
}

proof fn lemma_hex4_in(s: Seq<char>, t: Seq<char>, d: int, q: int)
    requires
        sits_in(s, t, d),
        0 <= q,
        hex4(s, q) is Ok,
    ensures
        hex4(t, q + d) == (Ok::<(nat, int), (int, Seq<char>)>((hex4(s, q)->Ok_0.0, q + 4 + d))),
{
    lemma_has_at_in(s, t, d, q, '0');
    lemma_has_at_in(s, t, d, q + 1, '0');
    lemma_has_at_in(s, t, d, q + 2, '0');
    lemma_has_at_in(s, t, d, q + 3, '0');
    lemma_char_in(s, t, d, q);
    lemma_char_in(s, t, d, q + 1);
    lemma_char_in(s, t, d, q + 2);
    lemma_char_in(s, t, d, q + 3);
}

proof fn lemma_unicode_escape_in(s: Seq<char>, t: Seq<char>, d: int, q: int)
    requires
        sits_in(s, t, d),
        0 <= q,
        unicode_escape(s, q) is Ok,
    ensures
        unicode_escape(t, q + d) == (Ok::<(char, int), (int, Seq<char>)>(
            (unicode_escape(s, q)->Ok_0.0, unicode_escape(s, q)->Ok_0.1 + d),
        )),
{
    lemma_hex4_in(s, t, d, q);
    let (hi, q1) = hex4(s, q)->Ok_0;
    if 0xD800 <= hi <= 0xDBFF {
        lemma_has_at_in(s, t, d, q1, '\\');
        lemma_has_at_in(s, t, d, q1 + 1, 'u');
        lemma_hex4_in(s, t, d, q1 + 2);
    }
}

proof fn lemma_string_rest_in(s: Seq<char>, t: Seq<char>, d: int, start: int, q: int, acc: Seq<char>)
    requires
        sits_in(s, t, d),
        0 <= q,
        string_rest(s, start, q, acc) is Ok,
    ensures
        string_rest(t, start + d, q + d, acc) == (Ok::<(Seq<char>, int), (int, Seq<char>)>(
            (string_rest(s, start, q, acc)->Ok_0.0, string_rest(s, start, q, acc)->Ok_0.1 + d),
        )),
    decreases s.len() - q,
{
    lemma_char_in(s, t, d, q);
    let c = s[q];
    if c == '\\' {
        lemma_char_in(s, t, d, q + 1);
        let e = s[q + 1];
        match simple_escape(e) {
            Some(m) => {
                lemma_string_rest_in(s, t, d, start, q + 2, acc.push(m));
            },
            None => {
                lemma_unicode_escape_in(s, t, d, q + 2);
                let (ch, q2) = unicode_escape(s, q + 2)->Ok_0;
                lemma_string_rest_in(s, t, d, start, q2, acc.push(ch));
            },
        }
    } else if c != '"' {
        lemma_string_rest_in(s, t, d, start, q + 1, acc.push(c));
    }
}

pub(crate) proof fn lemma_string_in(s: Seq<char>, t: Seq<char>, d: int, p: int)
    requires
        sits_in(s, t, d),
        0 <= p,
        string(s, p) is Ok,
    ensures
        string(t, p + d) == (Ok::<(Seq<char>, int), (int, Seq<char>)>(
            (string(s, p)->Ok_0.0, string(s, p)->Ok_0.1 + d),
        )),
{
    lemma_string_rest_in(s, t, d, p, p + 1, Seq::empty());
}

proof fn lemma_number_is_number(s: Seq<char>, p: int)
    ensures
        number(s, p) matches Ok((v, _)) ==> (v is Int || v is Float),
{
    reveal(number);
}

pub(crate) proof fn lemma_value_in(s: Seq<char>, t: Seq<char>, d: int, q: int)
    requires
        sits_in(s, t, d),
        0 <= q <= s.len(),
        read_within(s, t, d, value(s, q)),
    ensures
        value(t, q + d) == (Ok::<(JsonValue, int), (int, Seq<char>)>(
            (value(s, q)->Ok_0.0, value(s, q)->Ok_0.1 + d),
        )),
    decreases s.len() - q, 1int,
{
    lemma_skip_ws(s, q);
    lemma_skip_ws_in(s, t, d, q);
    let p = skip_ws(s, q);
    lemma_char_in(s, t, d, p);
    let c = s[p];
    if c == '"' {
        lemma_string_in(s, t, d, p);
    } else if c == '{' {
        lemma_object_at_in(s, t, d, p);
    } else if c == '[' {
        lemma_array_at_in(s, t, d, p);
    } else if c == 't' {
        lemma_literal_in(s, t, d, p, "true"@, JsonValue::Bool(true));
    } else if c == 'f' {
        lemma_literal_in(s, t, d, p, "false"@, JsonValue::Bool(false));
    } else if c == 'n' {
        lemma_literal_in(s, t, d, p, "null"@, JsonValue::Null);
    } else {
        lemma_number_is_number(s, p);
        lemma_number_in(s, t, d, p);
    }
}

proof fn lemma_array_at_in(s: Seq<char>, t: Seq<char>, d: int, p: int)
    requires
        sits_in(s, t, d),
        0 <= p < s.len(),
        array_at(s, p) is Ok,
    ensures
        array_at(t, p + d) == (Ok::<(JsonValue, int), (int, Seq<char>)>(
            (array_at(s, p)->Ok_0.0, array_at(s, p)->Ok_0.1 + d),
        )),
    decreases s.len() - p, 0int,
{
    lemma_char_in(s, t, d, p);
    lemma_skip_ws(s, p + 1);
    lemma_skip_ws_in(s, t, d, p + 1);
    let q1 = skip_ws(s, p + 1);
    if q1 < s.len() {
        lemma_has_at_in(s, t, d, q1, ']');
        if !has_at(s, q1, ']') {
            lemma_elements_in(s, t, d, q1, Seq::empty());
        }
    } else {
        assert(value(s, q1) is Err);
    }
}

proof fn lemma_object_at_in(s: Seq<char>, t: Seq<char>, d: int, p: int)
    requires
        sits_in(s, t, d),
        0 <= p < s.len(),
        object_at(s, p) is Ok,
    ensures
        object_at(t, p + d) == (Ok::<(JsonValue, int), (int, Seq<char>)>(
            (object_at(s, p)->Ok_0.0, object_at(s, p)->Ok_0.1 + d),
        )),
    decreases s.len() - p, 0int,
{
    lemma_char_in(s, t, d, p);
    lemma_skip_ws(s, p + 1);
    lemma_skip_ws_in(s, t, d, p + 1);
    let q1 = skip_ws(s, p + 1);
    if q1 < s.len() {
        lemma_has_at_in(s, t, d, q1, '}');
        if !has_at(s, q1, '}') {
            lemma_members_in(s, t, d, q1, Seq::empty());
        }
    } else {
        assert(skip_ws(s, q1) == q1);
        assert(members(s, q1, Seq::empty()) is Err);
    }
}

pub(crate) proof fn lemma_elements_in(s: Seq<char>, t: Seq<char>, d: int, q: int, acc: Seq<JsonValue>)
    requires
        sits_in(s, t, d),
        0 <= q <= s.len(),
        elements(s, q, acc) is Ok,
    ensures
        elements(t, q + d, acc) == (Ok::<(JsonValue, int), (int, Seq<char>)>(
            (elements(s, q, acc)->Ok_0.0, elements(s, q, acc)->Ok_0.1 + d),
        )),
    decreases s.len() - q, 2int,
{
    lemma_value_advances(s, q);
    let (v, q1) = value(s, q)->Ok_0;
    lemma_skip_ws(s, q1);
    let q2 = skip_ws(s, q1);
    assert(q2 < s.len());
    lemma_value_in(s, t, d, q);
    lemma_skip_ws_in(s, t, d, q1);
    lemma_has_at_in(s, t, d, q2, ',');
    lemma_has_at_in(s, t, d, q2, ']');
    if has_at(s, q2, ',') && q2 >= q {
        lemma_elements_in(s, t, d, q2 + 1, acc.push(v));
    }
}

pub(crate) proof fn lemma_members_in(
    s: Seq<char>,
    t: Seq<char>,
    d: int,
    q: int,
    acc: Seq<(Seq<char>, JsonValue)>,
)
    requires
        sits_in(s, t, d),
        0 <= q <= s.len(),
        members(s, q, acc) is Ok,
    ensures
        members(t, q + d, acc) == (Ok::<(JsonValue, int), (int, Seq<char>)>(
            (members(s, q, acc)->Ok_0.0, members(s, q, acc)->Ok_0.1 + d),
        )),
    decreases s.len() - q, 2int,
{
    lemma_skip_ws(s, q);
    lemma_skip_ws_in(s, t, d, q);
    let p = skip_ws(s, q);
    lemma_has_at_in(s, t, d, p, '"');
    lemma_string_in(s, t, d, p);
    lemma_string_rest_advances(s, p, p + 1, Seq::empty());
    let (k, q1) = string(s, p)->Ok_0;
    lemma_skip_ws(s, q1);
    lemma_skip_ws_in(s, t, d, q1);
    let q2 = skip_ws(s, q1);
    lemma_has_at_in(s, t, d, q2, ':');
    lemma_value_advances(s, q2 + 1);
    let (v, q3) = value(s, q2 + 1)->Ok_0;
    lemma_skip_ws(s, q3);
    let q4 = skip_ws(s, q3);
    assert(q4 < s.len());
    lemma_value_in(s, t, d, q2 + 1);
    lemma_skip_ws_in(s, t, d, q3);
    lemma_has_at_in(s, t, d, q4, ',');
    lemma_has_at_in(s, t, d, q4, '}');
    if has_at(s, q4, ',') && q4 >= q {
        lemma_members_in(s, t, d, q4 + 1, acc.push((k, v)));
    }
}

proof fn lemma_skip_leading_ws(t: Seq<char>, j: int, d: int)
    requires
        0 <= j <= d <= t.len(),
        forall|i: int| 0 <= i < d ==> is_ws(#[trigger] t[i]),
    ensures
        skip_ws(t, j) == skip_ws(t, d),
    decreases d - j,
{
    if j < d {
        lemma_skip_leading_ws(t, j + 1, d);
    }
}

proof fn lemma_skip_ws_to_end(t: Seq<char>, i: int)
    requires
        0 <= i <= t.len(),
        forall|k: int| i <= k < t.len() ==> is_ws(#[trigger] t[k]),
    ensures
        skip_ws(t, i) == t.len(),
    decreases t.len() - i,
{
    if i < t.len() {
        lemma_skip_ws_to_end(t, i + 1);
    }
}

/// Whitespace before and after a text that parses changes nothing: the
/// same value comes out.
pub proof fn parse_ignores_surrounding_whitespace(s: Seq<char>, w1: Seq<char>, w2: Seq<char>)
    requires
        parse_model(s) is Ok,
        forall|i: int| 0 <= i < w1.len() ==> is_ws(#[trigger] w1[i]),
        forall|i: int| 0 <= i < w2.len() ==> is_ws(#[trigger] w2[i]),
    ensures
        parse_model(w1 + s + w2) == parse_model(s),
{
    let t = w1 + s + w2;
    let d = w1.len() as int;
    assert(sits_in(s, t, d)) by {
        reveal(sits_in);
    }
    lemma_value_advances(s, 0);
    let (v, e) = value(s, 0)->Ok_0;
    if d + s.len() < t.len() {
        assert(t[d + s.len()] == w2[0]);
    }
    lemma_value_in(s, t, d, 0);
    assert forall|i: int| 0 <= i < d implies is_ws(#[trigger] t[i]) by {
        assert(t[i] == w1[i]);
    }
    lemma_skip_leading_ws(t, 0, d);
    assert(value(t, 0) == value(t, d));
    lemma_skip_ws(s, e);
    assert(skip_ws(s, e) == s.len());
    lemma_skip_ws_in(s, t, d, e);
    assert forall|k: int| d + s.len() <= k < t.len() implies is_ws(#[trigger] t[k]) by {
        assert(t[k] == w2[k - d - s.len()]);
    }
    lemma_skip_ws_to_end(t, d + s.len());
    assert(skip_ws(t, e + d) == t.len());
    assert(value(t, 0) == (Ok::<(JsonValue, int), (int, Seq<char>)>((v, e + d))));
    assert(document(t) == (Ok::<JsonValue, (int, Seq<char>)>(v)));
}

/// After a value that is not a number, text that is not all whitespace is
/// never ignored: the parse fails, on the trailing characters.
pub proof fn parse_rejects_trailing_text(s: Seq<char>, x: Seq<char>)
    requires
        parse_model(s) matches Ok(v) && !(v is Int || v is Float),
        exists|i: int| 0 <= i < x.len() && !is_ws(#[trigger] x[i]),
    ensures
        parse_model(s + x) matches Err(m) && m.message == "trailing characters after value"@,
{
    let t = s + x;
    assert(sits_in(s, t, 0)) by {
        reveal(sits_in);
    }
    lemma_value_advances(s, 0);
    let (v, e) = value(s, 0)->Ok_0;
    lemma_value_in(s, t, 0, 0);
    lemma_skip_ws_in(s, t, 0, e);
    lemma_skip_ws(s, e);
    assert(skip_ws(s, e) == s.len());
    let k = choose|i: int| 0 <= i < x.len() && !is_ws(#[trigger] x[i]);
    assert(t[s.len() + k] == x[k]);
    lemma_skip_ws(t, s.len() as int);
    assert(skip_ws(t, e) < t.len());
    assert(value(t, 0) == (Ok::<(JsonValue, int), (int, Seq<char>)>((v, e))));
    assert(document(t) matches Err((_, m)) && m == "trailing characters after value"@);
}

} // verus!
