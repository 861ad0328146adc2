//! The text forms used by the `stats` report: JSON string literals, the
//! indented object and array layout of the `--json` report, and counts with
//! thousands separators.

use vstd::prelude::*;
use crate::text::{decimal, decimal_string, push_char, push_str};
use crate::json::{
    JsonValue, parse_model, string_rest, hex_value, is_hex, value, skip_ws, document, string,
    lemma_skip_ws,
};

verus! {

/// The lowercase hexadecimal digit for `d < 16`.
pub open spec fn hex_lower(d: nat) -> char {
    if d < 10 {
        (('0' as nat) + d) as char
    } else {
        (('a' as nat) + d - 10) as char
    }
}

/// How one character is written inside a JSON string literal: quotes,
/// backslashes, `\n`, `\r` and `\t` get their short escapes, the other
/// control characters `\u00XX` with lowercase hex digits, and everything else
/// stands for itself.
pub open spec fn escape_char(c: char) -> Seq<char> {
    if c == '"' {
        seq!['\\', '"']
    } else if c == '\\' {
        seq!['\\', '\\']
    } else if c == '\n' {
        seq!['\\', 'n']
    } else if c == '\r' {
        seq!['\\', 'r']
    } else if c == '\t' {
        seq!['\\', 't']
    } else if (c as u32) < 0x20 {
        seq!['\\', 'u', '0', '0', hex_lower(((c as u32) / 16) as nat), hex_lower(((c as u32) % 16) as nat)]
    } else {
        seq![c]
    }
}

/// The escaped form of every character of `s`, in order.
pub open spec fn escaped(s: Seq<char>) -> Seq<char>
    decreases s.len(),
{
    if s.len() == 0 {
        Seq::empty()
    } else {
        escaped(s.drop_last()) + escape_char(s.last())
    }
}

/// `s` as a JSON string literal.
pub open spec fn quoted(s: Seq<char>) -> Seq<char> {
    seq!['"'] + escaped(s) + seq!['"']
}

fn hex_digit_lower(d: u32) -> (c: char)
    requires
        d < 16,
    ensures
        c == hex_lower(d as nat),
{
    if d < 10 {
        crate::text::char_from_u32(('0' as u32) + d).unwrap()
    } else {
        crate::text::char_from_u32(('a' as u32) + d - 10).unwrap()
    }
}

/// Writes `s` as a JSON string literal.
pub fn json_string(s: &str) -> (r: String)
    ensures
        r@ == quoted(s@),
{
    let chars = crate::text::chars_of(s);
    let mut out = String::new();
    push_char(&mut out, '"');
    let mut i: usize = 0;
    while i < chars.len()
        invariant
            i <= chars@.len(),
            chars@ == s@,
            out@ == seq!['"'] + escaped(s@.take(i as int)),
        decreases chars@.len() - i,
    {
        let c = chars[i];
        let ghost before = out@;
        if c == '"' {
            push_str(&mut out, "\\\"");
        } else if c == '\\' {
            push_str(&mut out, "\\\\");
        } else if c == '\n' {
            push_str(&mut out, "\\n");
        } else if c == '\r' {
            push_str(&mut out, "\\r");
        } else if c == '\t' {
            push_str(&mut out, "\\t");
        } else if (c as u32) < 0x20 {
            push_str(&mut out, "\\u00");
            let hi = hex_digit_lower((c as u32) / 16);
            let lo = hex_digit_lower((c as u32) % 16);
            push_char(&mut out, hi);
            push_char(&mut out, lo);
            proof {
                reveal_strlit("\\u00");
                assert(out@ =~= before + escape_char(c));
            }
        } else {
            push_char(&mut out, c);
        }
        proof {
            reveal_strlit("\\\"");
            reveal_strlit("\\\\");
            reveal_strlit("\\n");
            reveal_strlit("\\r");
            reveal_strlit("\\t");
            reveal_strlit("\\u00");
            assert(s@.take(i + 1).drop_last() =~= s@.take(i as int));
            assert(out@ =~= before + escape_char(c));
        }
        i = i + 1;
    }
    push_char(&mut out, '"');
    assert(s@.take(chars@.len() as int) =~= s@);
    out
}


proof fn lemma_hex_lower(d: nat)
    requires
        d < 16,
    ensures
        is_hex(hex_lower(d)),
        hex_value(hex_lower(d)) == d,
{
}

proof fn lemma_escaped_concat(a: Seq<char>, b: Seq<char>)
    ensures
        escaped(a + b) == escaped(a) + escaped(b),
    decreases b.len(),
{
    if b.len() == 0 {
        assert(a + b =~= a);
        assert(escaped(a) + escaped(b) =~= escaped(a));
    } else {
        lemma_escaped_concat(a, b.drop_last());
        assert((a + b).drop_last() =~= a + b.drop_last());
        assert(escaped(a) + escaped(b) =~= escaped(a) + escaped(b.drop_last()) + escape_char(
            b.last(),
        ));
    }
}

/// Reading the escaped form of `c` at `i` decodes exactly `c`.
#[verifier::spinoff_prover]
proof fn lemma_escape_decodes(q: Seq<char>, start: int, i: int, acc: Seq<char>, c: char)
    requires
        0 <= i,
        i + escape_char(c).len() < q.len(),
        forall|j: int| 0 <= j < escape_char(c).len() ==> q[i + j] == #[trigger] escape_char(c)[j],
    ensures
        string_rest(q, start, i, acc) == string_rest(q, start, i + escape_char(c).len(), acc.push(c)),
{
    let e = escape_char(c);
    assert(q[i] == e[0]);
    if e.len() >= 2 {
        assert(q[i + 1] == e[1]);
    }
    if c != '"' && c != '\\' && c != '\n' && c != '\r' && c != '\t' && (c as u32) < 0x20 {
        let v = c as u32;
        assert(q[i + 2] == e[2]);
        assert(q[i + 3] == e[3]);
        assert(q[i + 4] == e[4]);
        assert(q[i + 5] == e[5]);
        lemma_hex_lower((v / 16) as nat);
        lemma_hex_lower((v % 16) as nat);
        assert(hex_value(q[i + 2]) == 0);
        assert(hex_value(q[i + 3]) == 0);
        assert(hex_value(q[i + 4]) * 16 + hex_value(q[i + 5]) == v as nat);
        vstd::utf8::char_u32_cast(c, v);
    }
}

#[verifier::spinoff_prover]
proof fn lemma_string_body(x: Seq<char>, k: int)
    requires
        0 <= k <= x.len(),
    ensures
        string_rest(quoted(x), 0, 1 + escaped(x.take(k)).len() as int, x.take(k)) == Ok::<
            (Seq<char>, int),
            (int, Seq<char>),
        >((x, quoted(x).len() as int)),
    decreases x.len() - k,
{
    let q = quoted(x);
    let i: int = 1 + escaped(x.take(k)).len() as int;
    lemma_escaped_concat(x.take(k), x.skip(k));
    assert(x.take(k) + x.skip(k) =~= x);
    if k == x.len() {
        assert(x.take(k) =~= x);
        assert(q[i] == '"');
    } else {
        let c = x[k];
        assert(x.take(k + 1).drop_last() =~= x.take(k));
        assert(escaped(x.take(k + 1)) == escaped(x.take(k)) + escape_char(c));
        lemma_escaped_concat(x.take(k + 1), x.skip(k + 1));
        assert(x.take(k + 1) + x.skip(k + 1) =~= x);
        assert forall|j: int| 0 <= j < escape_char(c).len() implies q[i + j]
            == #[trigger] escape_char(c)[j] by {
            assert(q[i + j] == escaped(x)[i + j - 1]);
            assert(escaped(x) == escaped(x.take(k)) + escape_char(c) + escaped(x.skip(k + 1)));
        }
        lemma_escape_decodes(q, 0, i, x.take(k), c);
        assert(x.take(k).push(c) =~= x.take(k + 1));
        lemma_string_body(x, k + 1);
    }
}

/// Reading the escaped form of `y` at `i` decodes exactly `y`.
#[verifier::spinoff_prover]
proof fn lemma_escaped_run(q: Seq<char>, i: int, y: Seq<char>, acc: Seq<char>)
    requires
        0 <= i,
        i + escaped(y).len() < q.len(),
        forall|j: int| 0 <= j < escaped(y).len() ==> q[i + j] == #[trigger] escaped(y)[j],
    ensures
        string_rest(q, 0, i, acc) == string_rest(q, 0, i + escaped(y).len(), acc + y),
    decreases y.len(),
{
    if y.len() == 0 {
        assert(acc + y =~= acc);
    } else {
        let init = y.drop_last();
        let c = y.last();
        assert(escaped(y) == escaped(init) + escape_char(c));
        assert forall|j: int| 0 <= j < escaped(init).len() implies q[i + j] == #[trigger] escaped(init)[j] by {
            assert(escaped(y)[j] == escaped(init)[j]);
        }
        lemma_escaped_run(q, i, init, acc);
        let k = i + escaped(init).len();
        assert forall|j: int| 0 <= j < escape_char(c).len() implies q[k + j] == #[trigger] escape_char(c)[j] by {
            assert(escaped(y)[escaped(init).len() + j] == escape_char(c)[j]);
        }
        lemma_escape_decodes(q, 0, k, acc + init, c);
        assert((acc + init).push(c) =~= acc + y);
    }
}

/// A string literal: the escaped form of `x`, then the two-character escape
/// `\e`, between quotes.
pub open spec fn escape_literal(x: Seq<char>, e: char) -> Seq<char> {
    seq!['"'] + escaped(x) + seq!['\\', e, '"']
}

#[verifier::spinoff_prover]
proof fn lemma_escape_literal(x: Seq<char>, e: char, c: char)
    requires
        crate::json::simple_escape(e) == Some(c),
    ensures
        parse_model(escape_literal(x, e)) == Ok::<JsonValue, crate::json::ErrorModel>(JsonValue::Str(x.push(c))),
{
    let q = escape_literal(x, e);
    let n = escaped(x).len() as int;
    assert forall|j: int| 0 <= j < escaped(x).len() implies q[1 + j] == #[trigger] escaped(x)[j] by {}
    lemma_escaped_run(q, 1, x, Seq::empty());
    assert(Seq::<char>::empty() + x =~= x);
    assert(q[1 + n] == '\\');
    assert(q[2 + n] == e);
    assert(q[3 + n] == '"');
    assert(q.len() == 4 + n);
    assert(string_rest(q, 0, 1 + n, x) == string_rest(q, 0, 3 + n, x.push(c)));
    assert(string_rest(q, 0, 3 + n, x.push(c)) == Ok::<(Seq<char>, int), (int, Seq<char>)>((x.push(c), 4 + n)));
    assert(string(q, 0) == Ok::<(Seq<char>, int), (int, Seq<char>)>((x.push(c), 4 + n)));
    assert(skip_ws(q, 0) == 0);
    assert(value(q, 0) == Ok::<(JsonValue, int), (int, Seq<char>)>((JsonValue::Str(x.push(c)), 4 + n)));
    assert(skip_ws(q, 4 + n) == 4 + n);
}

/// Every two-character escape decodes to the character RFC 8259 gives it,
/// whatever string comes before it: `\"` a quote, `\\` a backslash, `\/` a
/// slash, `\b` backspace, `\f` form feed, `\n` line feed, `\r` carriage
/// return and `\t` tab.
#[verifier::spinoff_prover]
pub proof fn escapes_decode_as_rfc8259(x: Seq<char>)
    ensures
        parse_model(escape_literal(x, '"')) == Ok::<JsonValue, crate::json::ErrorModel>(JsonValue::Str(x.push('"'))),
        parse_model(escape_literal(x, '\\')) == Ok::<JsonValue, crate::json::ErrorModel>(JsonValue::Str(x.push('\\'))),
        parse_model(escape_literal(x, '/')) == Ok::<JsonValue, crate::json::ErrorModel>(JsonValue::Str(x.push('/'))),
        parse_model(escape_literal(x, 'b')) == Ok::<JsonValue, crate::json::ErrorModel>(
            JsonValue::Str(x.push('\u{8}')),
        ),
        parse_model(escape_literal(x, 'f')) == Ok::<JsonValue, crate::json::ErrorModel>(
            JsonValue::Str(x.push('\u{c}')),
        ),
        parse_model(escape_literal(x, 'n')) == Ok::<JsonValue, crate::json::ErrorModel>(JsonValue::Str(x.push('\n'))),
        parse_model(escape_literal(x, 'r')) == Ok::<JsonValue, crate::json::ErrorModel>(JsonValue::Str(x.push('\r'))),
        parse_model(escape_literal(x, 't')) == Ok::<JsonValue, crate::json::ErrorModel>(JsonValue::Str(x.push('\t'))),
{
    lemma_escape_literal(x, '"', '"');
    lemma_escape_literal(x, '\\', '\\');
    lemma_escape_literal(x, '/', '/');
    lemma_escape_literal(x, 'b', '\u{8}');
    lemma_escape_literal(x, 'f', '\u{c}');
    lemma_escape_literal(x, 'n', '\n');
    lemma_escape_literal(x, 'r', '\r');
    lemma_escape_literal(x, 't', '\t');
}

/// The uppercase hexadecimal digit for `d < 16`.
pub open spec fn hex_upper(d: nat) -> char {
    if d < 10 {
        (('0' as nat) + d) as char
    } else {
        (('A' as nat) + d - 10) as char
    }
}

/// The string literal that writes `c`, a character below U+10000, as a
/// `\u` escape with four hex digits, in upper or lower case.
pub open spec fn unicode_literal(c: char, upper: bool) -> Seq<char> {
    let v = c as nat;
    let h = |d: nat| if upper { hex_upper(d) } else { hex_lower(d) };
    seq!['"', '\\', 'u', h(v / 4096), h((v / 256) % 16), h((v / 16) % 16), h(v % 16), '"']
}

proof fn lemma_hex_upper(d: nat)
    requires
        d < 16,
    ensures
        is_hex(hex_upper(d)),
        hex_value(hex_upper(d)) == d,
{
}

/// A `\u` escape of four hex digits, upper or lower case, decodes to the
/// character of that code, for every character below U+10000 (none of them
/// a surrogate).
#[verifier::spinoff_prover]
pub proof fn unicode_escapes_decode(c: char, upper: bool)
    requires
        (c as u32) < 0x10000,
    ensures
        parse_model(unicode_literal(c, upper)) == Ok::<JsonValue, crate::json::ErrorModel>(JsonValue::Str(seq![c])),
{
    let v = c as nat;
    let q = unicode_literal(c, upper);
    let d0 = v / 4096;
    let d1 = (v / 256) % 16;
    let d2 = (v / 16) % 16;
    let d3 = v % 16;
    assert(d0 < 16);
    if upper {
        lemma_hex_upper(d0);
        lemma_hex_upper(d1);
        lemma_hex_upper(d2);
        lemma_hex_upper(d3);
    } else {
        lemma_hex_lower(d0);
        lemma_hex_lower(d1);
        lemma_hex_lower(d2);
        lemma_hex_lower(d3);
    }
    assert(hex_value(q[3]) == d0 && hex_value(q[4]) == d1 && hex_value(q[5]) == d2 && hex_value(q[6]) == d3);
    assert(d0 * 4096 + d1 * 256 + d2 * 16 + d3 == v) by (nonlinear_arith)
        requires
            d0 == v / 4096,
            d1 == (v / 256) % 16,
            d2 == (v / 16) % 16,
            d3 == v % 16,
            v < 0x10000,
    ;
    assert(!(0xD800 <= v <= 0xDFFF));
    assert(crate::json::hex4(q, 3) == Ok::<(nat, int), (int, Seq<char>)>((v, 7)));
    vstd::utf8::char_u32_cast(c, c as u32);
    assert((v as char) == c);
    assert(crate::json::unicode_escape(q, 3) == Ok::<(char, int), (int, Seq<char>)>((c, 7)));
    assert(crate::json::simple_escape('u') is None);
    assert(string_rest(q, 0, 7, seq![c]) == Ok::<(Seq<char>, int), (int, Seq<char>)>((seq![c], 8)));
    assert(Seq::<char>::empty().push(c) =~= seq![c]);
    assert(string_rest(q, 0, 1, Seq::empty()) == Ok::<(Seq<char>, int), (int, Seq<char>)>((seq![c], 8)));
    assert(skip_ws(q, 0) == 0);
    assert(value(q, 0) == Ok::<(JsonValue, int), (int, Seq<char>)>((JsonValue::Str(seq![c]), 8)));
    assert(skip_ws(q, 8) == 8);
}

/// The four hex digits of `n < 0x10000`, in upper or lower case.
pub open spec fn hex4_text(n: nat, upper: bool) -> Seq<char> {
    let h = |d: nat| if upper { hex_upper(d) } else { hex_lower(d) };
    seq![h(n / 4096), h((n / 256) % 16), h((n / 16) % 16), h(n % 16)]
}

proof fn lemma_hex4_text(q: Seq<char>, i: int, n: nat, upper: bool)
    requires
        n < 0x10000,
        0 <= i,
        i + 4 <= q.len(),
        q[i] == hex4_text(n, upper)[0],
        q[i + 1] == hex4_text(n, upper)[1],
        q[i + 2] == hex4_text(n, upper)[2],
        q[i + 3] == hex4_text(n, upper)[3],
    ensures
        crate::json::hex4(q, i) == Ok::<(nat, int), (int, Seq<char>)>((n, i + 4)),
{
    let d0 = n / 4096;
    let d1 = (n / 256) % 16;
    let d2 = (n / 16) % 16;
    let d3 = n % 16;
    if upper {
        lemma_hex_upper(d0);
        lemma_hex_upper(d1);
        lemma_hex_upper(d2);
        lemma_hex_upper(d3);
    } else {
        lemma_hex_lower(d0);
        lemma_hex_lower(d1);
        lemma_hex_lower(d2);
        lemma_hex_lower(d3);
    }
    assert(d0 * 4096 + d1 * 256 + d2 * 16 + d3 == n) by (nonlinear_arith)
        requires
            d0 == n / 4096,
            d1 == (n / 256) % 16,
            d2 == (n / 16) % 16,
            d3 == n % 16,
            n < 0x10000,
    ;
}

/// The string literal that writes `c`, a character from U+10000 on, as a
/// UTF-16 surrogate pair of `\u` escapes.
pub open spec fn surrogate_literal(c: char, upper: bool) -> Seq<char> {
    let w = (c as nat - 0x10000) as nat;
    seq!['"', '\\', 'u'] + hex4_text(0xD800 + w / 1024, upper) + seq!['\\', 'u'] + hex4_text(
        0xDC00 + w % 1024,
        upper,
    ) + seq!['"']
}

/// A surrogate pair of `\u` escapes decodes to the one character it
/// encodes, for every character above U+FFFF.
#[verifier::spinoff_prover]
pub proof fn surrogate_pairs_decode(c: char, upper: bool)
    requires
        (c as u32) >= 0x10000,
    ensures
        parse_model(surrogate_literal(c, upper)) == Ok::<JsonValue, crate::json::ErrorModel>(JsonValue::Str(seq![c])),
{
    let v = c as nat;
    assert(v <= 0x10FFFF);
    let w = (v - 0x10000) as nat;
    let hi = 0xD800 + w / 1024;
    let lo = 0xDC00 + w % 1024;
    assert(w / 1024 < 1024 && w % 1024 < 1024) by (nonlinear_arith)
        requires
            w < 0x100000,
    ;
    let q = surrogate_literal(c, upper);
    let a = hex4_text(hi as nat, upper);
    let b = hex4_text(lo as nat, upper);
    assert(q =~= seq!['"', '\\', 'u'] + a + seq!['\\', 'u'] + b + seq!['"']);
    assert(q.len() == 14);
    lemma_hex4_text(q, 3, hi as nat, upper);
    assert(q[7] == '\\' && q[8] == 'u');
    lemma_hex4_text(q, 9, lo as nat, upper);
    assert(0x10000 + (hi - 0xD800) * 1024 + (lo - 0xDC00) == v) by (nonlinear_arith)
        requires
            hi == 0xD800 + w / 1024,
            lo == 0xDC00 + w % 1024,
            w == v - 0x10000,
            v >= 0x10000,
    ;
    vstd::utf8::char_u32_cast(c, c as u32);
    assert(crate::json::unicode_escape(q, 3) == Ok::<(char, int), (int, Seq<char>)>((c, 13)));
    assert(crate::json::simple_escape('u') is None);
    assert(string_rest(q, 0, 13, seq![c]) == Ok::<(Seq<char>, int), (int, Seq<char>)>((seq![c], 14)));
    assert(Seq::<char>::empty().push(c) =~= seq![c]);
    assert(string_rest(q, 0, 1, Seq::empty()) == Ok::<(Seq<char>, int), (int, Seq<char>)>((seq![c], 14)));
    assert(skip_ws(q, 0) == 0);
    assert(value(q, 0) == Ok::<(JsonValue, int), (int, Seq<char>)>((JsonValue::Str(seq![c]), 14)));
    assert(skip_ws(q, 14) == 14);
}

/// Writing a string as a JSON literal and reading it back gives the string
/// itself.
pub proof fn json_string_round_trips(x: Seq<char>)
    ensures
        parse_model(quoted(x)) == Ok::<JsonValue, crate::json::ErrorModel>(JsonValue::Str(x)),
        value(quoted(x), 0) == Ok::<(JsonValue, int), (int, Seq<char>)>((JsonValue::Str(x), quoted(x).len() as int)),
        string(quoted(x), 0) == Ok::<(Seq<char>, int), (int, Seq<char>)>((x, quoted(x).len() as int)),
{
    let q = quoted(x);
    lemma_string_body(x, 0);
    assert(x.take(0) =~= Seq::<char>::empty());
    assert(escaped(Seq::<char>::empty()) =~= Seq::<char>::empty());
    assert(string(q, 0) == Ok::<(Seq<char>, int), (int, Seq<char>)>((x, q.len() as int)));
    assert(skip_ws(q, 0) == 0);
    assert(value(q, 0) == Ok::<(JsonValue, int), (int, Seq<char>)>((JsonValue::Str(x), q.len() as int)));
    assert(skip_ws(q, q.len() as int) == q.len());
}


// --- lines and indentation -------------------------------------------------

/// The first position at or after `k` that holds a `\n`, or the length.
pub open spec fn next_newline(t: Seq<char>, k: int) -> int
    decreases t.len() - k,
{
    if k < 0 || k >= t.len() || t[k] == '\n' {
        k
    } else {
        next_newline(t, k + 1)
    }
}

/// A line without the `\r` of a `\r\n` ending.
pub open spec fn strip_cr(l: Seq<char>) -> Seq<char> {
    if l.len() > 0 && l.last() == '\r' {
        l.drop_last()
    } else {
        l
    }
}

/// The lines of `t` from position `k` on, as `str::lines` gives them: split
/// at each `\n`, a `\r` right before the `\n` belonging to the line ending,
/// and no empty line after a final line ending.
pub open spec fn lines_from(t: Seq<char>, k: int) -> Seq<Seq<char>>
    decreases t.len() - k,
{
    if k < 0 || k >= t.len() {
        Seq::empty()
    } else {
        let j = next_newline(t, k);
        proof {
            lemma_next_newline(t, k);
        }
        if j < t.len() {
            seq![strip_cr(t.subrange(k, j))] + lines_from(t, j + 1)
        } else {
            seq![t.subrange(k, j)]
        }
    }
}

/// Every line of `ls` preceded by a line break and two spaces.
pub open spec fn continued(ls: Seq<Seq<char>>) -> Seq<char>
    decreases ls.len(),
{
    if ls.len() == 0 {
        Seq::empty()
    } else {
        "\n  "@ + ls[0] + continued(ls.drop_first())
    }
}

/// `t` with every line after the first indented by two spaces.
pub open spec fn indented(t: Seq<char>) -> Seq<char> {
    let ls = lines_from(t, 0);
    if ls.len() == 0 {
        Seq::empty()
    } else {
        ls[0] + continued(ls.drop_first())
    }
}

pub proof fn lemma_next_newline(t: Seq<char>, k: int)
    requires
        0 <= k <= t.len(),
    ensures
        k <= next_newline(t, k) <= t.len(),
        next_newline(t, k) < t.len() ==> t[next_newline(t, k)] == '\n',
        forall|m: int| k <= m < next_newline(t, k) ==> t[m] != '\n',
    decreases t.len() - k,
{
    if k < t.len() && t[k] != '\n' {
        lemma_next_newline(t, k + 1);
    }
}

/// Appends `t[from..to]` to `out`.
fn push_range(out: &mut String, t: &Vec<char>, from: usize, to: usize)
    requires
        from <= to <= t@.len(),
    ensures
        final(out)@ == old(out)@ + t@.subrange(from as int, to as int),
{
    let mut i = from;
    while i < to
        invariant
            from <= i <= to <= t@.len(),
            out@ == old(out)@ + t@.subrange(from as int, i as int),
        decreases to - i,
    {
        push_char(out, t[i]);
        i = i + 1;
        assert(out@ =~= old(out)@ + t@.subrange(from as int, i as int));
    }
}

/// The end of the line that starts at `k`, and the end of its text once a
/// `\r` before the `\n` is left out.
fn line_bounds(t: &Vec<char>, k: usize) -> (r: (usize, usize))
    requires
        k < t@.len(),
    ensures
        r.0 == next_newline(t@, k as int),
        k <= r.1 <= r.0 <= t@.len(),
        r.0 < t@.len() ==> t@.subrange(k as int, r.1 as int) == strip_cr(t@.subrange(k as int, r.0 as int)),
        r.0 == t@.len() ==> r.1 == r.0,
{
    proof {
        lemma_next_newline(t@, k as int);
    }
    let mut j = k;
    while j < t.len() && t[j] != '\n'
        invariant
            k <= j <= t@.len(),
            next_newline(t@, j as int) == next_newline(t@, k as int),
        decreases t@.len() - j,
    {
        j = j + 1;
    }
    if j < t.len() && j > k && t[j - 1] == '\r' {
        assert(t@.subrange(k as int, j - 1) =~= t@.subrange(k as int, j as int).drop_last());
        (j, j - 1)
    } else {
        (j, j)
    }
}

/// Indents every line after the first by two spaces, so a multi-line nested
/// object or array lines up under the key or bracket that introduces it.
pub fn indent_continuation(text: &str) -> (r: String)
    ensures
        r@ == indented(text@),
{
    let t = crate::text::chars_of(text);
    let mut out = String::new();
    if t.len() == 0 {
        return out;
    }
    let (j, e) = line_bounds(&t, 0);
    push_range(&mut out, &t, 0, e);
    let mut k: usize = if j < t.len() {
        j + 1
    } else {
        j
    };
    proof {
        lemma_next_newline(t@, 0);
        assert(lines_from(t@, 0)[0] == t@.subrange(0, e as int));
        assert(lines_from(t@, 0).drop_first() =~= lines_from(t@, k as int));
    }
    while k < t.len()
        invariant
            0 < k <= t@.len(),
            t@ == text@,
            out@ + continued(lines_from(t@, k as int)) == indented(text@),
        decreases t@.len() - k,
    {
        let ghost before = out@;
        let (j, e) = line_bounds(&t, k);
        proof {
            lemma_next_newline(t@, k as int);
        }
        push_str(&mut out, "\n  ");
        push_range(&mut out, &t, k, e);
        let next: usize = if j < t.len() {
            j + 1
        } else {
            j
        };
        proof {
            let ls = lines_from(t@, k as int);
            assert(ls[0] == t@.subrange(k as int, e as int));
            assert(ls.drop_first() =~= lines_from(t@, next as int));
            assert(continued(ls) == "\n  "@ + ls[0] + continued(ls.drop_first()));
            assert(out@ =~= before + "\n  "@ + ls[0]);
            assert(out@ + continued(lines_from(t@, next as int)) =~= before + continued(ls));
        }
        k = next;
    }
    assert(lines_from(t@, k as int) =~= Seq::<Seq<char>>::empty());
    assert(out@ + Seq::<char>::empty() =~= out@);
    out
}


// --- objects and arrays ----------------------------------------------------

/// One member line of an object: the quoted key, the value indented under
/// it, and a comma unless it is the last member.
pub open spec fn member_line(k: Seq<char>, v: Seq<char>, last: bool) -> Seq<char> {
    "  "@ + quoted(k) + ": "@ + indented(v) + (if last {
        Seq::empty()
    } else {
        ","@
    }) + "\n"@
}

pub open spec fn member_lines(fields: Seq<(Seq<char>, Seq<char>)>) -> Seq<char>
    decreases fields.len(),
{
    if fields.len() == 0 {
        Seq::empty()
    } else {
        member_line(fields[0].0, fields[0].1, fields.len() == 1) + member_lines(fields.drop_first())
    }
}

/// A JSON object with one member per line, in the order given.
pub open spec fn object_text(fields: Seq<(Seq<char>, Seq<char>)>) -> Seq<char> {
    if fields.len() == 0 {
        "{}"@
    } else {
        "{\n"@ + member_lines(fields) + "}"@
    }
}

/// The text of each key and value.
pub open spec fn pair_views(fields: Seq<(String, String)>) -> Seq<(Seq<char>, Seq<char>)> {
    Seq::new(fields.len(), |i: int| (fields[i].0@, fields[i].1@))
}

/// One element line of an array: the element indented, and a comma unless
/// it is the last element.
pub open spec fn item_line(v: Seq<char>, last: bool) -> Seq<char> {
    "  "@ + indented(v) + (if last {
        Seq::empty()
    } else {
        ","@
    }) + "\n"@
}

pub open spec fn item_lines(items: Seq<Seq<char>>) -> Seq<char>
    decreases items.len(),
{
    if items.len() == 0 {
        Seq::empty()
    } else {
        item_line(items[0], items.len() == 1) + item_lines(items.drop_first())
    }
}

/// A JSON array with one element per line, in the order given.
pub open spec fn array_text(items: Seq<Seq<char>>) -> Seq<char> {
    if items.len() == 0 {
        "[]"@
    } else {
        "[\n"@ + item_lines(items) + "]"@
    }
}

/// The text of each string.
pub open spec fn text_views(items: Seq<String>) -> Seq<Seq<char>> {
    Seq::new(items.len(), |i: int| items[i]@)
}

/// Renders an ordered set of key/value pairs as a JSON object, with the
/// already-rendered `value` text indented to sit correctly under `key` no
/// matter how many lines it spans.
pub fn json_object(fields: Vec<(String, String)>) -> (r: String)
    ensures
        r@ == object_text(pair_views(fields@)),
{
    let ghost fv = pair_views(fields@);
    let mut out = String::new();
    if fields.len() == 0 {
        push_str(&mut out, "{}");
        return out;
    }
    push_str(&mut out, "{\n");
    let mut i: usize = 0;
    assert(fv.skip(0) =~= fv);
    while i < fields.len()
        invariant
            fv == pair_views(fields@),
            i <= fields@.len(),
            "{\n"@ + member_lines(fv) == out@ + member_lines(fv.skip(i as int)),
        decreases fields@.len() - i,
    {
        let ghost before = out@;
        push_str(&mut out, "  ");
        let key = json_string(fields[i].0.as_str());
        push_str(&mut out, key.as_str());
        push_str(&mut out, ": ");
        let value = indent_continuation(fields[i].1.as_str());
        push_str(&mut out, value.as_str());
        if i + 1 < fields.len() {
            push_str(&mut out, ",");
        }
        push_str(&mut out, "\n");
        proof {
            let rest = fv.skip(i as int);
            assert(rest.drop_first() =~= fv.skip(i + 1));
            assert(rest[0] == fv[i as int]);
            assert(out@ =~= before + member_line(fv[i as int].0, fv[i as int].1, rest.len() == 1));
        }
        i = i + 1;
    }
    assert(fv.skip(i as int) =~= Seq::<(Seq<char>, Seq<char>)>::empty());
    push_str(&mut out, "}");
    assert(out@ =~= "{\n"@ + member_lines(fv) + "}"@);
    out
}

/// Renders already-rendered items as a JSON array, one per line.
pub fn json_array(items: Vec<String>) -> (r: String)
    ensures
        r@ == array_text(text_views(items@)),
{
    let ghost iv = text_views(items@);
    let mut out = String::new();
    if items.len() == 0 {
        push_str(&mut out, "[]");
        return out;
    }
    push_str(&mut out, "[\n");
    let mut i: usize = 0;
    assert(iv.skip(0) =~= iv);
    while i < items.len()
        invariant
            iv == text_views(items@),
            i <= items@.len(),
            "[\n"@ + item_lines(iv) == out@ + item_lines(iv.skip(i as int)),
        decreases items@.len() - i,
    {
        let ghost before = out@;
        push_str(&mut out, "  ");
        let value = indent_continuation(items[i].as_str());
        push_str(&mut out, value.as_str());
        if i + 1 < items.len() {
            push_str(&mut out, ",");
        }
        push_str(&mut out, "\n");
        proof {
            let rest = iv.skip(i as int);
            assert(rest.drop_first() =~= iv.skip(i + 1));
            assert(rest[0] == iv[i as int]);
            assert(out@ =~= before + item_line(iv[i as int], rest.len() == 1));
        }
        i = i + 1;
    }
    assert(iv.skip(i as int) =~= Seq::<Seq<char>>::empty());
    push_str(&mut out, "]");
    assert(out@ =~= "[\n"@ + item_lines(iv) + "]"@);
    out
}

// --- counts ----------------------------------------------------------------

/// The first `upto` digits of `d` with the thousands separators among them:
/// a `,` goes before digit `i` (0-based, `i > 0`) when `d.len() - i`, the
/// number of digits from `i` to the end, is a multiple of three.
pub open spec fn grouped_prefix(d: Seq<char>, upto: int) -> Seq<char>
    decreases upto,
{
    if upto <= 0 {
        Seq::empty()
    } else {
        let i = upto - 1;
        grouped_prefix(d, i) + (if i > 0 && (d.len() - i) % 3 == 0 {
            seq![',']
        } else {
            Seq::empty()
        }) + seq![d[i]]
    }
}

/// The decimal digits of `n` with a thousands separator every three digits
/// from the right.
pub open spec fn grouped_decimal(n: nat) -> Seq<char> {
    grouped_prefix(decimal(n), decimal(n).len() as int)
}

/// The characters of `s` other than `,`.
pub open spec fn without_commas(s: Seq<char>) -> Seq<char> {
    s.filter(|c: char| c != ',')
}

proof fn lemma_grouped_prefix_digits(d: Seq<char>, upto: int)
    requires
        0 <= upto <= d.len(),
        forall|i: int| 0 <= i < d.len() ==> d[i] != ',',
    ensures
        without_commas(grouped_prefix(d, upto)) == d.take(upto),
    decreases upto,
{
    if upto > 0 {
        let i = upto - 1;
        lemma_grouped_prefix_digits(d, i);
        let sep: Seq<char> = if i > 0 && (d.len() - i) % 3 == 0 {
            seq![',']
        } else {
            Seq::empty()
        };
        let f = |c: char| c != ',';
        Seq::filter_distributes_over_add(grouped_prefix(d, i) + sep, seq![d[i]], f);
        Seq::filter_distributes_over_add(grouped_prefix(d, i), sep, f);
        assert(sep.filter(f) =~= Seq::<char>::empty()) by {
            reveal_with_fuel(Seq::filter, 2);
            assert(seq![','].drop_last() =~= Seq::<char>::empty());
        }
        assert(seq![d[i]].filter(f) =~= seq![d[i]]) by {
            reveal_with_fuel(Seq::filter, 2);
            assert(seq![d[i]].drop_last() =~= Seq::<char>::empty());
        }
        assert(d.take(upto) =~= d.take(i).push(d[i]));
    }
}

/// The separators are all a count gains: without its commas, a formatted
/// count is the plain decimal form of the number.
pub proof fn grouping_keeps_the_digits(n: nat)
    ensures
        without_commas(grouped_decimal(n)) == decimal(n),
{
    lemma_decimal_digits(n);
    lemma_grouped_prefix_digits(decimal(n), decimal(n).len() as int);
    assert(decimal(n).take(decimal(n).len() as int) =~= decimal(n));
}

proof fn lemma_decimal_digits(n: nat)
    ensures
        forall|i: int| 0 <= i < decimal(n).len() ==> '0' <= #[trigger] decimal(n)[i] <= '9',
    decreases n,
{
    if n >= 10 {
        lemma_decimal_digits(n / 10);
        assert forall|i: int| 0 <= i < decimal(n).len() implies '0' <= #[trigger] decimal(n)[i] <= '9' by {
            if i < decimal(n / 10).len() {
                assert(decimal(n)[i] == decimal(n / 10)[i]);
            }
        }
    }
}

/// Formats a count with `,` thousands separators, e.g. `1,234,567`.
pub fn format_count(n: u64) -> (r: String)
    ensures
        r@ == grouped_decimal(n as nat),
{
    let digits = decimal_string(n);
    let d = crate::text::chars_of(digits.as_str());
    let mut out = String::new();
    let mut i: usize = 0;
    while i < d.len()
        invariant
            i <= d@.len(),
            d@ == decimal(n as nat),
            out@ == grouped_prefix(d@, i as int),
        decreases d@.len() - i,
    {
        if i > 0 && (d.len() - i) % 3 == 0 {
            push_char(&mut out, ',');
        }
        push_char(&mut out, d[i]);
        i = i + 1;
        assert(out@ =~= grouped_prefix(d@, i as int));
    }
    out
}

} // verus!
