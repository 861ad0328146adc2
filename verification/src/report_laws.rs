//! The `--json` report reads back as JSON: the object and array layout of
//! `report`, however deeply nested and indented, parses to the object or
//! array of what its members parse to, and the stats report parses to an
//! object holding the label and the counts.

use vstd::prelude::*;
use crate::json::{
    JsonValue, is_ws, skip_ws, skip_digits, value, members, elements, object_at, array_at, string,
    number, literal, int_part_end, fraction_end, exponent_end, has_at, digit_at, document,
    parse_model, lemma_skip_ws, lemma_skip_digits, lemma_value_advances,
    lemma_string_rest_advances,
};
use crate::stats::{Stats, KeyStat, FieldStat, ParseIssue, JsonType, type_label, ranked, value_order};
use crate::summary::{
    flag, rate_as, tally_object, tally_json_as, key_object, key_json_as, top_array, top_json_as,
    field_object, field_json_as, issue_object, length_object, issues_array, stats_object,
    stats_json_as, Percentiles, count_ranked, key_counts,
};
use crate::hist::Histogram;
use crate::text::{is_digit, decimal, digit_char, digit_value, digits_value, all_digits, decimal_i64};
use crate::json_laws::{sits_in, lemma_value_in, lemma_members_in, lemma_elements_in, lemma_string_in};
use crate::report::{
    escape_char, escaped, quoted, next_newline, lines_from, strip_cr, continued, indented,
    lemma_next_newline, member_line, member_lines, object_text, item_line, item_lines, array_text,
};

verus! {

/// `n` spaces.
pub open spec fn spaces(n: nat) -> Seq<char> {
    Seq::new(n, |i: int| ' ')
}

/// `x` with every line break followed by `2 * n` more spaces: the text one
/// level of nesting deeper, `n` times over.
pub open spec fn ind(x: Seq<char>, n: nat) -> Seq<char>
    decreases x.len(),
{
    if x.len() == 0 {
        Seq::empty()
    } else {
        ind(x.drop_last(), n) + if x.last() == '\n' {
            seq!['\n'] + spaces(2 * n)
        } else {
            seq![x.last()]
        }
    }
}

/// No character of `x` is a line break or a carriage return.
pub open spec fn one_line(x: Seq<char>) -> bool {
    forall|i: int| 0 <= i < x.len() ==> #[trigger] x[i] != '\n' && x[i] != '\r'
}

proof fn lemma_ind_newline(n: nat)
    ensures
        ind(seq!['\n'], n) == seq!['\n'] + spaces(2 * n),
{
    let x = seq!['\n'];
    assert(x.drop_last() =~= Seq::<char>::empty());
    assert(ind(Seq::<char>::empty(), n) == Seq::<char>::empty());
    assert(x.last() == '\n');
    assert(Seq::<char>::empty() + (seq!['\n'] + spaces(2 * n)) =~= seq!['\n'] + spaces(2 * n));
}

proof fn lemma_ind_concat(x: Seq<char>, y: Seq<char>, n: nat)
    ensures
        ind(x + y, n) == ind(x, n) + ind(y, n),
    decreases y.len(),
{
    if y.len() == 0 {
        assert(x + y =~= x);
        assert(ind(x, n) + ind(y, n) =~= ind(x, n));
    } else {
        assert((x + y).drop_last() =~= x + y.drop_last());
        assert((x + y).last() == y.last());
        lemma_ind_concat(x, y.drop_last(), n);
        assert(ind(x + y, n) =~= ind(x, n) + ind(y, n));
    }
}

proof fn lemma_ind_one_line(x: Seq<char>, n: nat)
    requires
        forall|i: int| 0 <= i < x.len() ==> #[trigger] x[i] != '\n',
    ensures
        ind(x, n) == x,
    decreases x.len(),
{
    if x.len() > 0 {
        lemma_ind_one_line(x.drop_last(), n);
        assert(x.drop_last().push(x.last()) =~= x);
        assert(x[x.len() - 1] != '\n');
    }
}

proof fn lemma_ind_compose(x: Seq<char>, a: nat, b: nat)
    ensures
        ind(ind(x, a), b) == ind(x, a + b),
    decreases x.len(),
{
    if x.len() > 0 {
        lemma_ind_compose(x.drop_last(), a, b);
        let piece = if x.last() == '\n' {
            seq!['\n'] + spaces(2 * a)
        } else {
            seq![x.last()]
        };
        lemma_ind_concat(ind(x.drop_last(), a), piece, b);
        if x.last() == '\n' {
            lemma_ind_concat(seq!['\n'], spaces(2 * a), b);
            lemma_ind_one_line(spaces(2 * a), b);
            lemma_ind_newline(b);
            assert(seq!['\n'] + spaces(2 * b) + spaces(2 * a) =~= seq!['\n'] + spaces(2 * (a + b)));
        } else {
            lemma_ind_one_line(piece, b);
        }
    }
}

proof fn lemma_ind_preserves_no_cr(x: Seq<char>, n: nat)
    requires
        forall|i: int| 0 <= i < x.len() ==> #[trigger] x[i] != '\r',
    ensures
        forall|i: int| 0 <= i < ind(x, n).len() ==> #[trigger] ind(x, n)[i] != '\r',
        x.len() > 0 ==> ind(x, n).len() > 0 && (x.last() != '\n' ==> ind(x, n).last() == x.last()),
    decreases x.len(),
{
    if x.len() > 0 {
        lemma_ind_preserves_no_cr(x.drop_last(), n);
        let piece = if x.last() == '\n' {
            seq!['\n'] + spaces(2 * n)
        } else {
            seq![x.last()]
        };
        assert(ind(x, n) == ind(x.drop_last(), n) + piece);
        assert forall|i: int| 0 <= i < ind(x, n).len() implies #[trigger] ind(x, n)[i] != '\r' by {
            if i >= ind(x.drop_last(), n).len() {
                assert(ind(x, n)[i] == piece[i - ind(x.drop_last(), n).len()]);
            }
        }
    }
}

/// The indentation `indented` gives is one level of `ind`.
proof fn lemma_indented_lines(t: Seq<char>, k: int)
    requires
        0 <= k <= t.len(),
        forall|i: int| 0 <= i < t.len() ==> #[trigger] t[i] != '\r',
        t.len() > 0 ==> t.last() != '\n',
    ensures
        ({
            let ls = lines_from(t, k);
            let joined = if ls.len() == 0 {
                Seq::<char>::empty()
            } else {
                ls[0] + continued(ls.drop_first())
            };
            joined == ind(t.subrange(k, t.len() as int), 1)
        }),
    decreases t.len() - k,
{
    if k < t.len() {
        lemma_next_newline(t, k);
        let j = next_newline(t, k);
        let head = t.subrange(k, j);
        lemma_ind_one_line(head, 1);
        if j < t.len() {
            assert(j + 1 < t.len());
            lemma_indented_lines(t, j + 1);
            assert(head.len() == 0 || head.last() != '\r');
            assert(strip_cr(head) == head);
            let rest = lines_from(t, j + 1);
            assert(rest.len() > 0);
            let ls = lines_from(t, k);
            assert(ls == seq![head] + rest);
            assert(ls.drop_first() =~= rest);
            assert(continued(rest) == "\n  "@ + rest[0] + continued(rest.drop_first()));
            assert(t.subrange(k, t.len() as int) =~= head + seq!['\n'] + t.subrange(j + 1, t.len() as int));
            lemma_ind_concat(head + seq!['\n'], t.subrange(j + 1, t.len() as int), 1);
            lemma_ind_concat(head, seq!['\n'], 1);
            lemma_ind_newline(1);
            reveal_strlit("\n  ");
            assert(ind(seq!['\n'], 1) =~= "\n  "@);
            assert(ls[0] + continued(ls.drop_first()) =~= ind(t.subrange(k, t.len() as int), 1));
        } else {
            assert(lines_from(t, k) == seq![head]);
            assert(continued(Seq::<Seq<char>>::empty()) == Seq::<char>::empty());
            assert(head + Seq::<char>::empty() =~= head);
        }
    } else {
        assert(t.subrange(k, t.len() as int) =~= Seq::<char>::empty());
    }
}

proof fn lemma_indented_is_ind(v: Seq<char>)
    requires
        forall|i: int| 0 <= i < v.len() ==> #[trigger] v[i] != '\r',
        v.len() > 0 ==> v.last() != '\n',
    ensures
        indented(v) == ind(v, 1),
{
    lemma_indented_lines(v, 0);
    assert(v.subrange(0, v.len() as int) =~= v);
}

/// `x`, indented to any depth, reads as the value `m` and nothing more: it
/// starts with no whitespace, ends with no line break, holds no carriage
/// return, and the grammar reads `m` from its first to its last character.
pub open spec fn reads_as(x: Seq<char>, m: JsonValue) -> bool {
    &&& x.len() > 0
    &&& !is_ws(x[0])
    &&& x.last() != '\n'
    &&& forall|i: int| 0 <= i < x.len() ==> #[trigger] x[i] != '\r'
    &&& forall|n: nat|
        #[trigger] value(ind(x, n), 0) == Ok::<(JsonValue, int), (int, Seq<char>)>((m, ind(x, n).len() as int))
}

/// `x` reads as some value.
pub open spec fn reads_as_some(x: Seq<char>) -> bool {
    exists|m: JsonValue| reads_as(x, m)
}

/// What `x` reads as.
pub open spec fn model_of(x: Seq<char>) -> JsonValue {
    choose|m: JsonValue| reads_as(x, m)
}

/// The members an object of the given keys and value texts reads as.
pub open spec fn members_read(fields: Seq<(Seq<char>, Seq<char>)>) -> Seq<(Seq<char>, JsonValue)> {
    Seq::new(fields.len(), |i: int| (fields[i].0, model_of(fields[i].1)))
}

/// The elements an array of the given item texts reads as.
pub open spec fn items_read(items: Seq<Seq<char>>) -> Seq<JsonValue> {
    Seq::new(items.len(), |i: int| model_of(items[i]))
}

proof fn lemma_ws_stretch(t: Seq<char>, j: int, d: int)
    requires
        0 <= j <= d <= t.len(),
        forall|i: int| j <= i < d ==> is_ws(#[trigger] t[i]),
    ensures
        skip_ws(t, j) == skip_ws(t, d),
    decreases d - j,
{
    if j < d {
        lemma_ws_stretch(t, j + 1, d);
    }
}

proof fn lemma_members_same_start(s: Seq<char>, q: int, r: int, acc: Seq<(Seq<char>, JsonValue)>)
    requires
        0 <= q <= r <= s.len(),
        skip_ws(s, q) == skip_ws(s, r),
    ensures
        members(s, q, acc) == members(s, r, acc),
{
    lemma_skip_ws(s, r);
    let p = skip_ws(s, r);
    if p < s.len() && s[p] == '"' {
        lemma_string_rest_advances(s, p, p + 1, Seq::empty());
        if let Ok((k, q1)) = string(s, p) {
            lemma_skip_ws(s, q1);
            let q2 = skip_ws(s, q1);
            if q2 < s.len() {
                lemma_value_advances(s, q2 + 1);
                if let Ok((v, q3)) = value(s, q2 + 1) {
                    lemma_skip_ws(s, q3);
                }
            }
        }
    }
}

proof fn lemma_elements_same_start(s: Seq<char>, q: int, r: int, acc: Seq<JsonValue>)
    requires
        0 <= q <= r <= s.len(),
        skip_ws(s, q) == skip_ws(s, r),
    ensures
        elements(s, q, acc) == elements(s, r, acc),
{
    assert(value(s, q) == value(s, r));
    lemma_value_advances(s, r);
    if let Ok((v, q1)) = value(s, r) {
        lemma_skip_ws(s, q1);
    }
}

proof fn lemma_escaped_one_line(x: Seq<char>)
    ensures
        one_line(escaped(x)),
    decreases x.len(),
{
    if x.len() > 0 {
        lemma_escaped_one_line(x.drop_last());
        let e = escape_char(x.last());
        assert(one_line(e));
        let a = escaped(x.drop_last());
        assert forall|i: int| 0 <= i < escaped(x).len() implies #[trigger] escaped(x)[i] != '\n' && escaped(x)[i]
            != '\r' by {
            if i < a.len() {
                assert(escaped(x)[i] == a[i]);
            } else {
                assert(escaped(x)[i] == e[i - a.len()]);
            }
        }
    }
}

proof fn lemma_quoted_one_line(x: Seq<char>)
    ensures
        one_line(quoted(x)),
        quoted(x).len() >= 2,
        quoted(x)[0] == '"',
{
    lemma_escaped_one_line(x);
    let q = quoted(x);
    assert forall|i: int| 0 <= i < q.len() implies #[trigger] q[i] != '\n' && q[i] != '\r' by {
        if 1 <= i < q.len() - 1 {
            assert(q[i] == escaped(x)[i - 1]);
        }
    }
}

proof fn lemma_one_line_reads(x: Seq<char>, m: JsonValue)
    requires
        one_line(x),
        x.len() > 0,
        !is_ws(x[0]),
        value(x, 0) == Ok::<(JsonValue, int), (int, Seq<char>)>((m, x.len() as int)),
    ensures
        reads_as(x, m),
{
    assert forall|n: nat| #[trigger] value(ind(x, n), 0) == Ok::<(JsonValue, int), (int, Seq<char>)>(
        (m, ind(x, n).len() as int),
    ) by {
        lemma_ind_one_line(x, n);
    }
    assert(x[x.len() - 1] != '\n');
}

/// A string literal reads as the string.
pub proof fn quoted_reads(x: Seq<char>)
    ensures
        reads_as(quoted(x), JsonValue::Str(x)),
{
    crate::report::json_string_round_trips(x);
    lemma_quoted_one_line(x);
    lemma_one_line_reads(quoted(x), JsonValue::Str(x));
}

proof fn lemma_ind_first(x: Seq<char>, n: nat)
    requires
        x.len() > 0,
        x[0] != '\n',
    ensures
        ind(x, n).len() > 0,
        ind(x, n)[0] == x[0],
{
    lemma_ind_concat(seq![x[0]], x.drop_first(), n);
    assert(seq![x[0]] + x.drop_first() =~= x);
    lemma_ind_one_line(seq![x[0]], n);
}

/// What a member line looks like indented `n` levels.
pub open spec fn member_line_at(k: Seq<char>, v: Seq<char>, last: bool, n: nat) -> Seq<char> {
    "  "@ + quoted(k) + ": "@ + ind(v, n + 1) + (if last {
        Seq::empty()
    } else {
        ","@
    }) + seq!['\n'] + spaces(2 * n)
}

proof fn lemma_member_line_ind(k: Seq<char>, v: Seq<char>, last: bool, n: nat)
    requires
        forall|i: int| 0 <= i < v.len() ==> #[trigger] v[i] != '\r',
        v.len() > 0,
        v.last() != '\n',
    ensures
        ind(member_line(k, v, last), n) == member_line_at(k, v, last, n),
{
    reveal_strlit("  ");
    reveal_strlit(": ");
    reveal_strlit(",");
    reveal_strlit("\n");
    lemma_indented_is_ind(v);
    lemma_ind_compose(v, 1, n);
    lemma_quoted_one_line(k);
    let comma: Seq<char> = if last {
        Seq::empty()
    } else {
        ","@
    };
    let a = "  "@ + quoted(k) + ": "@;
    lemma_ind_one_line(a, n);
    lemma_ind_one_line(comma, n);
    lemma_ind_concat(a, ind(v, 1), n);
    lemma_ind_concat(a + ind(v, 1), comma, n);
    lemma_ind_concat(a + ind(v, 1) + comma, "\n"@, n);
    lemma_ind_newline(n);
    assert("\n"@ =~= seq!['\n']);
    assert(1 + n == n + 1);
}

/// A member line indented `n` levels, then the closing brace or the lines
/// of the members after it.
pub open spec fn members_rest(fields: Seq<(Seq<char>, Seq<char>)>, n: nat) -> Seq<char> {
    ind(member_lines(fields), n) + "}"@
}

proof fn lemma_members_rest_split(fields: Seq<(Seq<char>, Seq<char>)>, n: nat)
    requires
        fields.len() > 0,
        forall|i: int| 0 <= i < fields.len() ==> reads_as_some(#[trigger] fields[i].1),
    ensures
        members_rest(fields, n) == member_line_at(fields[0].0, fields[0].1, fields.len() == 1, n)
            + members_rest(fields.drop_first(), n),
{
    assert(reads_as_some(fields[0].1));
    let m = choose|m: JsonValue| reads_as(fields[0].1, m);
    lemma_member_line_ind(fields[0].0, fields[0].1, fields.len() == 1, n);
    lemma_ind_concat(member_line(fields[0].0, fields[0].1, fields.len() == 1), member_lines(fields.drop_first()), n);
}

/// No character of `x` is a carriage return.
pub open spec fn no_cr(x: Seq<char>) -> bool {
    forall|i: int| 0 <= i < x.len() ==> #[trigger] x[i] != '\r'
}

proof fn lemma_no_cr_concat(a: Seq<char>, b: Seq<char>)
    requires
        no_cr(a),
        no_cr(b),
    ensures
        no_cr(a + b),
{
    assert forall|i: int| 0 <= i < (a + b).len() implies #[trigger] (a + b)[i] != '\r' by {
        if i < a.len() {
            assert((a + b)[i] == a[i]);
        } else {
            assert((a + b)[i] == b[i - a.len()]);
        }
    }
}

proof fn lemma_member_lines_no_cr(fields: Seq<(Seq<char>, Seq<char>)>)
    requires
        forall|i: int| 0 <= i < fields.len() ==> reads_as_some(#[trigger] fields[i].1),
    ensures
        no_cr(member_lines(fields)),
    decreases fields.len(),
{
    reveal_strlit("  ");
    reveal_strlit(": ");
    reveal_strlit(",");
    reveal_strlit("\n");
    if fields.len() > 0 {
        let rest = fields.drop_first();
        assert forall|i: int| 0 <= i < rest.len() implies reads_as_some(#[trigger] rest[i].1) by {
            assert(rest[i] == fields[i + 1]);
        }
        lemma_member_lines_no_cr(rest);
        assert(reads_as_some(fields[0].1));
        let v = fields[0].1;
        let m = choose|m: JsonValue| reads_as(v, m);
        lemma_indented_is_ind(v);
        lemma_ind_preserves_no_cr(v, 1);
        lemma_quoted_one_line(fields[0].0);
        let comma: Seq<char> = if fields.len() == 1 {
            Seq::empty()
        } else {
            ","@
        };
        let a = "  "@ + quoted(fields[0].0) + ": "@;
        assert(no_cr(a)) by {
            assert forall|i: int| 0 <= i < a.len() implies #[trigger] a[i] != '\r' by {
                if 2 <= i < 2 + quoted(fields[0].0).len() {
                    assert(a[i] == quoted(fields[0].0)[i - 2]);
                }
            }
        }
        assert(no_cr(indented(v)));
        lemma_no_cr_concat(a, indented(v));
        lemma_no_cr_concat(a + indented(v), comma);
        lemma_no_cr_concat(a + indented(v) + comma, "\n"@);
        lemma_no_cr_concat(member_line(fields[0].0, v, fields.len() == 1), member_lines(rest));
    }
}

proof fn lemma_char_at(x: Seq<char>, t: Seq<char>, d: int, i: int)
    requires
        sits_in(x, t, d),
        0 <= i < x.len(),
    ensures
        t[d + i] == x[i],
        d + x.len() <= t.len(),
        0 <= d,
{
    reveal(sits_in);
}

/// One member read from the start of `s`: two spaces, the key `q`, `: `,
/// the value text `c` ending at `e`, then either a comma and blanks up to
/// `f`, or blanks up to the closing brace at `f`.
proof fn lemma_member_step(
    s: Seq<char>,
    q: Seq<char>,
    c: Seq<char>,
    k: Seq<char>,
    m: JsonValue,
    e: int,
    f: int,
    last: bool,
    acc: Seq<(Seq<char>, JsonValue)>,
)
    requires
        q.len() >= 2,
        c.len() > 0,
        e == q.len() + 4 + c.len(),
        e < f <= s.len(),
        s[0] == ' ' && s[1] == ' ',
        q[0] == '"',
        sits_in(q, s, 2),
        string(q, 0) == Ok::<(Seq<char>, int), (int, Seq<char>)>((k, q.len() as int)),
        s[q.len() + 2int] == ':' && s[q.len() + 3int] == ' ',
        sits_in(c, s, q.len() + 4int),
        value(c, 0) == Ok::<(JsonValue, int), (int, Seq<char>)>((m, c.len() as int)),
        last ==> f < s.len() && s[f] == '}' && forall|i: int| e <= i < f ==> is_ws(#[trigger] s[i]),
        !last ==> s[e] == ',' && forall|i: int| e + 1 <= i < f ==> is_ws(#[trigger] s[i]),
    ensures
        last ==> members(s, 0, acc) == Ok::<(JsonValue, int), (int, Seq<char>)>(
            (JsonValue::Object(acc.push((k, m))), f + 1),
        ),
        !last ==> members(s, 0, acc) == members(s, f, acc.push((k, m))),
{
    let ql = q.len() as int;
    lemma_char_at(q, s, 2, 0);
    lemma_string_in(q, s, 2, 0);
    lemma_char_at(c, s, ql + 4, 0);
    assert(!crate::json_laws::continues_number(s[e]));
    lemma_value_in(c, s, ql + 4, 0);
    lemma_ws_stretch(s, 0, 2);
    assert(skip_ws(s, 2) == 2);
    assert(skip_ws(s, ql + 2) == ql + 2);
    lemma_ws_stretch(s, ql + 3, ql + 4);
    assert(value(s, ql + 3) == value(s, ql + 4));
    if !last {
        assert(skip_ws(s, e) == e);
        lemma_ws_stretch(s, e + 1, f);
        lemma_members_same_start(s, e + 1, f, acc.push((k, m)));
    } else {
        lemma_ws_stretch(s, e, f);
        assert(skip_ws(s, f) == f);
    }
}

/// Where the parts of a member line indented `n` levels sit, with `rest`
/// after it.
proof fn lemma_member_layout(k: Seq<char>, v: Seq<char>, last: bool, n: nat, rest: Seq<char>)
    ensures
        ({
            let q = quoted(k);
            let c_text = ind(v, n + 1);
            let l = member_line_at(k, v, last, n);
            let r = l + rest;
            let ql = q.len() as int;
            let e = ql + 4 + c_text.len();
            &&& r[0] == ' ' && r[1] == ' ' && r[2] == '"'
            &&& sits_in(q, r, 2)
            &&& r[ql + 2] == ':' && r[ql + 3] == ' '
            &&& sits_in(c_text, r, ql + 4)
            &&& e < l.len()
            &&& last ==> forall|i: int| e <= i < l.len() ==> is_ws(#[trigger] r[i])
            &&& !last ==> r[e] == ','
            &&& !last ==> forall|i: int| e + 1 <= i < l.len() ==> is_ws(#[trigger] r[i])
            &&& sits_in(rest, r, l.len() as int)
        }),
{
    reveal_strlit("  ");
    reveal_strlit(": ");
    reveal_strlit(",");
    lemma_quoted_one_line(k);
    let q = quoted(k);
    let c_text = ind(v, n + 1);
    let comma: Seq<char> = if last {
        Seq::empty()
    } else {
        ","@
    };
    let a = "  "@ + q + ": "@;
    let b = comma + seq!['\n'] + spaces(2 * n);
    let l = member_line_at(k, v, last, n);
    assert(l =~= a + c_text + b);
    let r = l + rest;
    let ql = q.len() as int;
    let c = ql + 4;
    let e = c + c_text.len();
    assert(r[0] == a[0] && r[1] == a[1] && r[2] == a[2]);
    assert(sits_in(q, r, 2)) by {
        reveal(sits_in);
        assert forall|i: int| 0 <= i < q.len() implies r[2 + i] == #[trigger] q[i] by {
            assert(r[2 + i] == a[2 + i]);
        }
    }
    assert(r[ql + 2] == a[ql + 2]);
    assert(r[ql + 3] == a[ql + 3]);
    assert(sits_in(c_text, r, c)) by {
        reveal(sits_in);
        assert forall|i: int| 0 <= i < c_text.len() implies r[c + i] == #[trigger] c_text[i] by {
            assert(r[c + i] == (a + c_text)[c + i]);
        }
    }
    assert forall|i: int| e <= i < l.len() implies #[trigger] r[i] == b[i - e] by {}
    assert forall|i: int| e <= i < l.len() && (last || i > e) implies is_ws(#[trigger] r[i]) by {
        assert(r[i] == b[i - e]);
        let z = i - e - comma.len();
        if z > 0 {
            assert(b[i - e] == spaces(2 * n)[z - 1]);
        }
    }
    assert(sits_in(rest, r, l.len() as int)) by {
        reveal(sits_in);
        assert forall|i: int| 0 <= i < rest.len() implies r[l.len() + i] == #[trigger] rest[i] by {}
    }
}

/// The member line of `k` and `v` indented `n` levels, read from its start
/// with `rest` after it: the last member closes the object at the brace
/// that starts `rest`; any other hands on to the member lines in `rest`.
proof fn lemma_member_parsed(
    k: Seq<char>,
    v: Seq<char>,
    last: bool,
    n: nat,
    rest: Seq<char>,
    m: JsonValue,
    acc: Seq<(Seq<char>, JsonValue)>,
)
    requires
        reads_as(v, m),
        last ==> rest.len() > 0 && rest[0] == '}',
    ensures
        ({
            let l = member_line_at(k, v, last, n);
            let r = l + rest;
            &&& sits_in(rest, r, l.len() as int)
            &&& last ==> members(r, 0, acc) == Ok::<(JsonValue, int), (int, Seq<char>)>(
                (JsonValue::Object(acc.push((k, m))), l.len() + 1int),
            )
            &&& !last ==> members(r, 0, acc) == members(r, l.len() as int, acc.push((k, m)))
        }),
{
    let q = quoted(k);
    crate::report::json_string_round_trips(k);
    lemma_quoted_one_line(k);
    let c_text = ind(v, n + 1);
    lemma_ind_first(v, n + 1);
    assert(value(c_text, 0) == Ok::<(JsonValue, int), (int, Seq<char>)>((m, c_text.len() as int)));
    let l = member_line_at(k, v, last, n);
    let r = l + rest;
    lemma_member_layout(k, v, last, n, rest);
    let e: int = q.len() + 4int + c_text.len();
    let f = l.len() as int;
    if last {
        assert(r[f] == rest[0]);
        lemma_member_step(r, q, c_text, k, m, e, f, last, acc);
    } else {
        lemma_member_step(r, q, c_text, k, m, e, f, last, acc);
    }
}

#[verifier::spinoff_prover]
proof fn lemma_members_read(fields: Seq<(Seq<char>, Seq<char>)>, n: nat, acc: Seq<(Seq<char>, JsonValue)>)
    requires
        fields.len() > 0,
        forall|i: int| 0 <= i < fields.len() ==> reads_as_some(#[trigger] fields[i].1),
    ensures
        members(members_rest(fields, n), 0, acc) == Ok::<(JsonValue, int), (int, Seq<char>)>(
            (JsonValue::Object(acc + members_read(fields)), members_rest(fields, n).len() as int),
        ),
    decreases fields.len(),
{
    lemma_members_rest_split(fields, n);
    let k = fields[0].0;
    let v = fields[0].1;
    let last = fields.len() == 1;
    assert(reads_as_some(v));
    let m = model_of(v);
    assert(reads_as(v, m));
    let rest = fields.drop_first();
    let rest2 = members_rest(rest, n);
    let l = member_line_at(k, v, last, n);
    if last {
        assert(rest2 =~= seq!['}']) by {
            reveal_strlit("}");
            assert(member_lines(rest) =~= Seq::<char>::empty());
            assert(ind(Seq::<char>::empty(), n) == Seq::<char>::empty());
        }
        lemma_member_parsed(k, v, last, n, rest2, m, acc);
        assert(members_read(fields) =~= seq![(k, m)]);
        assert(acc + members_read(fields) =~= acc.push((k, m)));
    } else {
        let acc2 = acc.push((k, m));
        assert forall|i: int| 0 <= i < rest.len() implies reads_as_some(#[trigger] rest[i].1) by {
            assert(rest[i] == fields[i + 1]);
        }
        lemma_member_parsed(k, v, last, n, rest2, m, acc);
        lemma_members_read(rest, n, acc2);
        lemma_members_in(rest2, l + rest2, l.len() as int, 0, acc2);
        assert(members_read(fields) =~= seq![(k, m)] + members_read(rest));
        assert(acc2 + members_read(rest) =~= acc + members_read(fields));
    }
}

/// An object or array opened at the start of `t`: the bracket, blanks up to
/// `h`, and from `h` on the member or element lines `r`.
proof fn lemma_container_open(t: Seq<char>, r: Seq<char>, h: int, open: char)
    requires
        2 <= h,
        sits_in(r, t, h),
        t.len() == h + r.len(),
        t[0] == open,
        !is_ws(open),
        forall|i: int| 1 <= i < h ==> is_ws(#[trigger] t[i]),
        r.len() > 2,
        r[0] == ' ' && r[1] == ' ' && !is_ws(r[2]),
    ensures
        skip_ws(t, 0) == 0,
        skip_ws(t, 1) == h + 2,
        skip_ws(t, h) == h + 2,
        t[h + 2] == r[2],
{
    lemma_char_at(r, t, h, 0);
    lemma_char_at(r, t, h, 1);
    lemma_char_at(r, t, h, 2);
    lemma_ws_stretch(t, 1, h);
    lemma_ws_stretch(t, h, h + 2);
    assert(skip_ws(t, h + 2) == h + 2);
}

proof fn lemma_object_from_lines(t: Seq<char>, r: Seq<char>, h: int, obj: JsonValue)
    requires
        2 <= h,
        sits_in(r, t, h),
        t.len() == h + r.len(),
        t[0] == '{',
        forall|i: int| 1 <= i < h ==> is_ws(#[trigger] t[i]),
        r.len() > 2,
        r[0] == ' ' && r[1] == ' ' && r[2] == '"',
        members(r, 0, Seq::empty()) == Ok::<(JsonValue, int), (int, Seq<char>)>((obj, r.len() as int)),
    ensures
        value(t, 0) == Ok::<(JsonValue, int), (int, Seq<char>)>((obj, t.len() as int)),
{
    lemma_container_open(t, r, h, '{');
    lemma_members_in(r, t, h, 0, Seq::empty());
    lemma_members_same_start(t, h, h + 2, Seq::empty());
}

#[verifier::spinoff_prover]
proof fn lemma_object_value(fields: Seq<(Seq<char>, Seq<char>)>, n: nat)
    requires
        forall|i: int| 0 <= i < fields.len() ==> reads_as_some(#[trigger] fields[i].1),
    ensures
        value(ind(object_text(fields), n), 0) == Ok::<(JsonValue, int), (int, Seq<char>)>(
            (JsonValue::Object(members_read(fields)), ind(object_text(fields), n).len() as int),
        ),
{
    reveal_strlit("{}");
    reveal_strlit("{\n");
    reveal_strlit("}");
    if fields.len() == 0 {
        assert(object_text(fields) == "{}"@);
        lemma_ind_one_line("{}"@, n);
        let t = "{}"@;
        assert(skip_ws(t, 0) == 0);
        assert(skip_ws(t, 1) == 1);
        assert(members_read(fields) =~= Seq::<(Seq<char>, JsonValue)>::empty());
    } else {
        let h_text = seq!['{'] + (seq!['\n'] + spaces(2 * n));
        assert("{\n"@ =~= seq!['{'] + seq!['\n']);
        lemma_ind_concat(seq!['{'], seq!['\n'], n);
        lemma_ind_one_line(seq!['{'], n);
        lemma_ind_newline(n);
        lemma_ind_one_line("}"@, n);
        lemma_ind_concat("{\n"@, member_lines(fields), n);
        lemma_ind_concat("{\n"@ + member_lines(fields), "}"@, n);
        let r = members_rest(fields, n);
        let t = ind(object_text(fields), n);
        assert(t =~= h_text + r);
        let h = h_text.len() as int;
        assert(sits_in(r, t, h)) by {
            reveal(sits_in);
        }
        assert forall|i: int| 1 <= i < h implies is_ws(#[trigger] t[i]) by {
            assert(t[i] == h_text[i]);
            if i > 1 {
                assert(h_text[i] == spaces(2 * n)[i - 2]);
            }
        }
        let v = fields[0].1;
        assert(reads_as_some(v));
        let m = model_of(v);
        lemma_members_rest_split(fields, n);
        lemma_member_layout(fields[0].0, v, fields.len() == 1, n, members_rest(fields.drop_first(), n));
        lemma_members_read(fields, n, Seq::empty());
        assert(Seq::<(Seq<char>, JsonValue)>::empty() + members_read(fields) =~= members_read(fields));
        assert(r.len() > 2);
        lemma_object_from_lines(t, r, h, JsonValue::Object(members_read(fields)));
    }
}

/// An object whose member texts each read as a value reads as the object of
/// those values, under the keys given, in order.
pub proof fn object_reads(fields: Seq<(Seq<char>, Seq<char>)>)
    requires
        forall|i: int| 0 <= i < fields.len() ==> reads_as_some(#[trigger] fields[i].1),
    ensures
        reads_as(object_text(fields), JsonValue::Object(members_read(fields))),
{
    reveal_strlit("{}");
    reveal_strlit("{\n");
    reveal_strlit("}");
    let t = object_text(fields);
    lemma_member_lines_no_cr(fields);
    if fields.len() == 0 {
        assert(t == "{}"@);
    } else {
        assert(no_cr("{\n"@));
        assert(no_cr("}"@));
        lemma_no_cr_concat("{\n"@, member_lines(fields));
        lemma_no_cr_concat("{\n"@ + member_lines(fields), "}"@);
        assert(t[0] == '{');
    }
    assert(t[t.len() - 1] == '}');
    assert forall|n: nat| #[trigger] value(ind(t, n), 0) == Ok::<(JsonValue, int), (int, Seq<char>)>(
        (JsonValue::Object(members_read(fields)), ind(t, n).len() as int),
    ) by {
        lemma_object_value(fields, n);
    }
}

/// What an element line looks like indented `n` levels.
pub open spec fn item_line_at(v: Seq<char>, last: bool, n: nat) -> Seq<char> {
    "  "@ + ind(v, n + 1) + (if last {
        Seq::empty()
    } else {
        ","@
    }) + seq!['\n'] + spaces(2 * n)
}

proof fn lemma_item_line_ind(v: Seq<char>, last: bool, n: nat)
    requires
        forall|i: int| 0 <= i < v.len() ==> #[trigger] v[i] != '\r',
        v.len() > 0,
        v.last() != '\n',
    ensures
        ind(item_line(v, last), n) == item_line_at(v, last, n),
{
    reveal_strlit("  ");
    reveal_strlit(",");
    reveal_strlit("\n");
    lemma_indented_is_ind(v);
    lemma_ind_compose(v, 1, n);
    let comma: Seq<char> = if last {
        Seq::empty()
    } else {
        ","@
    };
    lemma_ind_one_line("  "@, n);
    lemma_ind_one_line(comma, n);
    lemma_ind_concat("  "@, ind(v, 1), n);
    lemma_ind_concat("  "@ + ind(v, 1), comma, n);
    lemma_ind_concat("  "@ + ind(v, 1) + comma, "\n"@, n);
    lemma_ind_newline(n);
    assert("\n"@ =~= seq!['\n']);
    assert(1 + n == n + 1);
}

/// An element line indented `n` levels, then the closing bracket or the
/// lines of the elements after it.
pub open spec fn items_rest(items: Seq<Seq<char>>, n: nat) -> Seq<char> {
    ind(item_lines(items), n) + "]"@
}

proof fn lemma_items_rest_split(items: Seq<Seq<char>>, n: nat)
    requires
        items.len() > 0,
        forall|i: int| 0 <= i < items.len() ==> reads_as_some(#[trigger] items[i]),
    ensures
        items_rest(items, n) == item_line_at(items[0], items.len() == 1, n) + items_rest(items.drop_first(), n),
{
    assert(reads_as_some(items[0]));
    let m = choose|m: JsonValue| reads_as(items[0], m);
    lemma_item_line_ind(items[0], items.len() == 1, n);
    lemma_ind_concat(item_line(items[0], items.len() == 1), item_lines(items.drop_first()), n);
}

proof fn lemma_item_lines_no_cr(items: Seq<Seq<char>>)
    requires
        forall|i: int| 0 <= i < items.len() ==> reads_as_some(#[trigger] items[i]),
    ensures
        no_cr(item_lines(items)),
    decreases items.len(),
{
    reveal_strlit("  ");
    reveal_strlit(",");
    reveal_strlit("\n");
    if items.len() > 0 {
        let rest = items.drop_first();
        assert forall|i: int| 0 <= i < rest.len() implies reads_as_some(#[trigger] rest[i]) by {
            assert(rest[i] == items[i + 1]);
        }
        lemma_item_lines_no_cr(rest);
        assert(reads_as_some(items[0]));
        let v = items[0];
        let m = choose|m: JsonValue| reads_as(v, m);
        lemma_indented_is_ind(v);
        lemma_ind_preserves_no_cr(v, 1);
        let comma: Seq<char> = if items.len() == 1 {
            Seq::empty()
        } else {
            ","@
        };
        assert(no_cr("  "@));
        assert(no_cr(indented(v)));
        lemma_no_cr_concat("  "@, indented(v));
        lemma_no_cr_concat("  "@ + indented(v), comma);
        lemma_no_cr_concat("  "@ + indented(v) + comma, "\n"@);
        lemma_no_cr_concat(item_line(v, items.len() == 1), item_lines(rest));
    }
}

/// Where the parts of an element line indented `n` levels sit, with `rest`
/// after it.
proof fn lemma_item_layout(v: Seq<char>, last: bool, n: nat, rest: Seq<char>)
    ensures
        ({
            let c_text = ind(v, n + 1);
            let l = item_line_at(v, last, n);
            let r = l + rest;
            let e = 2int + c_text.len();
            &&& r[0] == ' ' && r[1] == ' '
            &&& sits_in(c_text, r, 2)
            &&& e < l.len()
            &&& last ==> forall|i: int| e <= i < l.len() ==> is_ws(#[trigger] r[i])
            &&& !last ==> r[e] == ','
            &&& !last ==> forall|i: int| e + 1 <= i < l.len() ==> is_ws(#[trigger] r[i])
            &&& sits_in(rest, r, l.len() as int)
        }),
{
    reveal_strlit("  ");
    reveal_strlit(",");
    let c_text = ind(v, n + 1);
    let comma: Seq<char> = if last {
        Seq::empty()
    } else {
        ","@
    };
    let a = "  "@;
    let b = comma + seq!['\n'] + spaces(2 * n);
    let l = item_line_at(v, last, n);
    assert(l =~= a + c_text + b);
    let r = l + rest;
    let e = 2 + c_text.len();
    assert(r[0] == a[0] && r[1] == a[1]);
    assert(sits_in(c_text, r, 2)) by {
        reveal(sits_in);
        assert forall|i: int| 0 <= i < c_text.len() implies r[2 + i] == #[trigger] c_text[i] by {
            assert(r[2 + i] == (a + c_text)[2 + i]);
        }
    }
    assert forall|i: int| e <= i < l.len() implies #[trigger] r[i] == b[i - e] by {}
    assert forall|i: int| e <= i < l.len() && (last || i > e) implies is_ws(#[trigger] r[i]) by {
        assert(r[i] == b[i - e]);
        let z = i - e - comma.len();
        if z > 0 {
            assert(b[i - e] == spaces(2 * n)[z - 1]);
        }
    }
    assert(sits_in(rest, r, l.len() as int)) by {
        reveal(sits_in);
        assert forall|i: int| 0 <= i < rest.len() implies r[l.len() + i] == #[trigger] rest[i] by {}
    }
}

/// One element read from the start of `s`: two spaces, the value text `c`
/// ending at `e`, then either a comma and blanks up to `f`, or blanks up to
/// the closing bracket at `f`.
proof fn lemma_item_step(
    s: Seq<char>,
    c: Seq<char>,
    m: JsonValue,
    e: int,
    f: int,
    last: bool,
    acc: Seq<JsonValue>,
)
    requires
        c.len() > 0,
        e == 2 + c.len(),
        e < f <= s.len(),
        s[0] == ' ' && s[1] == ' ',
        sits_in(c, s, 2),
        value(c, 0) == Ok::<(JsonValue, int), (int, Seq<char>)>((m, c.len() as int)),
        last ==> f < s.len() && s[f] == ']' && forall|i: int| e <= i < f ==> is_ws(#[trigger] s[i]),
        !last ==> s[e] == ',' && forall|i: int| e + 1 <= i < f ==> is_ws(#[trigger] s[i]),
    ensures
        last ==> elements(s, 0, acc) == Ok::<(JsonValue, int), (int, Seq<char>)>(
            (JsonValue::Array(acc.push(m)), f + 1),
        ),
        !last ==> elements(s, 0, acc) == elements(s, f, acc.push(m)),
{
    lemma_char_at(c, s, 2, 0);
    assert(!crate::json_laws::continues_number(s[e]));
    lemma_value_in(c, s, 2, 0);
    lemma_ws_stretch(s, 0, 2);
    assert(value(s, 0) == value(s, 2));
    if !last {
        assert(skip_ws(s, e) == e);
        lemma_ws_stretch(s, e + 1, f);
        lemma_elements_same_start(s, e + 1, f, acc.push(m));
    } else {
        lemma_ws_stretch(s, e, f);
        assert(skip_ws(s, f) == f);
    }
}

/// A value text that reads as a value does not start with a closing
/// bracket.
proof fn lemma_value_start(c: Seq<char>)
    requires
        c.len() > 0,
        !is_ws(c[0]),
        value(c, 0) is Ok,
    ensures
        c[0] != ']' && c[0] != '}' && c[0] != ',',
{
    assert(skip_ws(c, 0) == 0);
}

proof fn lemma_item_parsed(v: Seq<char>, last: bool, n: nat, rest: Seq<char>, m: JsonValue, acc: Seq<JsonValue>)
    requires
        reads_as(v, m),
        last ==> rest.len() > 0 && rest[0] == ']',
    ensures
        ({
            let l = item_line_at(v, last, n);
            let r = l + rest;
            &&& sits_in(rest, r, l.len() as int)
            &&& last ==> elements(r, 0, acc) == Ok::<(JsonValue, int), (int, Seq<char>)>(
                (JsonValue::Array(acc.push(m)), l.len() + 1int),
            )
            &&& !last ==> elements(r, 0, acc) == elements(r, l.len() as int, acc.push(m))
        }),
{
    let c_text = ind(v, n + 1);
    lemma_ind_first(v, n + 1);
    assert(value(c_text, 0) == Ok::<(JsonValue, int), (int, Seq<char>)>((m, c_text.len() as int)));
    let l = item_line_at(v, last, n);
    let r = l + rest;
    lemma_item_layout(v, last, n, rest);
    let e: int = 2int + c_text.len();
    let f = l.len() as int;
    if last {
        assert(r[f] == rest[0]);
    }
    lemma_item_step(r, c_text, m, e, f, last, acc);
}

#[verifier::spinoff_prover]
proof fn lemma_items_read(items: Seq<Seq<char>>, n: nat, acc: Seq<JsonValue>)
    requires
        items.len() > 0,
        forall|i: int| 0 <= i < items.len() ==> reads_as_some(#[trigger] items[i]),
    ensures
        elements(items_rest(items, n), 0, acc) == Ok::<(JsonValue, int), (int, Seq<char>)>(
            (JsonValue::Array(acc + items_read(items)), items_rest(items, n).len() as int),
        ),
    decreases items.len(),
{
    lemma_items_rest_split(items, n);
    let v = items[0];
    let last = items.len() == 1;
    assert(reads_as_some(v));
    let m = model_of(v);
    assert(reads_as(v, m));
    let rest = items.drop_first();
    let rest2 = items_rest(rest, n);
    let l = item_line_at(v, last, n);
    if last {
        assert(rest2 =~= seq![']']) by {
            reveal_strlit("]");
            assert(item_lines(rest) =~= Seq::<char>::empty());
            assert(ind(Seq::<char>::empty(), n) == Seq::<char>::empty());
        }
        lemma_item_parsed(v, last, n, rest2, m, acc);
        assert(items_read(items) =~= seq![m]);
        assert(acc + items_read(items) =~= acc.push(m));
    } else {
        let acc2 = acc.push(m);
        assert forall|i: int| 0 <= i < rest.len() implies reads_as_some(#[trigger] rest[i]) by {
            assert(rest[i] == items[i + 1]);
        }
        lemma_item_parsed(v, last, n, rest2, m, acc);
        lemma_items_read(rest, n, acc2);
        lemma_elements_in(rest2, l + rest2, l.len() as int, 0, acc2);
        assert(items_read(items) =~= seq![m] + items_read(rest));
        assert(acc2 + items_read(rest) =~= acc + items_read(items));
    }
}

proof fn lemma_array_from_lines(t: Seq<char>, r: Seq<char>, h: int, arr: JsonValue)
    requires
        2 <= h,
        sits_in(r, t, h),
        t.len() == h + r.len(),
        t[0] == '[',
        forall|i: int| 1 <= i < h ==> is_ws(#[trigger] t[i]),
        r.len() > 2,
        r[0] == ' ' && r[1] == ' ' && !is_ws(r[2]) && r[2] != ']',
        elements(r, 0, Seq::empty()) == Ok::<(JsonValue, int), (int, Seq<char>)>((arr, r.len() as int)),
    ensures
        value(t, 0) == Ok::<(JsonValue, int), (int, Seq<char>)>((arr, t.len() as int)),
{
    lemma_container_open(t, r, h, '[');
    lemma_elements_in(r, t, h, 0, Seq::empty());
    lemma_elements_same_start(t, h, h + 2, Seq::empty());
}

#[verifier::spinoff_prover]
proof fn lemma_array_value(items: Seq<Seq<char>>, n: nat)
    requires
        forall|i: int| 0 <= i < items.len() ==> reads_as_some(#[trigger] items[i]),
    ensures
        value(ind(array_text(items), n), 0) == Ok::<(JsonValue, int), (int, Seq<char>)>(
            (JsonValue::Array(items_read(items)), ind(array_text(items), n).len() as int),
        ),
{
    reveal_strlit("[]");
    reveal_strlit("[\n");
    reveal_strlit("]");
    if items.len() == 0 {
        assert(array_text(items) == "[]"@);
        lemma_ind_one_line("[]"@, n);
        let t = "[]"@;
        assert(skip_ws(t, 0) == 0);
        assert(skip_ws(t, 1) == 1);
        assert(items_read(items) =~= Seq::<JsonValue>::empty());
    } else {
        let h_text = seq!['['] + (seq!['\n'] + spaces(2 * n));
        assert("[\n"@ =~= seq!['['] + seq!['\n']);
        lemma_ind_concat(seq!['['], seq!['\n'], n);
        lemma_ind_one_line(seq!['['], n);
        lemma_ind_newline(n);
        lemma_ind_one_line("]"@, n);
        lemma_ind_concat("[\n"@, item_lines(items), n);
        lemma_ind_concat("[\n"@ + item_lines(items), "]"@, n);
        let r = items_rest(items, n);
        let t = ind(array_text(items), n);
        assert(t =~= h_text + r);
        let h = h_text.len() as int;
        assert(sits_in(r, t, h)) by {
            reveal(sits_in);
        }
        assert forall|i: int| 1 <= i < h implies is_ws(#[trigger] t[i]) by {
            assert(t[i] == h_text[i]);
            if i > 1 {
                assert(h_text[i] == spaces(2 * n)[i - 2]);
            }
        }
        let v = items[0];
        assert(reads_as_some(v));
        let m = model_of(v);
        assert(reads_as(v, m));
        lemma_items_rest_split(items, n);
        let rest2 = items_rest(items.drop_first(), n);
        lemma_item_layout(v, items.len() == 1, n, rest2);
        let c_text = ind(v, n + 1);
        lemma_ind_first(v, n + 1);
        lemma_char_at(c_text, r, 2, 0);
        lemma_value_start(c_text);
        lemma_items_read(items, n, Seq::empty());
        assert(Seq::<JsonValue>::empty() + items_read(items) =~= items_read(items));
        lemma_array_from_lines(t, r, h, JsonValue::Array(items_read(items)));
    }
}

/// An array whose item texts each read as a value reads as the array of
/// those values, in order.
pub proof fn array_reads(items: Seq<Seq<char>>)
    requires
        forall|i: int| 0 <= i < items.len() ==> reads_as_some(#[trigger] items[i]),
    ensures
        reads_as(array_text(items), JsonValue::Array(items_read(items))),
{
    reveal_strlit("[]");
    reveal_strlit("[\n");
    reveal_strlit("]");
    let t = array_text(items);
    lemma_item_lines_no_cr(items);
    if items.len() == 0 {
        assert(t == "[]"@);
    } else {
        assert(no_cr("[\n"@));
        assert(no_cr("]"@));
        lemma_no_cr_concat("[\n"@, item_lines(items));
        lemma_no_cr_concat("[\n"@ + item_lines(items), "]"@);
        assert(t[0] == '[');
    }
    assert(t[t.len() - 1] == ']');
    assert forall|n: nat| #[trigger] value(ind(t, n), 0) == Ok::<(JsonValue, int), (int, Seq<char>)>(
        (JsonValue::Array(items_read(items)), ind(t, n).len() as int),
    ) by {
        lemma_array_value(items, n);
    }
}

/// What the decimal digits of `n` read as: an `Int` while `n` fits in an
/// `i64`, otherwise a `Float` holding the digits.
pub open spec fn decimal_model(n: nat) -> JsonValue {
    if n <= i64::MAX {
        JsonValue::Int(n as i64)
    } else {
        JsonValue::Float(decimal(n))
    }
}

proof fn lemma_decimal_shape(n: nat)
    ensures
        decimal(n).len() >= 1,
        all_digits(decimal(n)),
        digits_value(decimal(n)) == n,
        decimal(n)[0] == '0' ==> n == 0 && decimal(n).len() == 1,
    decreases n,
{
    if n < 10 {
        let c = digit_char(n);
        assert(seq![c].drop_last() =~= Seq::<char>::empty());
        assert(digits_value(Seq::<char>::empty()) == 0);
        assert(digit_value(c) == n);
        assert(decimal(n) == seq![c]);
        assert(seq![c].last() == c);
    } else {
        lemma_decimal_shape(n / 10);
        let d = decimal(n / 10);
        let c = digit_char(n % 10);
        assert(decimal(n) == d.push(c));
        assert(d.push(c).drop_last() =~= d);
        assert(digit_value(c) == n % 10);
        assert(digits_value(d) * 10 + n % 10 == n) by (nonlinear_arith)
            requires
                digits_value(d) == n / 10,
        ;
        assert(decimal(n)[0] == d[0]);
        assert forall|i: int| 0 <= i < decimal(n).len() implies is_digit(#[trigger] decimal(n)[i]) by {
            if i < d.len() {
                assert(decimal(n)[i] == d[i]);
            }
        }
    }
}

proof fn lemma_skip_all_digits(x: Seq<char>, i: int)
    requires
        0 <= i <= x.len(),
        all_digits(x),
    ensures
        skip_digits(x, i) == x.len(),
{
    lemma_skip_digits(x, i);
    if skip_digits(x, i) < x.len() {
        assert(is_digit(x[skip_digits(x, i)]));
    }
}

/// The decimal digits of `n` read as `decimal_model(n)`.
pub proof fn decimal_reads(n: nat)
    ensures
        reads_as(decimal(n), decimal_model(n)),
{
    reveal(number);
    lemma_decimal_shape(n);
    let x = decimal(n);
    assert(is_digit(x[0]));
    assert(!has_at(x, 0, '-'));
    if !has_at(x, 0, '0') {
        lemma_skip_all_digits(x, 0);
    }
    assert(int_part_end(x, 0, 0) == Ok::<int, (int, Seq<char>)>(x.len() as int));
    assert(x.subrange(0, x.len() as int) =~= x);
    assert(number(x, 0) == Ok::<(JsonValue, int), (int, Seq<char>)>((decimal_model(n), x.len() as int)));
    assert(skip_ws(x, 0) == 0);
    assert forall|i: int| 0 <= i < x.len() implies #[trigger] x[i] != '\n' && x[i] != '\r' by {
        assert(is_digit(x[i]));
    }
    lemma_one_line_reads(x, decimal_model(n));
}

/// `true` and `false` read as the booleans.
pub proof fn flag_reads(b: bool)
    ensures
        reads_as(crate::summary::flag(b), JsonValue::Bool(b)),
{
    reveal_strlit("true");
    reveal_strlit("false");
    let x = crate::summary::flag(b);
    if b {
        assert(x.subrange(0, 4) =~= "true"@);
    } else {
        assert(x.subrange(0, 5) =~= "false"@);
    }
    assert(skip_ws(x, 0) == 0);
    lemma_one_line_reads(x, JsonValue::Bool(b));
}

/// `x` is a JSON number and nothing else.
pub open spec fn number_text(x: Seq<char>) -> bool {
    &&& x.len() > 0
    &&& number(x, 0) matches Ok((_, e)) && e == x.len()
}

/// A JSON number reads as what the number grammar gives for it.
pub proof fn number_reads(x: Seq<char>)
    requires
        number_text(x),
    ensures
        reads_as(x, number(x, 0)->Ok_0.0),
{
    reveal(number);
    let a: int = if has_at(x, 0, '-') { 1 } else { 0 };
    let b = int_part_end(x, 0, a)->Ok_0;
    let (c, hf) = fraction_end(x, b)->Ok_0;
    let (d, he) = exponent_end(x, c)->Ok_0;
    assert(d == x.len());
    // Every character is a sign, a digit, a point or an exponent mark.
    if !has_at(x, a, '0') {
        lemma_skip_digits(x, a);
    }
    if hf {
        lemma_skip_digits(x, b + 1);
    }
    let g: int = if has_at(x, c + 1, '+') || has_at(x, c + 1, '-') { c + 2 } else { c + 1 };
    if he {
        lemma_skip_digits(x, g);
    }
    assert forall|i: int| 0 <= i < x.len() implies #[trigger] x[i] != '\n' && x[i] != '\r' by {
        if i < a {
        } else if i < b {
            if has_at(x, a, '0') {
            } else {
                assert(is_digit(x[i]));
            }
        } else if i < c {
            if i > b {
                assert(is_digit(x[i]));
            }
        } else if i < g {
        } else {
            assert(is_digit(x[i]));
        }
    }
    assert(skip_ws(x, 0) == 0);
    lemma_one_line_reads(x, number(x, 0)->Ok_0.0);
}

proof fn lemma_ind_zero(x: Seq<char>)
    ensures
        ind(x, 0) == x,
    decreases x.len(),
{
    if x.len() > 0 {
        lemma_ind_zero(x.drop_last());
        assert(spaces(0) =~= Seq::<char>::empty());
        assert(x.drop_last().push(x.last()) =~= x);
        if x.last() == '\n' {
            assert(seq!['\n'] + spaces(0) =~= seq![x.last()]);
        }
    }
}

/// What a text reads as is all it reads as.
proof fn lemma_reads_as_unique(x: Seq<char>, m: JsonValue)
    requires
        reads_as(x, m),
    ensures
        reads_as_some(x),
        model_of(x) == m,
{
    let w = model_of(x);
    assert(reads_as(x, w));
    assert(value(ind(x, 0), 0) == Ok::<(JsonValue, int), (int, Seq<char>)>((m, ind(x, 0).len() as int)));
    assert(value(ind(x, 0), 0) == Ok::<(JsonValue, int), (int, Seq<char>)>((w, ind(x, 0).len() as int)));
}

/// A text that reads as `m` parses as `m`.
pub proof fn reads_as_parses(x: Seq<char>, m: JsonValue)
    requires
        reads_as(x, m),
    ensures
        parse_model(x) == Ok::<JsonValue, crate::json::ErrorModel>(m),
{
    lemma_ind_zero(x);
    assert(value(x, 0) == Ok::<(JsonValue, int), (int, Seq<char>)>((m, x.len() as int)));
    assert(skip_ws(x, x.len() as int) == x.len());
}

/// Every text `rate` renders is a JSON number.
pub open spec fn renders_numbers<R: Fn(usize, usize) -> String>(rate: R) -> bool {
    forall|a: usize, b: usize, out: String| #[trigger] rate.ensures((a, b), out) ==> number_text(out@)
}

proof fn lemma_rate_reads<R: Fn(usize, usize) -> String>(rate: R, a: usize, b: usize, s: Seq<char>)
    requires
        renders_numbers(rate),
        rate_as(rate, a, b, s),
    ensures
        reads_as_some(s),
{
    let out = choose|out: String| #[trigger] rate.ensures((a, b), out) && out@ == s;
    assert(rate.ensures((a, b), out));
    number_reads(s);
}

proof fn lemma_decimal_some(n: nat)
    ensures
        reads_as_some(decimal(n)),
        model_of(decimal(n)) == decimal_model(n),
{
    decimal_reads(n);
    lemma_reads_as_unique(decimal(n), decimal_model(n));
}

proof fn lemma_quoted_some(x: Seq<char>)
    ensures
        reads_as_some(quoted(x)),
        model_of(quoted(x)) == JsonValue::Str(x),
{
    quoted_reads(x);
    lemma_reads_as_unique(quoted(x), JsonValue::Str(x));
}

proof fn lemma_flag_some(b: bool)
    ensures
        reads_as_some(flag(b)),
        model_of(flag(b)) == JsonValue::Bool(b),
{
    flag_reads(b);
    lemma_reads_as_unique(flag(b), JsonValue::Bool(b));
}

proof fn lemma_object_some(fields: Seq<(Seq<char>, Seq<char>)>)
    requires
        forall|i: int| 0 <= i < fields.len() ==> reads_as_some(#[trigger] fields[i].1),
    ensures
        reads_as_some(object_text(fields)),
        model_of(object_text(fields)) == JsonValue::Object(members_read(fields)),
{
    object_reads(fields);
    lemma_reads_as_unique(object_text(fields), JsonValue::Object(members_read(fields)));
}

proof fn lemma_array_some(items: Seq<Seq<char>>)
    requires
        forall|i: int| 0 <= i < items.len() ==> reads_as_some(#[trigger] items[i]),
    ensures
        reads_as_some(array_text(items)),
        model_of(array_text(items)) == JsonValue::Array(items_read(items)),
{
    array_reads(items);
    lemma_reads_as_unique(array_text(items), JsonValue::Array(items_read(items)));
}

#[verifier::spinoff_prover]
proof fn lemma_tally_reads(s: Seq<(JsonType, usize)>, text: Seq<char>)
    requires
        tally_json_as(s, text),
    ensures
        reads_as_some(text),
        model_of(text) is Object,
{
    let order = choose|order: Seq<int>| #[trigger] ranked(s, order) && text == tally_object(s, order);
    let fields = Seq::new(order.len(), |a: int| (type_label(s[order[a]].0), decimal(s[order[a]].1 as nat)));
    assert forall|i: int| 0 <= i < fields.len() implies reads_as_some(#[trigger] fields[i].1) by {
        lemma_decimal_some(s[order[i]].1 as nat);
    }
    lemma_object_some(fields);
}

/// `m` is what the report's object of the key `k` reads as: its name, its
/// count, then its rate and its kinds.
pub open spec fn key_read_as(k: KeyStat, m: JsonValue) -> bool {
    &&& m is Object
    &&& m->Object_0.len() == 4
    &&& m->Object_0[0] == ("key"@, JsonValue::Str(k.key@))
    &&& m->Object_0[1] == ("count"@, decimal_model(k.count as nat))
    &&& m->Object_0[2].0 == "rate"@
    &&& m->Object_0[3].0 == "types"@
}

/// `m` is what the report's object of the field `f` reads as: its path, its
/// counts and its truncation flag, with its rate, kinds and top values.
pub open spec fn field_read_as(f: FieldStat, m: JsonValue) -> bool {
    &&& m is Object
    &&& m->Object_0.len() == 8
    &&& m->Object_0[0] == ("path"@, JsonValue::Str(f.path.text()))
    &&& m->Object_0[1] == ("records_present"@, decimal_model(f.records_present as nat))
    &&& m->Object_0[2].0 == "rate"@
    &&& m->Object_0[3] == ("values"@, decimal_model(f.values as nat))
    &&& m->Object_0[4].0 == "types"@
    &&& m->Object_0[5] == ("distinct_values"@, decimal_model(f.counted().len()))
    &&& m->Object_0[6] == ("values_truncated"@, JsonValue::Bool(f.values_truncated))
    &&& m->Object_0[7].0 == "top"@
}

#[verifier::spinoff_prover]
proof fn lemma_key_reads<R: Fn(usize, usize) -> String>(k: KeyStat, valid: usize, rate: R, text: Seq<char>)
    requires
        renders_numbers(rate),
        key_json_as(k, valid, rate, text),
    ensures
        reads_as_some(text),
        key_read_as(k, model_of(text)),
{
    let (rs, ts) = choose|rs: Seq<char>, ts: Seq<char>|
        #![trigger rate_as(rate, k.count, valid, rs), tally_json_as(k.types@, ts)]
        rate_as(rate, k.count, valid, rs) && tally_json_as(k.types@, ts) && text == key_object(k, rs, ts);
    lemma_quoted_some(k.key@);
    lemma_decimal_some(k.count as nat);
    lemma_rate_reads(rate, k.count, valid, rs);
    lemma_tally_reads(k.types@, ts);
    let fields = seq![("key"@, quoted(k.key@)), ("count"@, decimal(k.count as nat)), ("rate"@, rs), ("types"@, ts)];
    assert forall|i: int| 0 <= i < fields.len() implies reads_as_some(#[trigger] fields[i].1) by {}
    lemma_object_some(fields);
    let ms = members_read(fields);
    assert(ms[0] == ("key"@, model_of(quoted(k.key@))));
    assert(ms[1] == ("count"@, model_of(decimal(k.count as nat))));
    assert(ms[2].0 == "rate"@ && ms[3].0 == "types"@);
}

#[verifier::spinoff_prover]
proof fn lemma_top_reads<R: Fn(usize, usize) -> String>(f: FieldStat, top: usize, rate: R, text: Seq<char>)
    requires
        renders_numbers(rate),
        top_json_as(f, top, rate, text),
    ensures
        reads_as_some(text),
{
    let (order, rates) = choose|order: Seq<int>, rates: Seq<Seq<char>>|
        #![trigger value_order(f.counted(), order), top_array(f.counted(), order, rates)]
        {
            &&& value_order(f.counted(), order)
            &&& rates.len() == if top < order.len() {
                top as int
            } else {
                order.len() as int
            }
            &&& forall|a: int|
                0 <= a < rates.len() ==> #[trigger] rate_as(rate, f.counted()[order[a]].1, f.values, rates[a])
            &&& text == top_array(f.counted(), order, rates)
        };
    let c = f.counted();
    let items = Seq::new(
        rates.len(),
        |a: int|
            object_text(
                seq![
                    ("value"@, quoted(c[order[a]].0)),
                    ("count"@, decimal(c[order[a]].1 as nat)),
                    ("rate"@, rates[a]),
                ],
            ),
    );
    assert forall|a: int| 0 <= a < items.len() implies reads_as_some(#[trigger] items[a]) by {
        lemma_quoted_some(c[order[a]].0);
        lemma_decimal_some(c[order[a]].1 as nat);
        assert(rate_as(rate, c[order[a]].1, f.values, rates[a]));
        lemma_rate_reads(rate, c[order[a]].1, f.values, rates[a]);
        let fields = seq![
            ("value"@, quoted(c[order[a]].0)),
            ("count"@, decimal(c[order[a]].1 as nat)),
            ("rate"@, rates[a]),
        ];
        assert forall|i: int| 0 <= i < fields.len() implies reads_as_some(#[trigger] fields[i].1) by {}
        lemma_object_some(fields);
    }
    lemma_array_some(items);
}

#[verifier::spinoff_prover]
proof fn lemma_field_reads<R: Fn(usize, usize) -> String>(
    f: FieldStat,
    valid: usize,
    top: usize,
    rate: R,
    text: Seq<char>,
)
    requires
        renders_numbers(rate),
        field_json_as(f, valid, top, rate, text),
    ensures
        reads_as_some(text),
        field_read_as(f, model_of(text)),
{
    let (rs, ts, tops) = choose|rs: Seq<char>, ts: Seq<char>, tops: Seq<char>|
        #![trigger rate_as(rate, f.records_present, valid, rs), tally_json_as(f.types@, ts), top_json_as(f, top, rate, tops)]
        {
            &&& rate_as(rate, f.records_present, valid, rs)
            &&& tally_json_as(f.types@, ts)
            &&& top_json_as(f, top, rate, tops)
            &&& text == field_object(f, rs, ts, tops)
        };
    lemma_quoted_some(f.path.text());
    lemma_decimal_some(f.records_present as nat);
    lemma_rate_reads(rate, f.records_present, valid, rs);
    lemma_decimal_some(f.values as nat);
    lemma_tally_reads(f.types@, ts);
    lemma_decimal_some(f.counted().len());
    lemma_flag_some(f.values_truncated);
    lemma_top_reads(f, top, rate, tops);
    let fields = seq![
        ("path"@, quoted(f.path.text())),
        ("records_present"@, decimal(f.records_present as nat)),
        ("rate"@, rs),
        ("values"@, decimal(f.values as nat)),
        ("types"@, ts),
        ("distinct_values"@, decimal(f.counted().len())),
        ("values_truncated"@, flag(f.values_truncated)),
        ("top"@, tops),
    ];
    assert forall|i: int| 0 <= i < fields.len() implies reads_as_some(#[trigger] fields[i].1) by {}
    lemma_object_some(fields);
    let ms = members_read(fields);
    assert(ms[0] == ("path"@, model_of(quoted(f.path.text()))));
    assert(ms[1] == ("records_present"@, model_of(decimal(f.records_present as nat))));
    assert(ms[3] == ("values"@, model_of(decimal(f.values as nat))));
    assert(ms[5] == ("distinct_values"@, model_of(decimal(f.counted().len()))));
    assert(ms[6] == ("values_truncated"@, model_of(flag(f.values_truncated))));
    assert(ms[2].0 == "rate"@ && ms[4].0 == "types"@ && ms[7].0 == "top"@);
}

#[verifier::spinoff_prover]
proof fn lemma_issue_reads(i: ParseIssue)
    ensures
        reads_as_some(issue_object(i)),
        model_of(issue_object(i)) == JsonValue::Object(
            seq![
                ("line"@, decimal_model(i.line as nat)),
                ("column"@, decimal_model(i.column as nat)),
                ("reason"@, JsonValue::Str(i.reason@)),
            ],
        ),
{
    lemma_decimal_some(i.line as nat);
    lemma_decimal_some(i.column as nat);
    lemma_quoted_some(i.reason@);
    let fields = seq![
        ("line"@, decimal(i.line as nat)),
        ("column"@, decimal(i.column as nat)),
        ("reason"@, quoted(i.reason@)),
    ];
    assert(fields[0].1 == decimal(i.line as nat));
    assert(fields[1].1 == decimal(i.column as nat));
    assert(fields[2].1 == quoted(i.reason@));
    assert forall|k: int| 0 <= k < fields.len() implies reads_as_some(#[trigger] fields[k].1) by {}
    lemma_object_some(fields);
    let ms = members_read(fields);
    assert(ms[0] == ("line"@, decimal_model(i.line as nat)));
    assert(ms[1] == ("column"@, decimal_model(i.column as nat)));
    assert(ms[2] == ("reason"@, JsonValue::Str(i.reason@)));
    assert(members_read(fields) =~= seq![
        ("line"@, decimal_model(i.line as nat)),
        ("column"@, decimal_model(i.column as nat)),
        ("reason"@, JsonValue::Str(i.reason@)),
    ]);
}

proof fn lemma_number_some(x: Seq<char>)
    requires
        number_text(x),
    ensures
        reads_as_some(x),
{
    number_reads(x);
}

#[verifier::spinoff_prover]
proof fn lemma_length_fields(min: u64, p50: u64, p90: u64, p99: u64, max: u64, mean: Seq<char>)
    requires
        number_text(mean),
    ensures
        ({
            let t = object_text(
                seq![
                    ("min"@, decimal(min as nat)),
                    ("p50"@, decimal(p50 as nat)),
                    ("p90"@, decimal(p90 as nat)),
                    ("p99"@, decimal(p99 as nat)),
                    ("max"@, decimal(max as nat)),
                    ("mean"@, mean),
                ],
            );
            reads_as_some(t) && model_of(t) is Object
        }),
{
    lemma_decimal_some(min as nat);
    lemma_decimal_some(p50 as nat);
    lemma_decimal_some(p90 as nat);
    lemma_decimal_some(p99 as nat);
    lemma_decimal_some(max as nat);
    lemma_number_some(mean);
    let fields = seq![
        ("min"@, decimal(min as nat)),
        ("p50"@, decimal(p50 as nat)),
        ("p90"@, decimal(p90 as nat)),
        ("p99"@, decimal(p99 as nat)),
        ("max"@, decimal(max as nat)),
        ("mean"@, mean),
    ];
    assert forall|k: int| 0 <= k < fields.len() implies reads_as_some(#[trigger] fields[k].1) by {}
    lemma_object_some(fields);
}

proof fn lemma_length_reads(h: Histogram, pct: Percentiles, mean: Seq<char>)
    requires
        number_text(mean),
    ensures
        reads_as_some(length_object(h, pct, mean)),
        model_of(length_object(h, pct, mean)) is Object,
{
    lemma_length_fields(crate::summary::hist_min(h), pct.p50, pct.p90, pct.p99, crate::summary::hist_max(h), mean);
}

/// The `i`-th member text of the report, given the texts of the top-level
/// tally, of the keys and of the fields.
pub open spec fn report_field(
    label: Seq<char>,
    stats: Stats,
    pct: Percentiles,
    mean: Seq<char>,
    tt: Seq<char>,
    kts: Seq<Seq<char>>,
    fts: Seq<Seq<char>>,
    i: int,
) -> (Seq<char>, Seq<char>) {
    if i == 0 {
        ("file"@, quoted(label))
    } else if i == 1 {
        ("lines"@, decimal(stats.lines as nat))
    } else if i == 2 {
        ("blank"@, decimal(stats.blank as nat))
    } else if i == 3 {
        ("invalid"@, decimal(stats.invalid as nat))
    } else if i == 4 {
        ("valid"@, decimal(stats.valid as nat))
    } else if i == 5 {
        ("bytes"@, decimal(stats.bytes as nat))
    } else if i == 6 {
        ("top_level"@, tt)
    } else if i == 7 {
        ("line_length"@, length_object(stats.line_length, pct, mean))
    } else if i == 8 {
        ("keys"@, array_text(kts))
    } else if i == 9 {
        ("keys_truncated"@, flag(stats.keys_truncated))
    } else if i == 10 {
        ("fields"@, array_text(fts))
    } else if i == 11 {
        ("issues"@, issues_array(stats.issues@))
    } else {
        ("issues_truncated"@, flag(stats.invalid > stats.issues@.len()))
    }
}

/// The member texts of the report.
pub open spec fn report_fields(
    label: Seq<char>,
    stats: Stats,
    pct: Percentiles,
    mean: Seq<char>,
    tt: Seq<char>,
    kts: Seq<Seq<char>>,
    fts: Seq<Seq<char>>,
) -> Seq<(Seq<char>, Seq<char>)> {
    Seq::new(13, |i: int| report_field(label, stats, pct, mean, tt, kts, fts, i))
}

/// The objects of the kept issues, in order.
pub open spec fn issue_texts(issues: Seq<ParseIssue>) -> Seq<Seq<char>> {
    Seq::new(issues.len(), |i: int| issue_object(issues[i]))
}

#[verifier::spinoff_prover]
proof fn lemma_report_arrays<R: Fn(usize, usize) -> String>(
    stats: Stats,
    top: usize,
    rate: R,
    order: Seq<int>,
    kts: Seq<Seq<char>>,
    fts: Seq<Seq<char>>,
)
    requires
        renders_numbers(rate),
        count_ranked(key_counts(stats.keys@), order),
        kts.len() == order.len(),
        forall|a: int|
            0 <= a < kts.len() ==> #[trigger] key_json_as(stats.keys@[order[a]], stats.valid, rate, kts[a]),
        fts.len() == stats.fields@.len(),
        forall|i: int|
            0 <= i < fts.len() ==> #[trigger] field_json_as(stats.fields@[i], stats.valid, top, rate, fts[i]),
    ensures
        reads_as_some(array_text(kts)),
        model_of(array_text(kts)) == JsonValue::Array(items_read(kts)),
        forall|a: int| 0 <= a < kts.len() ==> key_read_as(stats.keys@[order[a]], #[trigger] items_read(kts)[a]),
        reads_as_some(array_text(fts)),
        model_of(array_text(fts)) == JsonValue::Array(items_read(fts)),
        forall|i: int| 0 <= i < fts.len() ==> field_read_as(stats.fields@[i], #[trigger] items_read(fts)[i]),
        reads_as_some(issues_array(stats.issues@)),
        model_of(issues_array(stats.issues@)) == JsonValue::Array(
            items_read(issue_texts(stats.issues@)),
        ),
        forall|j: int|
            0 <= j < stats.issues@.len() ==> #[trigger] items_read(
                issue_texts(stats.issues@),
            )[j] == JsonValue::Object(
                seq![
                    ("line"@, decimal_model(stats.issues@[j].line as nat)),
                    ("column"@, decimal_model(stats.issues@[j].column as nat)),
                    ("reason"@, JsonValue::Str(stats.issues@[j].reason@)),
                ],
            ),
{
    assert forall|a: int| 0 <= a < kts.len() implies reads_as_some(#[trigger] kts[a]) by {
        assert(key_json_as(stats.keys@[order[a]], stats.valid, rate, kts[a]));
        lemma_key_reads(stats.keys@[order[a]], stats.valid, rate, kts[a]);
    }
    lemma_array_some(kts);
    assert forall|a: int| 0 <= a < kts.len() implies key_read_as(stats.keys@[order[a]], #[trigger] items_read(kts)[a]) by {
        assert(key_json_as(stats.keys@[order[a]], stats.valid, rate, kts[a]));
        lemma_key_reads(stats.keys@[order[a]], stats.valid, rate, kts[a]);
    }
    assert forall|i: int| 0 <= i < fts.len() implies reads_as_some(#[trigger] fts[i]) by {
        assert(field_json_as(stats.fields@[i], stats.valid, top, rate, fts[i]));
        lemma_field_reads(stats.fields@[i], stats.valid, top, rate, fts[i]);
    }
    lemma_array_some(fts);
    assert forall|i: int| 0 <= i < fts.len() implies field_read_as(stats.fields@[i], #[trigger] items_read(fts)[i]) by {
        assert(field_json_as(stats.fields@[i], stats.valid, top, rate, fts[i]));
        lemma_field_reads(stats.fields@[i], stats.valid, top, rate, fts[i]);
    }
    let issues = issue_texts(stats.issues@);
    assert(issues_array(stats.issues@) == array_text(issues)) by {
        assert(issues =~= Seq::new(stats.issues@.len(), |i: int| issue_object(stats.issues@[i])));
    }
    assert forall|i: int| 0 <= i < issues.len() implies reads_as_some(#[trigger] issues[i]) by {
        lemma_issue_reads(stats.issues@[i]);
    }
    lemma_array_some(issues);
    assert forall|j: int| 0 <= j < stats.issues@.len() implies #[trigger] items_read(issues)[j] == JsonValue::Object(
        seq![
            ("line"@, decimal_model(stats.issues@[j].line as nat)),
            ("column"@, decimal_model(stats.issues@[j].column as nat)),
            ("reason"@, JsonValue::Str(stats.issues@[j].reason@)),
        ],
    ) by {
        lemma_issue_reads(stats.issues@[j]);
    }
}

#[verifier::spinoff_prover]
proof fn lemma_report_fields_read(
    label: Seq<char>,
    stats: Stats,
    pct: Percentiles,
    mean: Seq<char>,
    tt: Seq<char>,
    kts: Seq<Seq<char>>,
    fts: Seq<Seq<char>>,
)
    requires
        number_text(mean),
        tally_json_as(stats.top_level@, tt),
        reads_as_some(array_text(kts)),
        reads_as_some(array_text(fts)),
        reads_as_some(issues_array(stats.issues@)),
    ensures
        ({
            let fields = report_fields(label, stats, pct, mean, tt, kts, fts);
            &&& forall|i: int| 0 <= i < fields.len() ==> reads_as_some(#[trigger] fields[i].1)
            &&& model_of(fields[0].1) == JsonValue::Str(label)
            &&& model_of(fields[1].1) == decimal_model(stats.lines as nat)
            &&& model_of(fields[2].1) == decimal_model(stats.blank as nat)
            &&& model_of(fields[3].1) == decimal_model(stats.invalid as nat)
            &&& model_of(fields[4].1) == decimal_model(stats.valid as nat)
            &&& model_of(fields[5].1) == decimal_model(stats.bytes as nat)
            &&& model_of(fields[6].1) is Object
            &&& model_of(fields[7].1) is Object
            &&& model_of(fields[9].1) == JsonValue::Bool(stats.keys_truncated)
            &&& model_of(fields[12].1) == JsonValue::Bool(stats.invalid > stats.issues@.len())
        }),
{
    lemma_quoted_some(label);
    lemma_decimal_some(stats.lines as nat);
    lemma_decimal_some(stats.blank as nat);
    lemma_decimal_some(stats.invalid as nat);
    lemma_decimal_some(stats.valid as nat);
    lemma_decimal_some(stats.bytes as nat);
    lemma_tally_reads(stats.top_level@, tt);
    lemma_length_reads(stats.line_length, pct, mean);
    lemma_flag_some(stats.keys_truncated);
    lemma_flag_some(stats.invalid > stats.issues@.len());
    let fields = report_fields(label, stats, pct, mean, tt, kts, fts);
    assert forall|i: int| 0 <= i < fields.len() implies reads_as_some(#[trigger] fields[i].1) by {
        assert(fields[i] == report_field(label, stats, pct, mean, tt, kts, fts, i));
    }
}

proof fn lemma_report_text(
    label: Seq<char>,
    stats: Stats,
    pct: Percentiles,
    mean: Seq<char>,
    tt: Seq<char>,
    kts: Seq<Seq<char>>,
    fts: Seq<Seq<char>>,
)
    ensures
        stats_object(label, stats, pct, mean, tt, kts, fts) == object_text(
            report_fields(label, stats, pct, mean, tt, kts, fts),
        ),
{
    let fields = report_fields(label, stats, pct, mean, tt, kts, fts);
    assert(fields =~= seq![
        ("file"@, quoted(label)),
        ("lines"@, decimal(stats.lines as nat)),
        ("blank"@, decimal(stats.blank as nat)),
        ("invalid"@, decimal(stats.invalid as nat)),
        ("valid"@, decimal(stats.valid as nat)),
        ("bytes"@, decimal(stats.bytes as nat)),
        ("top_level"@, tt),
        ("line_length"@, length_object(stats.line_length, pct, mean)),
        ("keys"@, array_text(kts)),
        ("keys_truncated"@, flag(stats.keys_truncated)),
        ("fields"@, array_text(fts)),
        ("issues"@, issues_array(stats.issues@)),
        ("issues_truncated"@, flag(stats.invalid > stats.issues@.len())),
    ]);
}

/// The `--json` report parses back as a JSON object with its thirteen
/// members in order: the label as a string, the five counts as integers,
/// the key, field and issue arrays with one element per key, field and kept
/// issue (the keys most common first, each with its name and count; each
/// field with its path and counts; each issue an object of its line, its column and its reason, in
/// that order), and the two truncation flags; provided every rate and the mean
/// are written as JSON numbers and the counts fit in an `i64`.
#[verifier::spinoff_prover]
pub proof fn json_report_reads_back<R: Fn(usize, usize) -> String>(
    label: Seq<char>,
    stats: Stats,
    top: usize,
    pct: Percentiles,
    mean: Seq<char>,
    rate: R,
    text: Seq<char>,
)
    requires
        stats.wf(),
        stats_json_as(label, stats, top, pct, mean, rate, text),
        number_text(mean),
        renders_numbers(rate),
        stats.lines <= i64::MAX,
        stats.bytes <= i64::MAX,
    ensures
        parse_model(text) matches Ok(JsonValue::Object(ms)) && {
            &&& ms.len() == 13
            &&& ms[0] == ("file"@, JsonValue::Str(label))
            &&& ms[1] == ("lines"@, JsonValue::Int(stats.lines as i64))
            &&& ms[2] == ("blank"@, JsonValue::Int(stats.blank as i64))
            &&& ms[3] == ("invalid"@, JsonValue::Int(stats.invalid as i64))
            &&& ms[4] == ("valid"@, JsonValue::Int(stats.valid as i64))
            &&& ms[5] == ("bytes"@, JsonValue::Int(stats.bytes as i64))
            &&& ms[6].0 == "top_level"@
            &&& ms[6].1 is Object
            &&& ms[7].0 == "line_length"@
            &&& ms[7].1 is Object
            &&& ms[8].0 == "keys"@
            &&& ms[8].1 matches JsonValue::Array(ks) && ks.len() == stats.keys@.len() && exists|order: Seq<int>|
                count_ranked(key_counts(stats.keys@), order) && forall|a: int|
                    0 <= a < ks.len() ==> key_read_as(stats.keys@[order[a]], #[trigger] ks[a])
            &&& ms[9] == ("keys_truncated"@, JsonValue::Bool(stats.keys_truncated))
            &&& ms[10].0 == "fields"@
            &&& ms[10].1 matches JsonValue::Array(fs) && fs.len() == stats.fields@.len() && forall|i: int|
                0 <= i < fs.len() ==> field_read_as(stats.fields@[i], #[trigger] fs[i])
            &&& ms[11].0 == "issues"@
            &&& ms[11].1 matches JsonValue::Array(is) && is.len() == stats.issues@.len() && forall|j: int|
                0 <= j < is.len() ==> #[trigger] is[j] == JsonValue::Object(
                    seq![
                        ("line"@, decimal_model(stats.issues@[j].line as nat)),
                        ("column"@, decimal_model(stats.issues@[j].column as nat)),
                        ("reason"@, JsonValue::Str(stats.issues@[j].reason@)),
                    ],
                )
            &&& ms[12] == ("issues_truncated"@, JsonValue::Bool(stats.invalid > stats.issues@.len()))
        },
{
    let (tt, order, kts, fts) = choose|tt: Seq<char>, order: Seq<int>, kts: Seq<Seq<char>>, fts: Seq<Seq<char>>|
        #![trigger count_ranked(key_counts(stats.keys@), order), stats_object(label, stats, pct, mean, tt, kts, fts)]
        {
            &&& tally_json_as(stats.top_level@, tt)
            &&& count_ranked(key_counts(stats.keys@), order)
            &&& kts.len() == order.len()
            &&& forall|a: int|
                0 <= a < kts.len() ==> #[trigger] key_json_as(stats.keys@[order[a]], stats.valid, rate, kts[a])
            &&& fts.len() == stats.fields@.len()
            &&& forall|i: int|
                0 <= i < fts.len() ==> #[trigger] field_json_as(stats.fields@[i], stats.valid, top, rate, fts[i])
            &&& text == stats_object(label, stats, pct, mean, tt, kts, fts)
        };
    lemma_report_arrays(stats, top, rate, order, kts, fts);
    lemma_report_fields_read(label, stats, pct, mean, tt, kts, fts);
    let fields = report_fields(label, stats, pct, mean, tt, kts, fts);
    lemma_report_text(label, stats, pct, mean, tt, kts, fts);
    object_reads(fields);
    reads_as_parses(object_text(fields), JsonValue::Object(members_read(fields)));
    let ms = members_read(fields);
    assert(count_ranked(key_counts(stats.keys@), order));
    assert(kts.len() == stats.keys@.len());
    assert(ms[8].1 == JsonValue::Array(items_read(kts)));
    assert(ms[10].1 == JsonValue::Array(items_read(fts)));
}

proof fn lemma_negative_int_reads(n: i64)
    requires
        n < 0,
    ensures
        reads_as(crate::stats::int_text(n), JsonValue::Int(n)),
{
    reveal(number);
    reveal_strlit("-");
    let m: nat = (-n) as nat;
    lemma_decimal_shape(m);
    let d = decimal(m);
    let x = crate::stats::int_text(n);
    assert(x == seq!['-'] + d);
    assert(x[0] == '-');
    assert forall|i: int| 0 <= i < d.len() implies x[i + 1] == d[i] by {}
    assert(x.drop_first() =~= d);
    assert(is_digit(d[0]));
    assert(d[0] != '0');
    assert(has_at(x, 0, '-'));
    assert(all_digits(x.subrange(1, x.len() as int))) by {
        assert(x.subrange(1, x.len() as int) =~= d);
    }
    assert forall|i: int| 1 <= i < x.len() implies is_digit(#[trigger] x[i]) by {
        assert(x[i] == d[i - 1]);
    }
    lemma_skip_digits(x, 1);
    if skip_digits(x, 1) < x.len() {
        assert(is_digit(x[skip_digits(x, 1)]));
    }
    assert(int_part_end(x, 0, 1) == Ok::<int, (int, Seq<char>)>(x.len() as int));
    assert(x.subrange(0, x.len() as int) =~= x);
    assert(decimal_i64(x) == Some(n));
    assert(number(x, 0) == Ok::<(JsonValue, int), (int, Seq<char>)>((JsonValue::Int(n), x.len() as int)));
    assert(skip_ws(x, 0) == 0);
    assert forall|i: int| 0 <= i < x.len() implies #[trigger] x[i] != '\n' && x[i] != '\r' by {
        if i > 0 {
            assert(is_digit(x[i]));
        }
    }
    lemma_one_line_reads(x, JsonValue::Int(n));
}

/// A null, a boolean or an integer, as the `--field` distributions render
/// it, parses back as the very same JSON value.
pub proof fn scalar_renderings_parse_back(v: JsonValue)
    requires
        v is Null || v is Bool || v is Int,
    ensures
        parse_model(crate::stats::rendered(v)) == Ok::<JsonValue, crate::json::ErrorModel>(v),
{
    reveal_strlit("null");
    match v {
        JsonValue::Null => {
            let x = "null"@;
            assert(x.subrange(0, 4) =~= "null"@);
            assert(skip_ws(x, 0) == 0);
            assert(value(x, 0) == Ok::<(JsonValue, int), (int, Seq<char>)>((JsonValue::Null, 4)));
            assert(skip_ws(x, 4) == 4);
        },
        JsonValue::Bool(b) => {
            flag_reads(b);
            assert(crate::stats::rendered(v) == flag(b));
            reads_as_parses(flag(b), v);
        },
        JsonValue::Int(n) => {
            if n < 0 {
                lemma_negative_int_reads(n);
            } else {
                decimal_reads(n as nat);
            }
            reads_as_parses(crate::stats::rendered(v), v);
        },
        _ => {},
    }
}

/// Different nulls, booleans and integers never render alike, so a
/// distribution never merges two of them into one value.
pub proof fn scalar_renderings_differ(a: JsonValue, b: JsonValue)
    requires
        a is Null || a is Bool || a is Int,
        b is Null || b is Bool || b is Int,
        a != b,
    ensures
        crate::stats::rendered(a) != crate::stats::rendered(b),
{
    scalar_renderings_parse_back(a);
    scalar_renderings_parse_back(b);
}

} // verus!
