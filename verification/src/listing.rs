//! The human-readable report of a stats pass, as the lines to print: the
//! counts, the top-level kinds, line lengths, the key table most common first,
//! each field's distribution and the kept issues.
//!
//! Figures that are floating point (the byte size in units, the mean line
//! length and every percentage) are formatted by the caller and handed in:
//! the size and the mean as text, the percentages through a function of the
//! count and its total.

use vstd::prelude::*;
use crate::report::{format_count, grouped_decimal};
use crate::stats::{JsonType, TypeTally, KeyStat, FieldStat, Stats, ParseIssue, type_label, ranked, value_order};
use crate::summary::{Percentiles, rate_as, count_ranked, key_counts, keys_by_count, hist_min, hist_max};
use crate::text::{decimal, decimal_string, push_str, push_char, chars_of};

verus! {

fn owned(t: &str) -> (r: String)
    ensures
        r@ == t@,
{
    let mut r = String::new();
    push_str(&mut r, t);
    r
}

fn append(r: &mut String, t: &String)
    ensures
        final(r)@ == old(r)@ + t@,
{
    push_str(r, t.as_str());
}

/// Appends one line.
fn push_line(out: &mut Vec<String>, l: String)
    ensures
        crate::report::text_views(final(out)@) == crate::report::text_views(old(out)@).push(l@),
{
    let ghost v = l@;
    out.push(l);
    assert(crate::report::text_views(out@) =~= crate::report::text_views(old(out)@).push(v));
}

fn grouped(n: usize) -> (r: String)
    ensures
        r@ == grouped_decimal(n as nat),
{
    format_count(n as u64)
}

// ---------------------------------------------------------------------------
// Padding and joining
// ---------------------------------------------------------------------------

/// `n` spaces.
pub open spec fn spaces(n: int) -> Seq<char> {
    Seq::new(if n > 0 { n as nat } else { 0 }, |i: int| ' ')
}

/// `s` left-aligned in a column of `w` characters (`{:<w}`).
pub open spec fn pad_end(s: Seq<char>, w: int) -> Seq<char> {
    s + spaces(w - s.len())
}

/// `s` right-aligned in a column of `w` characters (`{:>w}`).
pub open spec fn pad_start(s: Seq<char>, w: int) -> Seq<char> {
    spaces(w - s.len()) + s
}

fn push_spaces(r: &mut String, n: usize)
    ensures
        final(r)@ == old(r)@ + spaces(n as int),
{
    let mut i: usize = 0;
    while i < n
        invariant
            i <= n,
            r@ == old(r)@ + spaces(i as int),
        decreases n - i,
    {
        push_char(r, ' ');
        i = i + 1;
        assert(r@ =~= old(r)@ + spaces(i as int));
    }
}

/// Appends `s` left-aligned in a column of `w` characters.
fn push_padded_end(r: &mut String, s: &String, w: usize)
    ensures
        final(r)@ == old(r)@ + pad_end(s@, w as int),
{
    let n = chars_of(s.as_str()).len();
    push_str(r, s.as_str());
    if n < w {
        push_spaces(r, w - n);
    } else {
        assert(spaces(w - s@.len()) =~= Seq::<char>::empty());
    }
}

/// Appends `s` right-aligned in a column of `w` characters.
fn push_padded_start(r: &mut String, s: &String, w: usize)
    ensures
        final(r)@ == old(r)@ + pad_start(s@, w as int),
{
    let n = chars_of(s.as_str()).len();
    if n < w {
        push_spaces(r, w - n);
    } else {
        assert(spaces(w - s@.len()) =~= Seq::<char>::empty());
    }
    push_str(r, s.as_str());
}

/// The pieces `items` with `sep` between each two.
pub open spec fn joined(items: Seq<Seq<char>>, sep: Seq<char>) -> Seq<char>
    decreases items.len(),
{
    if items.len() == 0 {
        Seq::empty()
    } else if items.len() == 1 {
        items[0]
    } else {
        joined(items.drop_last(), sep) + sep + items.last()
    }
}

// ---------------------------------------------------------------------------
// Tallies
// ---------------------------------------------------------------------------

/// The `name:count` pieces of a tally listed in the order `order`.
pub open spec fn tally_items(s: Seq<(JsonType, usize)>, order: Seq<int>) -> Seq<Seq<char>> {
    Seq::new(order.len(), |a: int| type_label(s[order[a]].0) + ":"@ + grouped_decimal(s[order[a]].1 as nat))
}

/// `text` lists the tally `s` as `name:count` pieces, most common first,
/// joined by `sep`.
pub open spec fn tally_text_as(s: Seq<(JsonType, usize)>, sep: Seq<char>, text: Seq<char>) -> bool {
    exists|order: Seq<int>| #[trigger] ranked(s, order) && text == joined(tally_items(s, order), sep)
}

fn tally_text(tally: &TypeTally, sep: &str) -> (r: String)
    ensures
        tally_text_as(tally@, sep@, r@),
{
    let sorted = tally.sorted();
    let ghost order = choose|order: Seq<int>|
        {
            &&& #[trigger] ranked(tally@, order)
            &&& sorted@.len() == order.len()
            &&& forall|a: int|
                0 <= a < order.len() ==> (#[trigger] sorted@[a]).0@ == type_label(tally@[order[a]].0)
                    && sorted@[a].1 == tally@[order[a]].1
        };
    let ghost items = tally_items(tally@, order);
    let mut r = String::new();
    let mut i: usize = 0;
    while i < sorted.len()
        invariant
            i <= sorted@.len(),
            items == tally_items(tally@, order),
            sorted@.len() == order.len(),
            forall|a: int|
                0 <= a < order.len() ==> (#[trigger] sorted@[a]).0@ == type_label(tally@[order[a]].0)
                    && sorted@[a].1 == tally@[order[a]].1,
            r@ == joined(items.take(i as int), sep@),
        decreases sorted@.len() - i,
    {
        if i > 0 {
            push_str(&mut r, sep);
        }
        push_str(&mut r, sorted[i].0);
        push_str(&mut r, ":");
        let count = grouped(sorted[i].1);
        append(&mut r, &count);
        proof {
            let t = items.take(i + 1);
            assert(t.drop_last() =~= items.take(i as int));
            assert(t.last() == items[i as int]);
        }
        i = i + 1;
    }
    assert(items.take(sorted@.len() as int) =~= items);
    r
}

// ---------------------------------------------------------------------------
// Keys
// ---------------------------------------------------------------------------

/// The line of one key: its name, count, percentage of the records and its
/// kinds.
pub open spec fn key_line(k: KeyStat, pct: Seq<char>, types: Seq<char>) -> Seq<char> {
    "  "@ + pad_end(k.key@, 28) + " "@ + pad_start(grouped_decimal(k.count as nat), 7) + "  "@ + pad_start(pct, 6)
        + "  "@ + types
}

/// `line` is the line of key `k`, its percentage rendered by `percent` out of
/// `valid` records.
pub open spec fn key_line_as<P: Fn(usize, usize) -> String>(k: KeyStat, valid: usize, percent: P, line: Seq<char>) -> bool {
    exists|ps: Seq<char>, ts: Seq<char>|
        #![trigger rate_as(percent, k.count, valid, ps), tally_text_as(k.types@, " "@, ts)]
        rate_as(percent, k.count, valid, ps) && tally_text_as(k.types@, " "@, ts) && line == key_line(k, ps, ts)
}

fn key_text<P: Fn(usize, usize) -> String>(key: &KeyStat, valid: usize, percent: &P) -> (r: String)
    requires
        forall|a: usize, b: usize| #[trigger] percent.requires((a, b)),
    ensures
        key_line_as(*key, valid, *percent, r@),
{
    let ps = percent(key.count, valid);
    assert(rate_as(*percent, key.count, valid, ps@));
    let ts = tally_text(&key.types, " ");
    let count = grouped(key.count);
    let mut r = owned("  ");
    push_padded_end(&mut r, &key.key, 28);
    push_str(&mut r, " ");
    push_padded_start(&mut r, &count, 7);
    push_str(&mut r, "  ");
    push_padded_start(&mut r, &ps, 6);
    push_str(&mut r, "  ");
    append(&mut r, &ts);
    assert(r@ =~= key_line(*key, ps@, ts@));
    r
}

// ---------------------------------------------------------------------------
// Fields
// ---------------------------------------------------------------------------

/// The line of one of a field's most common values.
pub open spec fn value_line(count: usize, pct: Seq<char>, value: Seq<char>) -> Seq<char> {
    "    "@ + pad_start(grouped_decimal(count as nat), 7) + "  "@ + pad_start(pct, 6) + "  "@ + value
}

/// The lines of a field, given its presence percentage, kinds, order of
/// values and the percentages of its listed values.
pub open spec fn field_lines(
    f: FieldStat,
    valid: usize,
    pct: Seq<char>,
    types: Seq<char>,
    order: Seq<int>,
    value_pcts: Seq<Seq<char>>,
) -> Seq<Seq<char>> {
    let c = f.counted();
    seq![
        Seq::empty(),
        "field "@ + f.path.text(),
        "  present in "@ + grouped_decimal(f.records_present as nat) + " of "@ + grouped_decimal(valid as nat)
            + " records ("@ + pct + "), "@ + grouped_decimal(f.values as nat) + " values, types "@ + types,
        "  "@ + grouped_decimal(c.len()) + " distinct values"@,
    ] + Seq::new(value_pcts.len(), |a: int| value_line(c[order[a]].1, value_pcts[a], c[order[a]].0)) + if f.values_truncated {
        seq!["  (distinct value limit reached, more values were seen)"@]
    } else {
        Seq::empty()
    }
}

/// `lines` are the lines of field `f`: where it is present out of `valid`
/// records, its kinds, and its `top` most common values, each percentage
/// rendered by `percent`.
pub open spec fn field_lines_as<P: Fn(usize, usize) -> String>(
    f: FieldStat,
    valid: usize,
    top: usize,
    percent: P,
    lines: Seq<Seq<char>>,
) -> bool {
    exists|ps: Seq<char>, ts: Seq<char>, order: Seq<int>, vps: Seq<Seq<char>>|
        #![trigger rate_as(percent, f.records_present, valid, ps), tally_text_as(f.types@, " "@, ts), value_order(f.counted(), order), field_lines(f, valid, ps, ts, order, vps)]
        {
            &&& rate_as(percent, f.records_present, valid, ps)
            &&& tally_text_as(f.types@, " "@, ts)
            &&& value_order(f.counted(), order)
            &&& vps.len() == if top < order.len() {
                top as int
            } else {
                order.len() as int
            }
            &&& forall|a: int|
                0 <= a < vps.len() ==> #[trigger] rate_as(percent, f.counted()[order[a]].1, f.values, vps[a])
            &&& lines == field_lines(f, valid, ps, ts, order, vps)
        }
}

fn field_text<P: Fn(usize, usize) -> String>(
    field: &FieldStat,
    valid: usize,
    top: usize,
    percent: &P,
    out: &mut Vec<String>,
)
    requires
        field.wf(),
        forall|a: usize, b: usize| #[trigger] percent.requires((a, b)),
    ensures
        exists|lines: Seq<Seq<char>>|
            #[trigger] field_lines_as(*field, valid, top, *percent, lines) && crate::report::text_views(final(out)@)
                == crate::report::text_views(old(out)@) + lines,
{
    let ghost start = crate::report::text_views(out@);
    let ghost c = field.counted();
    let ps = percent(field.records_present, valid);
    assert(rate_as(*percent, field.records_present, valid, ps@));
    let ts = tally_text(&field.types, " ");
    push_line(out, String::new());
    let mut l = owned("field ");
    push_str(&mut l, field.path.as_str());
    push_line(out, l);
    let mut l = owned("  present in ");
    append(&mut l, &grouped(field.records_present));
    push_str(&mut l, " of ");
    append(&mut l, &grouped(valid));
    push_str(&mut l, " records (");
    append(&mut l, &ps);
    push_str(&mut l, "), ");
    append(&mut l, &grouped(field.values));
    push_str(&mut l, " values, types ");
    append(&mut l, &ts);
    push_line(out, l);
    let mut l = owned("  ");
    append(&mut l, &grouped(field.distinct_values()));
    push_str(&mut l, " distinct values");
    push_line(out, l);
    let ghost head = seq![
        Seq::<char>::empty(),
        "field "@ + field.path.text(),
        "  present in "@ + grouped_decimal(field.records_present as nat) + " of "@ + grouped_decimal(valid as nat)
            + " records ("@ + ps@ + "), "@ + grouped_decimal(field.values as nat) + " values, types "@ + ts@,
        "  "@ + grouped_decimal(c.len()) + " distinct values"@,
    ];
    assert(crate::report::text_views(out@) =~= start + head);

    let values = field.top(top);
    let ghost order = choose|order: Seq<int>|
        {
            &&& #[trigger] value_order(c, order)
            &&& values@.len() == if top < order.len() {
                top as int
            } else {
                order.len() as int
            }
            &&& forall|a: int|
                0 <= a < values@.len() ==> (#[trigger] values@[a]).0@ == c[order[a]].0 && values@[a].1
                    == c[order[a]].1
        };
    let ghost mut vps: Seq<Seq<char>> = Seq::empty();
    let mut i: usize = 0;
    while i < values.len()
        invariant
            forall|a: usize, b: usize| #[trigger] percent.requires((a, b)),
            c == field.counted(),
            i <= values@.len(),
            vps.len() == i,
            forall|a: int|
                0 <= a < values@.len() ==> (#[trigger] values@[a]).0@ == c[order[a]].0 && values@[a].1
                    == c[order[a]].1,
            forall|a: int|
                0 <= a < i ==> #[trigger] rate_as(*percent, c[order[a]].1, field.values, vps[a]),
            crate::report::text_views(out@) == start + head + Seq::new(
                vps.len(),
                |a: int| value_line(c[order[a]].1, vps[a], c[order[a]].0),
            ),
        decreases values@.len() - i,
    {
        let vp = percent(values[i].1, field.values);
        assert(rate_as(*percent, values@[i as int].1, field.values, vp@));
        let mut l = owned("    ");
        push_padded_start(&mut l, &grouped(values[i].1), 7);
        push_str(&mut l, "  ");
        push_padded_start(&mut l, &vp, 6);
        push_str(&mut l, "  ");
        append(&mut l, &values[i].0);
        let ghost prev = vps;
        proof {
            vps = vps.push(vp@);
        }
        assert(l@ =~= value_line(c[order[i as int]].1, vp@, c[order[i as int]].0));
        push_line(out, l);
        assert(crate::report::text_views(out@) =~= start + head + Seq::new(
            vps.len(),
            |a: int| value_line(c[order[a]].1, vps[a], c[order[a]].0),
        ));
        i = i + 1;
    }
    if field.values_truncated {
        push_line(out, owned("  (distinct value limit reached, more values were seen)"));
    }
    let ghost lines = field_lines(*field, valid, ps@, ts@, order, vps);
    assert(crate::report::text_views(out@) =~= start + lines);
    assert(field_lines_as(*field, valid, top, *percent, lines));
}

// ---------------------------------------------------------------------------
// The whole report
// ---------------------------------------------------------------------------

/// The lines of the issues section.
pub open spec fn issue_lines(stats: Stats) -> Seq<Seq<char>> {
    if stats.invalid > 0 {
        seq![
            Seq::empty(),
            "invalid lines ("@ + grouped_decimal(stats.invalid as nat) + " total, showing "@ + decimal(
                stats.issues@.len(),
            ) + ")"@,
        ] + Seq::new(
            stats.issues@.len(),
            |i: int|
                "  line "@ + decimal(stats.issues@[i].line as nat) + " col "@ + decimal(
                    stats.issues@[i].column as nat,
                ) + ": "@ + stats.issues@[i].reason@,
        )
    } else {
        Seq::empty()
    }
}

/// The lines before the keys: file, counts, bytes, top-level kinds, and the
/// line-length section when there were non-blank lines.
pub open spec fn head_lines(
    label: Seq<char>,
    stats: Stats,
    pct: Percentiles,
    mean: Seq<char>,
    size: Seq<char>,
    top_level: Seq<char>,
) -> Seq<Seq<char>> {
    seq![
        "file    "@ + label,
        "lines   "@ + grouped_decimal(stats.lines as nat) + "   blank "@ + grouped_decimal(stats.blank as nat)
            + "   invalid "@ + grouped_decimal(stats.invalid as nat) + "   valid "@ + grouped_decimal(
            stats.valid as nat,
        ),
        "bytes   "@ + grouped_decimal(stats.bytes as nat) + "   ("@ + size + ")"@,
        "top level  "@ + top_level,
    ] + if stats.line_length.values().len() > 0 {
        seq![
            Seq::empty(),
            "line length in bytes"@,
            "  min "@ + decimal(hist_min(stats.line_length) as nat) + "   p50 "@ + decimal(pct.p50 as nat)
                + "   p90 "@ + decimal(pct.p90 as nat) + "   p99 "@ + decimal(pct.p99 as nat) + "   max "@
                + decimal(hist_max(stats.line_length) as nat) + "   mean "@ + mean,
        ]
    } else {
        Seq::empty()
    }
}

/// The key section, given the key lines in report order.
pub open spec fn key_section(stats: Stats, keys: Seq<Seq<char>>) -> Seq<Seq<char>> {
    if stats.keys@.len() > 0 {
        seq![Seq::empty(), "top level keys over "@ + grouped_decimal(stats.valid as nat) + " objects"@] + keys
            + if stats.keys_truncated {
            seq!["  (key table limit reached, more keys were seen)"@]
        } else {
            Seq::empty()
        }
    } else {
        Seq::empty()
    }
}

/// `lines` is the report of `stats` for the file `label`: `pct` and `mean`
/// are the line-length figures, `size` the byte count in units, and every
/// percentage is rendered by `percent`; keys are listed most common first
/// (ties in table order) and each field with its `top` most common values.
pub open spec fn report_lines_as<P: Fn(usize, usize) -> String>(
    label: Seq<char>,
    stats: Stats,
    top: usize,
    pct: Percentiles,
    mean: Seq<char>,
    size: Seq<char>,
    percent: P,
    lines: Seq<Seq<char>>,
) -> bool {
    exists|tt: Seq<char>, order: Seq<int>, kls: Seq<Seq<char>>, fls: Seq<Seq<char>>|
        #![trigger count_ranked(key_counts(stats.keys@), order), head_lines(label, stats, pct, mean, size, tt), key_section(stats, kls), fields_as(stats, top, percent, fls)]
        {
            &&& tally_text_as(stats.top_level@, ", "@, tt)
            &&& count_ranked(key_counts(stats.keys@), order)
            &&& kls.len() == order.len()
            &&& forall|a: int|
                0 <= a < kls.len() ==> #[trigger] key_line_as(stats.keys@[order[a]], stats.valid, percent, kls[a])
            &&& fields_as(stats, top, percent, fls)
            &&& lines == head_lines(label, stats, pct, mean, size, tt) + key_section(stats, kls) + fls + issue_lines(stats)
        }
}

/// The sections `ss`, one after the other.
pub open spec fn concat(ss: Seq<Seq<Seq<char>>>) -> Seq<Seq<char>>
    decreases ss.len(),
{
    if ss.len() == 0 {
        Seq::empty()
    } else {
        concat(ss.drop_last()) + ss.last()
    }
}

/// `lines` are the sections of the fields of `stats`, one after the other.
pub open spec fn fields_as<P: Fn(usize, usize) -> String>(stats: Stats, top: usize, percent: P, lines: Seq<Seq<char>>) -> bool {
    exists|sections: Seq<Seq<Seq<char>>>|
        #![trigger concat(sections), sections_as(stats, top, percent, sections)]
        sections_as(stats, top, percent, sections) && lines == concat(sections)
}

/// `sections` holds the section of each field of `stats`, in the order of the fields.
pub open spec fn sections_as<P: Fn(usize, usize) -> String>(
    stats: Stats,
    top: usize,
    percent: P,
    sections: Seq<Seq<Seq<char>>>,
) -> bool {
    &&& sections.len() == stats.fields@.len()
    &&& forall|i: int|
        0 <= i < sections.len() ==> #[trigger] field_lines_as(stats.fields@[i], stats.valid, top, percent, sections[i])
}

/// The report of `stats` for the file `label`, as the lines to print.
#[verifier::rlimit(60)]
pub fn stats_report<P: Fn(usize, usize) -> String>(
    file_label: &str,
    stats: &Stats,
    top: usize,
    pct: &Percentiles,
    mean: &str,
    size: &str,
    percent: &P,
) -> (r: Vec<String>)
    requires
        stats.wf(),
        forall|a: usize, b: usize| #[trigger] percent.requires((a, b)),
    ensures
        report_lines_as(file_label@, *stats, top, *pct, mean@, size@, *percent, crate::report::text_views(r@)),
{
    let mut out: Vec<String> = Vec::new();
    let mut l = owned("file    ");
    push_str(&mut l, file_label);
    push_line(&mut out, l);
    let mut l = owned("lines   ");
    append(&mut l, &grouped(stats.lines));
    push_str(&mut l, "   blank ");
    append(&mut l, &grouped(stats.blank));
    push_str(&mut l, "   invalid ");
    append(&mut l, &grouped(stats.invalid));
    push_str(&mut l, "   valid ");
    append(&mut l, &grouped(stats.valid));
    push_line(&mut out, l);
    let mut l = owned("bytes   ");
    append(&mut l, &format_count(stats.bytes));
    push_str(&mut l, "   (");
    push_str(&mut l, size);
    push_str(&mut l, ")");
    push_line(&mut out, l);
    let tt = tally_text(&stats.top_level, ", ");
    let mut l = owned("top level  ");
    append(&mut l, &tt);
    push_line(&mut out, l);
    if stats.line_length.count() > 0 {
        push_line(&mut out, String::new());
        push_line(&mut out, owned("line length in bytes"));
        let mut l = owned("  min ");
        append(&mut l, &decimal_string(stats.line_length.min()));
        push_str(&mut l, "   p50 ");
        append(&mut l, &decimal_string(pct.p50));
        push_str(&mut l, "   p90 ");
        append(&mut l, &decimal_string(pct.p90));
        push_str(&mut l, "   p99 ");
        append(&mut l, &decimal_string(pct.p99));
        push_str(&mut l, "   max ");
        append(&mut l, &decimal_string(stats.line_length.max()));
        push_str(&mut l, "   mean ");
        push_str(&mut l, mean);
        push_line(&mut out, l);
    }
    let ghost head = head_lines(file_label@, *stats, *pct, mean@, size@, tt@);
    assert(crate::report::text_views(out@) =~= head);

    let order = keys_by_count(&stats.keys);
    let ghost oi = Seq::new(order@.len(), |a: int| order@[a] as int);
    let ghost mut kls: Seq<Seq<char>> = Seq::empty();
    if stats.keys.len() > 0 {
        push_line(&mut out, String::new());
        let mut l = owned("top level keys over ");
        append(&mut l, &grouped(stats.valid));
        push_str(&mut l, " objects");
        push_line(&mut out, l);
    }
    let ghost keys_head = if stats.keys@.len() > 0 {
        seq![Seq::<char>::empty(), "top level keys over "@ + grouped_decimal(stats.valid as nat) + " objects"@]
    } else {
        Seq::<Seq<char>>::empty()
    };
    assert(crate::report::text_views(out@) =~= head + keys_head);
    let mut i: usize = 0;
    while i < order.len()
        invariant
            forall|a: usize, b: usize| #[trigger] percent.requires((a, b)),
            count_ranked(key_counts(stats.keys@), oi),
            oi == Seq::new(order@.len(), |a: int| order@[a] as int),
            i <= order@.len(),
            kls.len() == i,
            forall|a: int|
                0 <= a < i ==> #[trigger] key_line_as(stats.keys@[oi[a]], stats.valid, *percent, kls[a]),
            crate::report::text_views(out@) == head + keys_head + kls,
        decreases order@.len() - i,
    {
        assert(oi[i as int] == order@[i as int] as int);
        assert(0 <= oi[i as int] < key_counts(stats.keys@).len());
        let line = key_text(&stats.keys[order[i]], stats.valid, percent);
        proof {
            kls = kls.push(line@);
        }
        push_line(&mut out, line);
        assert(crate::report::text_views(out@) =~= head + keys_head + kls);
        i = i + 1;
    }
    if stats.keys.len() > 0 && stats.keys_truncated {
        push_line(&mut out, owned("  (key table limit reached, more keys were seen)"));
    }
    assert(order@.len() == stats.keys@.len());
    assert(crate::report::text_views(out@) =~= head + key_section(*stats, kls));

    let ghost mut sections: Seq<Seq<Seq<char>>> = Seq::empty();
    let ghost before_fields = head + key_section(*stats, kls);
    assert(crate::report::text_views(out@) =~= before_fields + concat(sections));
    let mut i: usize = 0;
    while i < stats.fields.len()
        invariant
            forall|a: usize, b: usize| #[trigger] percent.requires((a, b)),
            stats.wf(),
            i <= stats.fields@.len(),
            sections.len() == i,
            forall|k: int|
                0 <= k < sections.len() ==> #[trigger] field_lines_as(
                    stats.fields@[k],
                    stats.valid,
                    top,
                    *percent,
                    sections[k],
                ),
            crate::report::text_views(out@) == before_fields + concat(sections),
        decreases stats.fields@.len() - i,
    {
        assert(stats.fields@[i as int].wf());
        let ghost prev = crate::report::text_views(out@);
        field_text(&stats.fields[i], stats.valid, top, percent, &mut out);
        proof {
            let section = choose|lines: Seq<Seq<char>>|
                #[trigger] field_lines_as(stats.fields@[i as int], stats.valid, top, *percent, lines)
                    && crate::report::text_views(out@) == prev + lines;
            let old_sections = sections;
            sections = sections.push(section);
            assert(sections.drop_last() =~= old_sections);
            assert(crate::report::text_views(out@) =~= before_fields + concat(sections));
        }
        i = i + 1;
    }
    assert(sections_as(*stats, top, *percent, sections));

    if stats.invalid > 0 {
        push_line(&mut out, String::new());
        let mut l = owned("invalid lines (");
        append(&mut l, &grouped(stats.invalid));
        push_str(&mut l, " total, showing ");
        append(&mut l, &decimal_string(stats.issues.len() as u64));
        push_str(&mut l, ")");
        push_line(&mut out, l);
        let ghost issues_head = crate::report::text_views(out@);
        let mut i: usize = 0;
        while i < stats.issues.len()
            invariant
                i <= stats.issues@.len(),
                crate::report::text_views(out@) == issues_head + Seq::new(
                    i as nat,
                    |k: int|
                        "  line "@ + decimal(stats.issues@[k].line as nat) + " col "@ + decimal(
                            stats.issues@[k].column as nat,
                        ) + ": "@ + stats.issues@[k].reason@,
                ),
            decreases stats.issues@.len() - i,
        {
            let mut l = owned("  line ");
            append(&mut l, &decimal_string(stats.issues[i].line as u64));
            push_str(&mut l, " col ");
            append(&mut l, &decimal_string(stats.issues[i].column as u64));
            push_str(&mut l, ": ");
            append(&mut l, &stats.issues[i].reason);
            push_line(&mut out, l);
            i = i + 1;
            assert(crate::report::text_views(out@) =~= issues_head + Seq::new(
                i as nat,
                |k: int|
                    "  line "@ + decimal(stats.issues@[k].line as nat) + " col "@ + decimal(
                        stats.issues@[k].column as nat,
                    ) + ": "@ + stats.issues@[k].reason@,
            ));
        }
    }
    let ghost fls = concat(sections);
    assert(crate::report::text_views(out@) =~= head + key_section(*stats, kls) + fls + issue_lines(*stats));
    assert(fields_as(*stats, top, *percent, fls));
    out
}

/// Whenever the key table is not empty, the key section of the text report
/// opens, after the head and a blank line, with the number of valid records
/// the key rates are taken over, thousands grouped: the same whatever the
/// size of the key table, and without its commas the plain decimal of
/// `stats.valid`.
pub proof fn key_heading_counts_valid_records<P: Fn(usize, usize) -> String>(
    label: Seq<char>,
    stats: Stats,
    top: usize,
    pct: Percentiles,
    mean: Seq<char>,
    size: Seq<char>,
    percent: P,
    lines: Seq<Seq<char>>,
)
    requires
        report_lines_as(label, stats, top, pct, mean, size, percent, lines),
        stats.keys@.len() > 0,
    ensures
        ({
            let h: int = if stats.line_length.values().len() > 0 {
                7
            } else {
                4
            };
            &&& lines.len() > h + 1
            &&& lines[h] == Seq::<char>::empty()
            &&& lines[h + 1] == "top level keys over "@ + grouped_decimal(stats.valid as nat) + " objects"@
            &&& crate::report::without_commas(grouped_decimal(stats.valid as nat)) == decimal(stats.valid as nat)
        }),
{
    let (tt, order, kls, fls) = choose|tt: Seq<char>, order: Seq<int>, kls: Seq<Seq<char>>, fls: Seq<Seq<char>>|
        #![trigger count_ranked(key_counts(stats.keys@), order), head_lines(label, stats, pct, mean, size, tt), key_section(stats, kls), fields_as(stats, top, percent, fls)]
        {
            &&& tally_text_as(stats.top_level@, ", "@, tt)
            &&& count_ranked(key_counts(stats.keys@), order)
            &&& kls.len() == order.len()
            &&& forall|a: int|
                0 <= a < kls.len() ==> #[trigger] key_line_as(stats.keys@[order[a]], stats.valid, percent, kls[a])
            &&& fields_as(stats, top, percent, fls)
            &&& lines == head_lines(label, stats, pct, mean, size, tt) + key_section(stats, kls) + fls + issue_lines(stats)
        };
    let head = head_lines(label, stats, pct, mean, size, tt);
    let ks = key_section(stats, kls);
    let h: int = if stats.line_length.values().len() > 0 {
        7
    } else {
        4
    };
    assert(head.len() == h);
    assert(ks.len() >= 2);
    assert(lines[h] == ks[0]);
    assert(lines[h + 1] == ks[1]);
    crate::report::grouping_keeps_the_digits(stats.valid as nat);
}

} // verus!
