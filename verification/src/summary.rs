//! The `--json` report of a stats pass: every count, the key table by
//! descending count, each field's distribution and the kept issues, as one
//! pretty-printed JSON object.
//!
//! Figures that are floating point (line-length percentiles and mean, and the
//! rates) are formatted by the caller and handed in: the percentiles and the
//! mean as values, the rates through a function of the count and its total.

use vstd::prelude::*;
use crate::report::{json_object, json_array, json_string, object_text, array_text, quoted, pair_views, text_views};
use crate::stats::{JsonType, TypeTally, KeyStat, FieldStat, Stats, ParseIssue, type_label, ranked, value_order};
use crate::hist::{Histogram, smallest, largest};
use crate::text::{decimal, decimal_string, push_str};

verus! {

// ---------------------------------------------------------------------------
// Building blocks
// ---------------------------------------------------------------------------

fn owned(t: &str) -> (r: String)
    ensures
        r@ == t@,
{
    let mut r = String::new();
    push_str(&mut r, t);
    r
}

/// `true` or `false`.
pub open spec fn flag(b: bool) -> Seq<char> {
    if b {
        "true"@
    } else {
        "false"@
    }
}

fn flag_string(b: bool) -> (r: String)
    ensures
        r@ == flag(b),
{
    if b {
        owned("true")
    } else {
        owned("false")
    }
}

fn number(n: usize) -> (r: String)
    ensures
        r@ == decimal(n as nat),
{
    decimal_string(n as u64)
}

/// `s` is what `rate` renders for `n` out of `total`.
pub open spec fn rate_as<R: Fn(usize, usize) -> String>(rate: R, n: usize, total: usize, s: Seq<char>) -> bool {
    exists|out: String| #[trigger] rate.ensures((n, total), out) && out@ == s
}

fn rate_string<R: Fn(usize, usize) -> String>(rate: &R, n: usize, total: usize) -> (r: String)
    requires
        forall|a: usize, b: usize| #[trigger] rate.requires((a, b)),
    ensures
        rate_as(*rate, n, total, r@),
{
    let out = rate(n, total);
    assert(rate.ensures((n, total), out));
    out
}

/// The object of a tally listed in the order `order`: each kind's name with
/// its count.
pub open spec fn tally_object(s: Seq<(JsonType, usize)>, order: Seq<int>) -> Seq<char> {
    object_text(Seq::new(order.len(), |a: int| (type_label(s[order[a]].0), decimal(s[order[a]].1 as nat))))
}

/// `text` is the object of the tally `s`, most common kind first.
pub open spec fn tally_json_as(s: Seq<(JsonType, usize)>, text: Seq<char>) -> bool {
    exists|order: Seq<int>| #[trigger] ranked(s, order) && text == tally_object(s, order)
}

/// A tally as a JSON object: each kind's name with its count, most common
/// first.
pub fn json_type_tally(tally: &TypeTally) -> (r: String)
    ensures
        tally_json_as(tally@, r@),
{
    let sorted = tally.sorted();
    let ghost order = choose|order: Seq<int>|
        {
            &&& #[trigger] ranked(tally@, order)
            &&& sorted@.len() == order.len()
            &&& forall|a: int|
                0 <= a < order.len() ==> (#[trigger] sorted@[a]).0@ == type_label(tally@[order[a]].0)
                    && sorted@[a].1 == tally@[order[a]].1
        };
    let mut entries: Vec<(String, String)> = Vec::new();
    let mut i: usize = 0;
    while i < sorted.len()
        invariant
            i <= sorted@.len(),
            entries@.len() == i,
            forall|a: int|
                0 <= a < i ==> (#[trigger] entries@[a]).0@ == sorted@[a].0@ && entries@[a].1@ == decimal(
                    sorted@[a].1 as nat,
                ),
        decreases sorted@.len() - i,
    {
        let name = owned(sorted[i].0);
        let count = number(sorted[i].1);
        entries.push((name, count));
        i = i + 1;
    }
    let r = json_object(entries);
    assert(pair_views(entries@) =~= Seq::new(
        order.len(),
        |a: int| (type_label(tally@[order[a]].0), decimal(tally@[order[a]].1 as nat)),
    ));
    r
}

// ---------------------------------------------------------------------------
// Keys
// ---------------------------------------------------------------------------

/// `order` lists the positions of `counts`, largest first, ties in the order
/// of `counts`.
pub open spec fn count_ranked(counts: Seq<usize>, order: Seq<int>) -> bool {
    &&& order.len() == counts.len()
    &&& forall|a: int| 0 <= a < order.len() ==> 0 <= #[trigger] order[a] < counts.len()
    &&& forall|a: int, b: int|
        0 <= a < b < order.len() ==> counts[#[trigger] order[a]] > counts[#[trigger] order[b]] || (
        counts[order[a]] == counts[order[b]] && order[a] < order[b])
}

/// The counts of the keys of a table.
pub open spec fn key_counts(keys: Seq<KeyStat>) -> Seq<usize> {
    Seq::new(keys.len(), |i: int| keys[i].count)
}

/// The positions of `keys`, most often seen first; ties keep table order.
pub fn keys_by_count(keys: &Vec<KeyStat>) -> (r: Vec<usize>)
    ensures
        count_ranked(key_counts(keys@), Seq::new(r@.len(), |a: int| r@[a] as int)),
{
    let ghost cs = key_counts(keys@);
    let mut order: Vec<usize> = Vec::new();
    let mut i: usize = 0;
    while i < keys.len()
        invariant
            cs == key_counts(keys@),
            i <= keys@.len(),
            order@.len() == i,
            forall|a: int| 0 <= a < order@.len() ==> #[trigger] order@[a] < i,
            forall|a: int, b: int|
                0 <= a < b < order@.len() ==> cs[#[trigger] order@[a] as int] > cs[#[trigger] order@[b] as int]
                    || (cs[order@[a] as int] == cs[order@[b] as int] && order@[a] < order@[b]),
        decreases keys@.len() - i,
    {
        let c = keys[i].count;
        let mut pos: usize = 0;
        while pos < order.len() && keys[order[pos]].count >= c
            invariant
                cs == key_counts(keys@),
                i < keys@.len(),
                pos <= order@.len(),
                forall|a: int| 0 <= a < order@.len() ==> #[trigger] order@[a] < i,
                forall|a: int| 0 <= a < pos ==> cs[#[trigger] order@[a] as int] >= c,
            decreases order@.len() - pos,
        {
            pos = pos + 1;
        }
        let ghost before = order@;
        order.insert(pos, i);
        proof {
            assert(cs[i as int] == c);
            assert forall|a: int, b: int|
                0 <= a < b < order@.len() implies cs[#[trigger] order@[a] as int] > cs[#[trigger] order@[b] as int]
                    || (cs[order@[a] as int] == cs[order@[b] as int] && order@[a] < order@[b]) by {
                if b < pos {
                    assert(order@[a] == before[a] && order@[b] == before[b]);
                } else if b == pos {
                    assert(order@[a] == before[a]);
                } else if a == pos {
                    assert(order@[b] == before[b - 1]);
                    assert(cs[before[pos as int] as int] < c);
                } else if a < pos {
                    assert(order@[a] == before[a] && order@[b] == before[b - 1]);
                } else {
                    assert(order@[a] == before[a - 1] && order@[b] == before[b - 1]);
                }
            }
            assert forall|a: int| 0 <= a < order@.len() implies #[trigger] order@[a] < i + 1 by {
                if a < pos {
                    assert(order@[a] == before[a]);
                } else if a > pos {
                    assert(order@[a] == before[a - 1]);
                }
            }
        }
        i = i + 1;
    }
    let ghost oi = Seq::new(order@.len(), |a: int| order@[a] as int);
    assert(count_ranked(cs, oi));
    order
}

/// The object of one key: its name, count, rate and kinds.
pub open spec fn key_object(k: KeyStat, rate: Seq<char>, types: Seq<char>) -> Seq<char> {
    object_text(
        seq![
            ("key"@, quoted(k.key@)),
            ("count"@, decimal(k.count as nat)),
            ("rate"@, rate),
            ("types"@, types),
        ],
    )
}

/// `text` is the object of the key `k`, its rate rendered by `rate` out of
/// `valid` records.
pub open spec fn key_json_as<R: Fn(usize, usize) -> String>(
    k: KeyStat,
    valid: usize,
    rate: R,
    text: Seq<char>,
) -> bool {
    exists|rs: Seq<char>, ts: Seq<char>|
        #![trigger rate_as(rate, k.count, valid, rs), tally_json_as(k.types@, ts)]
        rate_as(rate, k.count, valid, rs) && tally_json_as(k.types@, ts) && text == key_object(k, rs, ts)
}

fn key_json<R: Fn(usize, usize) -> String>(key: &KeyStat, valid: usize, rate: &R) -> (r: String)
    requires
        forall|a: usize, b: usize| #[trigger] rate.requires((a, b)),
    ensures
        key_json_as(*key, valid, *rate, r@),
{
    let name = json_string(key.key.as_str());
    let count = number(key.count);
    let rs = rate_string(rate, key.count, valid);
    let ts = json_type_tally(&key.types);
    let mut fields: Vec<(String, String)> = Vec::new();
    let ghost (rv, tv) = (rs@, ts@);
    fields.push((owned("key"), name));
    fields.push((owned("count"), count));
    fields.push((owned("rate"), rs));
    fields.push((owned("types"), ts));
    let r = json_object(fields);
    assert(pair_views(fields@) =~= seq![
        ("key"@, quoted(key.key@)),
        ("count"@, decimal(key.count as nat)),
        ("rate"@, rv),
        ("types"@, tv),
    ]);
    assert(rate_as(*rate, key.count, valid, rv) && tally_json_as(key.types@, tv) && r@ == key_object(*key, rv, tv));
    r
}

// ---------------------------------------------------------------------------
// Fields
// ---------------------------------------------------------------------------

/// The array of a field's most common values, listed in the order `order`
/// and cut at `top`; each value with its count and its rate from `rates`.
pub open spec fn top_array(c: Seq<(Seq<char>, usize)>, order: Seq<int>, rates: Seq<Seq<char>>) -> Seq<char> {
    array_text(
        Seq::new(
            rates.len(),
            |a: int|
                object_text(
                    seq![
                        ("value"@, quoted(c[order[a]].0)),
                        ("count"@, decimal(c[order[a]].1 as nat)),
                        ("rate"@, rates[a]),
                    ],
                ),
        ),
    )
}

/// `text` is the array of the `top` most common values of the field `f`,
/// each rate rendered by `rate` out of the field's values.
pub open spec fn top_json_as<R: Fn(usize, usize) -> String>(f: FieldStat, top: usize, rate: R, text: Seq<char>) -> bool {
    exists|order: Seq<int>, rates: Seq<Seq<char>>|
        #![trigger value_order(f.counted(), order), top_array(f.counted(), order, rates)]
        {
            &&& value_order(f.counted(), order)
            &&& rates.len() == if top < order.len() {
                top as int
            } else {
                order.len() as int
            }
            &&& forall|a: int|
                0 <= a < rates.len() ==> #[trigger] rate_as(rate, f.counted()[order[a]].1, f.values, rates[a])
            &&& text == top_array(f.counted(), order, rates)
        }
}

/// The object of one field.
pub open spec fn field_object(f: FieldStat, rate: Seq<char>, types: Seq<char>, top: Seq<char>) -> Seq<char> {
    object_text(
        seq![
            ("path"@, quoted(f.path.text())),
            ("records_present"@, decimal(f.records_present as nat)),
            ("rate"@, rate),
            ("values"@, decimal(f.values as nat)),
            ("types"@, types),
            ("distinct_values"@, decimal(f.counted().len())),
            ("values_truncated"@, flag(f.values_truncated)),
            ("top"@, top),
        ],
    )
}

/// `text` is the object of the field `f`: its rate of presence out of
/// `valid` records and its `top` most common values.
pub open spec fn field_json_as<R: Fn(usize, usize) -> String>(
    f: FieldStat,
    valid: usize,
    top: usize,
    rate: R,
    text: Seq<char>,
) -> bool {
    exists|rs: Seq<char>, ts: Seq<char>, tops: Seq<char>|
        #![trigger rate_as(rate, f.records_present, valid, rs), tally_json_as(f.types@, ts), top_json_as(f, top, rate, tops)]
        {
            &&& rate_as(rate, f.records_present, valid, rs)
            &&& tally_json_as(f.types@, ts)
            &&& top_json_as(f, top, rate, tops)
            &&& text == field_object(f, rs, ts, tops)
        }
}

fn top_json<R: Fn(usize, usize) -> String>(field: &FieldStat, top: usize, rate: &R) -> (r: String)
    requires
        field.wf(),
        forall|a: usize, b: usize| #[trigger] rate.requires((a, b)),
    ensures
        top_json_as(*field, top, *rate, r@),
{
    let values = field.top(top);
    let ghost c = field.counted();
    let ghost order = choose|order: Seq<int>|
        {
            &&& #[trigger] value_order(c, order)
            &&& values@.len() == if top < order.len() {
                top as int
            } else {
                order.len() as int
            }
            &&& forall|a: int|
                0 <= a < values@.len() ==> (#[trigger] values@[a]).0@ == c[order[a]].0 && values@[a].1
                    == c[order[a]].1
        };
    let mut items: Vec<String> = Vec::new();
    let ghost mut rates: Seq<Seq<char>> = Seq::empty();
    let mut i: usize = 0;
    while i < values.len()
        invariant
            forall|a: usize, b: usize| #[trigger] rate.requires((a, b)),
            i <= values@.len(),
            items@.len() == i,
            rates.len() == i,
            forall|a: int|
                0 <= a < values@.len() ==> (#[trigger] values@[a]).0@ == c[order[a]].0 && values@[a].1
                    == c[order[a]].1,
            forall|a: int|
                0 <= a < i ==> #[trigger] rate_as(*rate, c[order[a]].1, field.values, rates[a]),
            forall|a: int|
                0 <= a < i ==> (#[trigger] items@[a])@ == object_text(
                    seq![
                        ("value"@, quoted(c[order[a]].0)),
                        ("count"@, decimal(c[order[a]].1 as nat)),
                        ("rate"@, rates[a]),
                    ],
                ),
        decreases values@.len() - i,
    {
        let value = json_string(values[i].0.as_str());
        let count = number(values[i].1);
        let rs = rate_string(rate, values[i].1, field.values);
        let ghost (vv, cv, rv) = (value@, count@, rs@);
        let mut fields: Vec<(String, String)> = Vec::new();
        fields.push((owned("value"), value));
        fields.push((owned("count"), count));
        fields.push((owned("rate"), rs));
        let item = json_object(fields);
        assert(pair_views(fields@) =~= seq![("value"@, vv), ("count"@, cv), ("rate"@, rv)]);
        items.push(item);
        proof {
            rates = rates.push(rv);
        }
        i = i + 1;
    }
    let r = json_array(items);
    assert(text_views(items@) =~= Seq::new(
        rates.len(),
        |a: int|
            object_text(
                seq![
                    ("value"@, quoted(c[order[a]].0)),
                    ("count"@, decimal(c[order[a]].1 as nat)),
                    ("rate"@, rates[a]),
                ],
            ),
    ));
    assert(value_order(c, order) && r@ == top_array(c, order, rates));
    r
}

fn field_json<R: Fn(usize, usize) -> String>(field: &FieldStat, valid: usize, top: usize, rate: &R) -> (r: String)
    requires
        field.wf(),
        forall|a: usize, b: usize| #[trigger] rate.requires((a, b)),
    ensures
        field_json_as(*field, valid, top, *rate, r@),
{
    let path = json_string(field.path.as_str());
    let present = number(field.records_present);
    let rs = rate_string(rate, field.records_present, valid);
    let values = number(field.values);
    let ts = json_type_tally(&field.types);
    let distinct = number(field.distinct_values());
    let truncated = flag_string(field.values_truncated);
    let tops = top_json(field, top, rate);
    let ghost (pv, prv, rv, vv, tv, dv, trv, topv) = (path@, present@, rs@, values@, ts@, distinct@, truncated@, tops@);
    let mut fields: Vec<(String, String)> = Vec::new();
    fields.push((owned("path"), path));
    fields.push((owned("records_present"), present));
    fields.push((owned("rate"), rs));
    fields.push((owned("values"), values));
    fields.push((owned("types"), ts));
    fields.push((owned("distinct_values"), distinct));
    fields.push((owned("values_truncated"), truncated));
    fields.push((owned("top"), tops));
    let r = json_object(fields);
    assert(pair_views(fields@) =~= seq![
        ("path"@, pv),
        ("records_present"@, prv),
        ("rate"@, rv),
        ("values"@, vv),
        ("types"@, tv),
        ("distinct_values"@, dv),
        ("values_truncated"@, trv),
        ("top"@, topv),
    ]);
    assert(rate_as(*rate, field.records_present, valid, rv) && tally_json_as(field.types@, tv) && top_json_as(
        *field,
        top,
        *rate,
        topv,
    ) && r@ == field_object(*field, rv, tv, topv));
    r
}

// ---------------------------------------------------------------------------
// Issues
// ---------------------------------------------------------------------------

/// The object of one kept issue.
pub open spec fn issue_object(i: ParseIssue) -> Seq<char> {
    object_text(
        seq![
            ("line"@, decimal(i.line as nat)),
            ("column"@, decimal(i.column as nat)),
            ("reason"@, quoted(i.reason@)),
        ],
    )
}

fn issue_json(issue: &ParseIssue) -> (r: String)
    ensures
        r@ == issue_object(*issue),
{
    let line = number(issue.line);
    let column = number(issue.column);
    let reason = json_string(issue.reason.as_str());
    let ghost (lv, cv, rv) = (line@, column@, reason@);
    let mut fields: Vec<(String, String)> = Vec::new();
    fields.push((owned("line"), line));
    fields.push((owned("column"), column));
    fields.push((owned("reason"), reason));
    let r = json_object(fields);
    assert(pair_views(fields@) =~= seq![("line"@, lv), ("column"@, cv), ("reason"@, rv)]);
    r
}

// ---------------------------------------------------------------------------
// The whole report
// ---------------------------------------------------------------------------

/// Line-length percentiles, as the histogram's `percentile` gives them.
pub struct Percentiles {
    pub p50: u64,
    pub p90: u64,
    pub p99: u64,
}

/// What a histogram reports as its minimum: 0 when empty.
pub open spec fn hist_min(h: Histogram) -> u64 {
    if h.values().len() == 0 {
        0
    } else {
        smallest(h.values())
    }
}

/// What a histogram reports as its maximum: 0 when empty.
pub open spec fn hist_max(h: Histogram) -> u64 {
    if h.values().len() == 0 {
        0
    } else {
        largest(h.values())
    }
}

/// The line-length object.
pub open spec fn length_object(h: Histogram, pct: Percentiles, mean: Seq<char>) -> Seq<char> {
    object_text(
        seq![
            ("min"@, decimal(hist_min(h) as nat)),
            ("p50"@, decimal(pct.p50 as nat)),
            ("p90"@, decimal(pct.p90 as nat)),
            ("p99"@, decimal(pct.p99 as nat)),
            ("max"@, decimal(hist_max(h) as nat)),
            ("mean"@, mean),
        ],
    )
}

/// The issues array.
pub open spec fn issues_array(issues: Seq<ParseIssue>) -> Seq<char> {
    array_text(Seq::new(issues.len(), |i: int| issue_object(issues[i])))
}

/// The report object, given the texts of the top-level tally, of the keys (in
/// report order) and of the fields.
pub open spec fn stats_object(
    label: Seq<char>,
    stats: Stats,
    pct: Percentiles,
    mean: Seq<char>,
    top_level: Seq<char>,
    keys: Seq<Seq<char>>,
    fields: Seq<Seq<char>>,
) -> Seq<char> {
    object_text(
        seq![
            ("file"@, quoted(label)),
            ("lines"@, decimal(stats.lines as nat)),
            ("blank"@, decimal(stats.blank as nat)),
            ("invalid"@, decimal(stats.invalid as nat)),
            ("valid"@, decimal(stats.valid as nat)),
            ("bytes"@, decimal(stats.bytes as nat)),
            ("top_level"@, top_level),
            ("line_length"@, length_object(stats.line_length, pct, mean)),
            ("keys"@, array_text(keys)),
            ("keys_truncated"@, flag(stats.keys_truncated)),
            ("fields"@, array_text(fields)),
            ("issues"@, issues_array(stats.issues@)),
            ("issues_truncated"@, flag(stats.invalid > stats.issues@.len())),
        ],
    )
}

/// `text` is the `--json` report of `stats` for the file `label`: the counts,
/// the top-level kinds, the line lengths (`pct` and `mean` as given), the
/// keys most common first (ties in table order), every field with its `top`
/// most common values, and the kept issues. Rates are rendered by `rate`.
pub open spec fn stats_json_as<R: Fn(usize, usize) -> String>(
    label: Seq<char>,
    stats: Stats,
    top: usize,
    pct: Percentiles,
    mean: Seq<char>,
    rate: R,
    text: Seq<char>,
) -> bool {
    exists|tt: Seq<char>, order: Seq<int>, kts: Seq<Seq<char>>, fts: Seq<Seq<char>>|
        #![trigger count_ranked(key_counts(stats.keys@), order), stats_object(label, stats, pct, mean, tt, kts, fts)]
        {
            &&& tally_json_as(stats.top_level@, tt)
            &&& count_ranked(key_counts(stats.keys@), order)
            &&& kts.len() == order.len()
            &&& forall|a: int|
                0 <= a < kts.len() ==> #[trigger] key_json_as(stats.keys@[order[a]], stats.valid, rate, kts[a])
            &&& fts.len() == stats.fields@.len()
            &&& forall|i: int|
                0 <= i < fts.len() ==> #[trigger] field_json_as(stats.fields@[i], stats.valid, top, rate, fts[i])
            &&& text == stats_object(label, stats, pct, mean, tt, kts, fts)
        }
}

/// Builds the `--json` report for `stats`.
pub fn stats_to_json<R: Fn(usize, usize) -> String>(
    file_label: &str,
    stats: &Stats,
    top: usize,
    pct: &Percentiles,
    mean: &str,
    rate: &R,
) -> (r: String)
    requires
        stats.wf(),
        forall|a: usize, b: usize| #[trigger] rate.requires((a, b)),
    ensures
        stats_json_as(file_label@, *stats, top, *pct, mean@, *rate, r@),
{
    let file = json_string(file_label);
    let lines = number(stats.lines);
    let blank = number(stats.blank);
    let invalid = number(stats.invalid);
    let valid = number(stats.valid);
    let bytes = decimal_string(stats.bytes);
    let top_level = json_type_tally(&stats.top_level);

    let min = decimal_string(stats.line_length.min());
    let p50 = decimal_string(pct.p50);
    let p90 = decimal_string(pct.p90);
    let p99 = decimal_string(pct.p99);
    let max = decimal_string(stats.line_length.max());
    let mean_text = owned(mean);
    let ghost (minv, p50v, p90v, p99v, maxv, meanv) = (min@, p50@, p90@, p99@, max@, mean_text@);
    let mut length: Vec<(String, String)> = Vec::new();
    length.push((owned("min"), min));
    length.push((owned("p50"), p50));
    length.push((owned("p90"), p90));
    length.push((owned("p99"), p99));
    length.push((owned("max"), max));
    length.push((owned("mean"), mean_text));
    let line_length = json_object(length);
    assert(pair_views(length@) =~= seq![
        ("min"@, minv),
        ("p50"@, p50v),
        ("p90"@, p90v),
        ("p99"@, p99v),
        ("max"@, maxv),
        ("mean"@, meanv),
    ]);
    assert(line_length@ == length_object(stats.line_length, *pct, mean@));

    let order = keys_by_count(&stats.keys);
    let ghost oi = Seq::new(order@.len(), |a: int| order@[a] as int);
    let mut key_items: Vec<String> = Vec::new();
    let mut i: usize = 0;
    while i < order.len()
        invariant
            forall|a: usize, b: usize| #[trigger] rate.requires((a, b)),
            count_ranked(key_counts(stats.keys@), oi),
            oi == Seq::new(order@.len(), |a: int| order@[a] as int),
            i <= order@.len(),
            key_items@.len() == i,
            forall|a: int|
                0 <= a < i ==> #[trigger] key_json_as(
                    stats.keys@[oi[a]],
                    stats.valid,
                    *rate,
                    key_items@[a]@,
                ),
        decreases order@.len() - i,
    {
        assert(oi[i as int] == order@[i as int] as int);
        assert(0 <= oi[i as int] < key_counts(stats.keys@).len());
        let item = key_json(&stats.keys[order[i]], stats.valid, rate);
        key_items.push(item);
        i = i + 1;
    }
    let ghost kts = text_views(key_items@);
    let keys = json_array(key_items);
    let keys_truncated = flag_string(stats.keys_truncated);

    let mut field_items: Vec<String> = Vec::new();
    let mut i: usize = 0;
    while i < stats.fields.len()
        invariant
            forall|a: usize, b: usize| #[trigger] rate.requires((a, b)),
            stats.wf(),
            i <= stats.fields@.len(),
            field_items@.len() == i,
            forall|a: int|
                0 <= a < i ==> #[trigger] field_json_as(
                    stats.fields@[a],
                    stats.valid,
                    top,
                    *rate,
                    field_items@[a]@,
                ),
        decreases stats.fields@.len() - i,
    {
        assert(stats.fields@[i as int].wf());
        let item = field_json(&stats.fields[i], stats.valid, top, rate);
        field_items.push(item);
        i = i + 1;
    }
    let ghost fts = text_views(field_items@);
    let fields = json_array(field_items);

    let mut issue_items: Vec<String> = Vec::new();
    let mut i: usize = 0;
    while i < stats.issues.len()
        invariant
            i <= stats.issues@.len(),
            issue_items@.len() == i,
            forall|a: int| 0 <= a < i ==> (#[trigger] issue_items@[a])@ == issue_object(stats.issues@[a]),
        decreases stats.issues@.len() - i,
    {
        issue_items.push(issue_json(&stats.issues[i]));
        i = i + 1;
    }
    assert(text_views(issue_items@) =~= Seq::new(stats.issues@.len(), |i: int| issue_object(stats.issues@[i])));
    let issues = json_array(issue_items);
    let issues_truncated = flag_string(stats.invalid > stats.issues.len());

    let ghost tt = top_level@;
    let ghost views = seq![
        ("file"@, file@),
        ("lines"@, lines@),
        ("blank"@, blank@),
        ("invalid"@, invalid@),
        ("valid"@, valid@),
        ("bytes"@, bytes@),
        ("top_level"@, tt),
        ("line_length"@, line_length@),
        ("keys"@, keys@),
        ("keys_truncated"@, keys_truncated@),
        ("fields"@, fields@),
        ("issues"@, issues@),
        ("issues_truncated"@, issues_truncated@),
    ];
    let mut all: Vec<(String, String)> = Vec::new();
    all.push((owned("file"), file));
    all.push((owned("lines"), lines));
    all.push((owned("blank"), blank));
    all.push((owned("invalid"), invalid));
    all.push((owned("valid"), valid));
    all.push((owned("bytes"), bytes));
    all.push((owned("top_level"), top_level));
    all.push((owned("line_length"), line_length));
    all.push((owned("keys"), keys));
    all.push((owned("keys_truncated"), keys_truncated));
    all.push((owned("fields"), fields));
    all.push((owned("issues"), issues));
    all.push((owned("issues_truncated"), issues_truncated));
    let r = json_object(all);
    assert(pair_views(all@) =~= views);
    assert(forall|a: int| 0 <= a < kts.len() ==> #[trigger] key_json_as(stats.keys@[oi[a]], stats.valid, *rate, kts[a]));
    assert(forall|a: int| 0 <= a < fts.len() ==> #[trigger] field_json_as(stats.fields@[a], stats.valid, top, *rate, fts[a]));
    assert(r@ == stats_object(file_label@, *stats, *pct, mean@, tt, kts, fts));
    r
}

} // verus!
