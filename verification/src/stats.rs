//! Single-pass health check for a JSONL file: record counts, the top-level
//! key table, line-length percentiles and optional per-field value
//! distributions. [`Stats::record_line`] folds one line into the running
//! counts; the caller reads the file line by line and formats what comes out.

use vstd::prelude::*;
use crate::json::{JsonValue, Value, ErrorModel, nodes, nodes_of_items, nodes_of_members, parse_model};
use crate::hist::{Histogram, total};
use vstd::utf8::{valid_utf8, decode_utf8};
use crate::path::{FieldPath, Segment, SegmentModel, segment_models};
use crate::text::{decimal, decimal_string, push_str, chars_of, utf8_text, valid_up_to};
use crate::index::{TextIndex, hash_text, text_hash};

verus! {

// ---------------------------------------------------------------------------
// JSON types and their tally
// ---------------------------------------------------------------------------

/// The seven kinds of JSON value the reports tell apart.
#[derive(Clone, Copy, PartialEq, Eq, Structural, Debug)]
pub enum JsonType {
    Null,
    Bool,
    Int,
    Float,
    String,
    Array,
    Object,
}

/// The kind of a value.
pub open spec fn type_of(v: JsonValue) -> JsonType {
    match v {
        JsonValue::Null => JsonType::Null,
        JsonValue::Bool(_) => JsonType::Bool,
        JsonValue::Int(_) => JsonType::Int,
        JsonValue::Float(_) => JsonType::Float,
        JsonValue::Str(_) => JsonType::String,
        JsonValue::Array(_) => JsonType::Array,
        JsonValue::Object(_) => JsonType::Object,
    }
}

/// The name a report gives a kind of value.
pub open spec fn type_label(t: JsonType) -> Seq<char> {
    match t {
        JsonType::Null => "null"@,
        JsonType::Bool => "bool"@,
        JsonType::Int => "int"@,
        JsonType::Float => "float"@,
        JsonType::String => "string"@,
        JsonType::Array => "array"@,
        JsonType::Object => "object"@,
    }
}

impl JsonType {
    /// The name a report gives this kind of value.
    pub fn name(self) -> (r: &'static str)
        ensures
            r@ == type_label(self),
    {
        match self {
            JsonType::Null => "null",
            JsonType::Bool => "bool",
            JsonType::Int => "int",
            JsonType::Float => "float",
            JsonType::String => "string",
            JsonType::Array => "array",
            JsonType::Object => "object",
        }
    }
}

/// The kind of `value`.
pub fn json_type(value: &Value) -> (r: JsonType)
    ensures
        r == type_of(value.model()),
{
    match value {
        Value::Null => JsonType::Null,
        Value::Bool(_) => JsonType::Bool,
        Value::Int(_) => JsonType::Int,
        Value::Float(_) => JsonType::Float,
        Value::String(_) => JsonType::String,
        Value::Array(_) => JsonType::Array,
        Value::Object(_) => JsonType::Object,
    }
}

/// A tally lists each kind at most once, with a positive count.
pub open spec fn tally_wf(s: Seq<(JsonType, usize)>) -> bool {
    &&& forall|i: int, j: int|
        0 <= i < s.len() && 0 <= j < s.len() && i != j ==> #[trigger] s[i].0 != #[trigger] s[j].0
    &&& forall|i: int| 0 <= i < s.len() ==> #[trigger] s[i].1 >= 1
}

/// How many values of kind `t` the tally `s` has counted.
pub open spec fn count_in(s: Seq<(JsonType, usize)>, t: JsonType) -> nat {
    if exists|i: int| 0 <= i < s.len() && s[i].0 == t {
        s[choose|i: int| 0 <= i < s.len() && s[i].0 == t].1 as nat
    } else {
        0
    }
}

/// The tally `s` after one more value of kind `t`: its count goes up by
/// one, and a kind seen for the first time joins at the end with count 1.
pub open spec fn tally_add(s: Seq<(JsonType, usize)>, t: JsonType) -> Seq<(JsonType, usize)> {
    if exists|i: int| 0 <= i < s.len() && s[i].0 == t {
        let i = choose|i: int| 0 <= i < s.len() && s[i].0 == t;
        s.update(i, (t, (s[i].1 + 1) as usize))
    } else {
        s.push((t, 1usize))
    }
}

/// The number of values a tally has counted, over all kinds.
pub open spec fn tally_total(s: Seq<(JsonType, usize)>) -> nat
    decreases s.len(),
{
    if s.len() == 0 {
        0
    } else {
        tally_total(s.drop_last()) + s.last().1 as nat
    }
}

proof fn lemma_tally_total_update(s: Seq<(JsonType, usize)>, i: int, x: (JsonType, usize))
    requires
        0 <= i < s.len(),
    ensures
        tally_total(s.update(i, x)) == tally_total(s) - s[i].1 + x.1,
    decreases s.len(),
{
    if i < s.len() - 1 {
        lemma_tally_total_update(s.drop_last(), i, x);
        assert(s.update(i, x).drop_last() =~= s.drop_last().update(i, x));
    } else {
        assert(s.update(i, x).drop_last() =~= s.drop_last());
    }
}

/// Counting one more value raises the tally's total by one.
pub proof fn lemma_tally_add_total(s: Seq<(JsonType, usize)>, t: JsonType)
    requires
        tally_wf(s),
        count_in(s, t) < usize::MAX,
    ensures
        tally_total(tally_add(s, t)) == tally_total(s) + 1,
{
    if exists|i: int| 0 <= i < s.len() && s[i].0 == t {
        let i = choose|i: int| 0 <= i < s.len() && s[i].0 == t;
        assert(count_in(s, t) == s[i].1);
        assert((s[i].1 + 1) as usize == s[i].1 + 1);
        lemma_tally_total_update(s, i, (t, (s[i].1 + 1) as usize));
        assert(tally_add(s, t) == s.update(i, (t, (s[i].1 + 1) as usize)));
    } else {
        assert(s.push((t, 1usize)).drop_last() =~= s);
    }
}

/// `i` comes before `j` when the counts of `s` are listed most common first,
/// ties kept in the order of `s`.
pub open spec fn ranks_before(s: Seq<(JsonType, usize)>, i: int, j: int) -> bool {
    s[i].1 > s[j].1 || (s[i].1 == s[j].1 && i < j)
}

/// `order` lists the positions of `s`, most common first, ties in the order
/// of `s`.
pub open spec fn ranked(s: Seq<(JsonType, usize)>, order: Seq<int>) -> bool {
    &&& order.len() == s.len()
    &&& forall|a: int| 0 <= a < order.len() ==> 0 <= #[trigger] order[a] < s.len()
    &&& forall|a: int, b: int|
        0 <= a < b < order.len() ==> ranks_before(s, #[trigger] order[a], #[trigger] order[b])
}

/// A count per kind of JSON value, kept in first-seen order internally and
/// handed out sorted by descending count for reporting.
#[derive(Clone)]
pub struct TypeTally {
    counts: Vec<(JsonType, usize)>,
}

impl View for TypeTally {
    type V = Seq<(JsonType, usize)>;

    closed spec fn view(&self) -> Seq<(JsonType, usize)> {
        self.counts@
    }
}

impl Default for TypeTally {
    fn default() -> (r: TypeTally)
        ensures
            r@ == Seq::<(JsonType, usize)>::empty(),
    {
        TypeTally::new()
    }
}

impl TypeTally {
    /// An empty tally.
    pub fn new() -> (r: TypeTally)
        ensures
            r@ == Seq::<(JsonType, usize)>::empty(),
    {
        TypeTally { counts: Vec::new() }
    }

    /// Counts one more value of kind `t`.
    pub fn record(&mut self, t: JsonType)
        requires
            tally_wf(old(self)@),
            count_in(old(self)@, t) < usize::MAX,
        ensures
            tally_wf(final(self)@),
            final(self)@ == tally_add(old(self)@, t),
            count_in(final(self)@, t) == count_in(old(self)@, t) + 1,
    {
        let ghost s = self.counts@;
        let mut i: usize = 0;
        while i < self.counts.len()
            invariant
                self.counts@ == s,
                s == old(self)@,
                tally_wf(s),
                count_in(s, t) < usize::MAX,
                i <= s.len(),
                forall|k: int| 0 <= k < i ==> (#[trigger] s[k]).0 != t,
            decreases s.len() - i,
        {
            if self.counts[i].0 == t {
                let c = self.counts[i].1;
                proof {
                    assert(s[i as int].0 == t);
                    let j = choose|j: int| 0 <= j < s.len() && s[j].0 == t;
                    assert(s[j].0 == t);
                    assert(j == i);
                }
                self.counts.set(i, (t, c + 1));
                proof {
                    let n = self.counts@;
                    assert(exists|j: int| 0 <= j < n.len() && n[j].0 == t) by {
                        assert(n[i as int].0 == t);
                    }
                    let j = choose|j: int| 0 <= j < n.len() && n[j].0 == t;
                    assert(n[j].0 == t);
                    assert(j == i);
                    assert(n == tally_add(s, t));
                }
                return;
            }
            i = i + 1;
        }
        self.counts.push((t, 1));
        proof {
            let n = self.counts@;
            assert(exists|j: int| 0 <= j < n.len() && n[j].0 == t) by {
                assert(n[s.len() as int].0 == t);
            }
            let j = choose|j: int| 0 <= j < n.len() && n[j].0 == t;
            assert(j == s.len());
        }
    }

    /// `(type name, count)` pairs, most common first; ties keep the order in
    /// which the type was first seen.
    pub fn sorted(&self) -> (r: Vec<(&'static str, usize)>)
        ensures
            exists|order: Seq<int>|
                {
                    &&& #[trigger] ranked(self@, order)
                    &&& r@.len() == order.len()
                    &&& forall|a: int|
                        0 <= a < order.len() ==> (#[trigger] r@[a]).0@ == type_label(
                            self@[order[a]].0,
                        ) && r@[a].1 == self@[order[a]].1
                },
    {
        let s = &self.counts;
        let mut order: Vec<usize> = Vec::new();
        let mut i: usize = 0;
        while i < s.len()
            invariant
                i <= s@.len(),
                order@.len() == i,
                forall|a: int| 0 <= a < order@.len() ==> #[trigger] order@[a] < i,
                forall|a: int, b: int|
                    0 <= a < b < order@.len() ==> ranks_before(
                        s@,
                        #[trigger] order@[a] as int,
                        #[trigger] order@[b] as int,
                    ),
            decreases s@.len() - i,
        {
            let c = s[i].1;
            let mut pos: usize = 0;
            while pos < order.len() && s[order[pos]].1 >= c
                invariant
                    i < s@.len(),
                    pos <= order@.len(),
                    forall|a: int| 0 <= a < order@.len() ==> #[trigger] order@[a] < i,
                    forall|a: int| 0 <= a < pos ==> s@[#[trigger] order@[a] as int].1 >= c,
                decreases order@.len() - pos,
            {
                pos = pos + 1;
            }
            let ghost before = order@;
            order.insert(pos, i);
            proof {
                assert forall|a: int, b: int|
                    0 <= a < b < order@.len() implies ranks_before(
                    s@,
                    #[trigger] order@[a] as int,
                    #[trigger] order@[b] as int,
                ) by {
                    if b < pos {
                        assert(order@[a] == before[a] && order@[b] == before[b]);
                    } else if b == pos {
                        assert(order@[a] == before[a]);
                    } else if a == pos {
                        assert(order@[b] == before[b - 1]);
                        assert(s@[before[pos as int] as int].1 < c);
                        if b - 1 > pos {
                            assert(ranks_before(s@, before[pos as int] as int, before[b - 1] as int));
                        }
                    } else if a < pos {
                        assert(order@[a] == before[a] && order@[b] == before[b - 1]);
                    } else {
                        assert(order@[a] == before[a - 1] && order@[b] == before[b - 1]);
                    }
                }
                assert forall|a: int| 0 <= a < order@.len() implies #[trigger] order@[a] < i + 1 by {
                    if a < pos {
                        assert(order@[a] == before[a]);
                    } else if a > pos {
                        assert(order@[a] == before[a - 1]);
                    }
                }
            }
            i = i + 1;
        }
        let mut r: Vec<(&'static str, usize)> = Vec::new();
        let mut a: usize = 0;
        while a < order.len()
            invariant
                order@.len() == s@.len(),
                forall|k: int| 0 <= k < order@.len() ==> #[trigger] order@[k] < s@.len(),
                a <= order@.len(),
                r@.len() == a,
                forall|k: int|
                    0 <= k < a ==> (#[trigger] r@[k]).0@ == type_label(s@[order@[k] as int].0)
                        && r@[k].1 == s@[order@[k] as int].1,
            decreases order@.len() - a,
        {
            let j = order[a];
            r.push((s[j].0.name(), s[j].1));
            a = a + 1;
        }
        let ghost order_int = Seq::new(order@.len(), |k: int| order@[k] as int);
        assert(ranked(self@, order_int));
        r
    }
}

// ---------------------------------------------------------------------------
// Walking a value along a field path
// ---------------------------------------------------------------------------

/// Everything the segments `segs` select in `v`, in document order: a key
/// selects every member of an object with that name, an index one element of
/// an array (a negative one counts from the end), `[]` fans out over every
/// element. A segment that does not fit the shape of the value selects
/// nothing.
pub open spec fn walk(v: JsonValue, segs: Seq<SegmentModel>) -> Seq<JsonValue>
    decreases v,
{
    if segs.len() == 0 {
        seq![v]
    } else {
        let rest = segs.drop_first();
        match segs[0] {
            SegmentModel::Key(k) => match v {
                JsonValue::Object(entries) => walk_members(entries, k, rest),
                _ => Seq::empty(),
            },
            SegmentModel::Index(i) => match v {
                JsonValue::Array(items) => {
                    let idx: int = if i < 0 {
                        i + items.len()
                    } else {
                        i as int
                    };
                    if 0 <= idx < items.len() {
                        walk(items[idx], rest)
                    } else {
                        Seq::empty()
                    }
                },
                _ => Seq::empty(),
            },
            SegmentModel::Every => match v {
                JsonValue::Array(items) => walk_items(items, rest),
                _ => Seq::empty(),
            },
        }
    }
}

/// What `segs` selects in each of `items`, one after the other.
pub open spec fn walk_items(items: Seq<JsonValue>, segs: Seq<SegmentModel>) -> Seq<JsonValue>
    decreases items,
{
    if items.len() == 0 {
        Seq::empty()
    } else {
        walk_items(items.subrange(0, items.len() - 1), segs) + walk(items[items.len() - 1], segs)
    }
}

/// What `segs` selects in the value of each member of `entries` named `k`,
/// one after the other.
pub open spec fn walk_members(
    entries: Seq<(Seq<char>, JsonValue)>,
    k: Seq<char>,
    segs: Seq<SegmentModel>,
) -> Seq<JsonValue>
    decreases entries,
{
    if entries.len() == 0 {
        Seq::empty()
    } else {
        walk_members(entries.subrange(0, entries.len() - 1), k, segs) + if entries[entries.len()
            - 1].0 == k {
            walk(entries[entries.len() - 1].1, segs)
        } else {
            Seq::empty()
        }
    }
}

/// The models of a run of borrowed values.
pub open spec fn ref_models(r: Seq<&Value>) -> Seq<JsonValue> {
    Seq::new(r.len(), |i: int| r[i].model())
}

/// A walk selects no more values than there are in the value walked.
pub proof fn lemma_walk_nodes(v: JsonValue, segs: Seq<SegmentModel>)
    ensures
        walk(v, segs).len() <= nodes(v),
    decreases v,
{
    if segs.len() > 0 {
        let rest = segs.drop_first();
        match segs[0] {
            SegmentModel::Key(k) => {
                if let JsonValue::Object(entries) = v {
                    lemma_walk_members_nodes(entries, k, rest);
                }
            },
            SegmentModel::Index(i) => {
                if let JsonValue::Array(items) = v {
                    let idx: int = if i < 0 {
                        i + items.len()
                    } else {
                        i as int
                    };
                    if 0 <= idx < items.len() {
                        lemma_walk_nodes(items[idx], rest);
                        lemma_item_nodes(items, idx);
                    }
                }
            },
            SegmentModel::Every => {
                if let JsonValue::Array(items) = v {
                    lemma_walk_items_nodes(items, rest);
                }
            },
        }
    }
}

proof fn lemma_walk_items_nodes(items: Seq<JsonValue>, segs: Seq<SegmentModel>)
    ensures
        walk_items(items, segs).len() <= nodes_of_items(items),
    decreases items,
{
    if items.len() > 0 {
        lemma_walk_items_nodes(items.subrange(0, items.len() - 1), segs);
        lemma_walk_nodes(items[items.len() - 1], segs);
    }
}

proof fn lemma_walk_members_nodes(
    entries: Seq<(Seq<char>, JsonValue)>,
    k: Seq<char>,
    segs: Seq<SegmentModel>,
)
    ensures
        walk_members(entries, k, segs).len() <= nodes_of_members(entries),
    decreases entries,
{
    if entries.len() > 0 {
        lemma_walk_members_nodes(entries.subrange(0, entries.len() - 1), k, segs);
        lemma_walk_nodes(entries[entries.len() - 1].1, segs);
    }
}

/// One element has no more values than the whole run.
proof fn lemma_item_nodes(items: Seq<JsonValue>, idx: int)
    requires
        0 <= idx < items.len(),
    ensures
        nodes(items[idx]) <= nodes_of_items(items),
    decreases items.len(),
{
    if idx < items.len() - 1 {
        let init = items.subrange(0, items.len() - 1);
        lemma_item_nodes(init, idx);
        assert(init[idx] == items[idx]);
    }
}

/// Every value counts for at least one.
pub proof fn lemma_nodes_positive(v: JsonValue)
    ensures
        nodes(v) >= 1,
{
}

/// A run of members has no more members than values.
pub proof fn lemma_members_count(entries: Seq<(Seq<char>, JsonValue)>)
    ensures
        entries.len() <= nodes_of_members(entries),
    decreases entries.len(),
{
    if entries.len() > 0 {
        lemma_members_count(entries.subrange(0, entries.len() - 1));
        lemma_nodes_positive(entries[entries.len() - 1].1);
    }
}

/// The array index `i` selects in an array of `len` elements, if any.
fn resolve_index(i: i64, len: usize) -> (r: Option<usize>)
    ensures
        ({
            let idx: int = if i < 0 {
                i + len
            } else {
                i as int
            };
            match r {
                Some(k) => 0 <= idx < len && k == idx,
                None => !(0 <= idx < len),
            }
        }),
{
    if i < 0 {
        // The distance back from the end: |i|, which fits in a u64.
        let back: u64 = ((-(i + 1)) as u64) + 1;
        if back <= len as u64 {
            Some(len - (back as usize))
        } else {
            None
        }
    } else {
        if (i as u64) < (len as u64) {
            Some(i as usize)
        } else {
            None
        }
    }
}

/// Walks `value` through `segments[k..]`, fanning out over every `[]` and
/// stopping at any segment that doesn't match the value's shape.
#[verifier::loop_isolation(false)]
fn walk_from<'v>(value: &'v Value, segments: &[Segment], k: usize) -> (r: Vec<&'v Value>)
    requires
        k <= segments@.len(),
    ensures
        ref_models(r@) == walk(value.model(), segment_models(segments@).skip(k as int)),
    decreases value,
{
    let ghost segs = segment_models(segments@).skip(k as int);
    if k == segments.len() {
        let r = vec![value];
        assert(ref_models(r@) =~= seq![value.model()]);
        return r;
    }
    let k1 = k + 1;
    let ghost rest = segs.drop_first();
    assert(rest =~= segment_models(segments@).skip(k1 as int));
    match &segments[k] {
        Segment::Key(key) => match value {
            Value::Object(entries) => {
                let mut r: Vec<&'v Value> = Vec::new();
                let ghost ms = crate::json::member_models(entries@);
                let mut j: usize = 0;
                while j < entries.len()
                    invariant
                        j <= entries@.len(),
                        k < segments@.len(),
                        rest == segment_models(segments@).skip(k1 as int),
                        k1 <= segments@.len(),
                        ms == crate::json::member_models(entries@),
                        ref_models(r@) == walk_members(ms.take(j as int), key@, rest),
                    decreases entries@.len() - j,
                {
                    assert(ms.take(j + 1).subrange(0, j as int) =~= ms.take(j as int));
                    if entries[j].0 == *key {
                        let mut sub = walk_from(&entries[j].1, segments, k1);
                        let ghost before = r@;
                        r.append(&mut sub);
                        assert(ref_models(r@) =~= ref_models(before) + walk(ms[j as int].1, rest));
                    } else {
                        assert(walk_members(ms.take(j + 1), key@, rest) =~= walk_members(ms.take(j as int), key@, rest));
                    }
                    j = j + 1;
                }
                assert(ms.take(entries@.len() as int) =~= ms);
                proof { crate::json::lemma_object_model(*entries); }
                r
            },
            _ => Vec::new(),
        },
        Segment::Index(i) => match value {
            Value::Array(items) => match resolve_index(*i, items.len()) {
                Some(idx) => {
                    proof { crate::json::lemma_array_model(*items); }
                    walk_from(&items[idx], segments, k1)
                },
                None => {
                    proof { crate::json::lemma_array_model(*items); }
                    Vec::new()
                },
            },
            _ => Vec::new(),
        },
        Segment::Every => match value {
            Value::Array(items) => {
                let mut r: Vec<&'v Value> = Vec::new();
                let ghost ms = crate::json::models(items@);
                let mut j: usize = 0;
                while j < items.len()
                    invariant
                        j <= items@.len(),
                        k < segments@.len(),
                        rest == segment_models(segments@).skip(k1 as int),
                        k1 <= segments@.len(),
                        ms == crate::json::models(items@),
                        ref_models(r@) == walk_items(ms.take(j as int), rest),
                    decreases items@.len() - j,
                {
                    assert(ms.take(j + 1).subrange(0, j as int) =~= ms.take(j as int));
                    let mut sub = walk_from(&items[j], segments, k1);
                    let ghost before = r@;
                    r.append(&mut sub);
                    assert(ref_models(r@) =~= ref_models(before) + walk(ms[j as int], rest));
                    j = j + 1;
                }
                assert(ms.take(items@.len() as int) =~= ms);
                proof { crate::json::lemma_array_model(*items); }
                r
            },
            _ => Vec::new(),
        },
    }
}

/// Walks `value` through `segments`, fanning out over every `[]` and
/// stopping at any segment that doesn't match the value's shape (a `.key` on
/// an array, an out-of-range index, and so on just yield no matches).
pub fn walk_path<'v>(value: &'v Value, segments: &[Segment]) -> (r: Vec<&'v Value>)
    ensures
        ref_models(r@) == walk(value.model(), segment_models(segments@)),
{
    assert(segment_models(segments@).skip(0) =~= segment_models(segments@));
    walk_from(value, segments, 0)
}

// ---------------------------------------------------------------------------
// Telling values apart: how a value is rendered for counting
// ---------------------------------------------------------------------------

/// What `format!("{:?}", s)` gives for a string `s`: `s` in double quotes,
/// with Rust's debug escapes.
pub uninterp spec fn debug_str(s: Seq<char>) -> Seq<char>;

/// Renders `s` with std's `Debug` for `str`, which writes the text between
/// double quotes; what the escapes inside look like is not stated here.
#[verifier::external_body]
fn debug_quoted(s: &str) -> (r: String)
    ensures
        r@ == debug_str(s@),
        r@.len() >= 1 && r@[0] == '"',
{
    format!("{:?}", s)
}

/// The decimal form of `n`, with a leading `-` when negative.
pub open spec fn int_text(n: i64) -> Seq<char> {
    if n < 0 {
        "-"@ + decimal((-n) as nat)
    } else {
        decimal(n as nat)
    }
}

/// The display form of a value other than a float: strings are quoted so
/// `"1"` and `1` don't collide, arrays and objects by their size. This is for
/// reporting, not for round-tripping back into JSON.
pub open spec fn rendered(v: JsonValue) -> Seq<char> {
    match v {
        JsonValue::Null => "null"@,
        JsonValue::Bool(b) => if b {
            "true"@
        } else {
            "false"@
        },
        JsonValue::Int(n) => int_text(n),
        JsonValue::Float(t) => t,
        JsonValue::Str(t) => debug_str(t),
        JsonValue::Array(items) => "[array of "@ + decimal(items.len()) + "]"@,
        JsonValue::Object(entries) => "{object of "@ + decimal(entries.len()) + "}"@,
    }
}

/// `r` is a display form of `v`: a float is rendered by `render_float` from
/// its literal text, any other value as [`rendered`] says.
pub open spec fn renders<F: Fn(&str) -> String>(render_float: F, v: JsonValue, r: Seq<char>) -> bool {
    match v {
        JsonValue::Float(t) => exists|s: &str, out: String|
            s@ == t && #[trigger] render_float.ensures((s,), out) && out@ == r,
        _ => r == rendered(v),
    }
}

fn owned(t: &str) -> (r: String)
    ensures
        r@ == t@,
{
    let mut r = String::new();
    push_str(&mut r, t);
    r
}

/// The decimal form of a number starts with a digit.
proof fn lemma_decimal_first(n: nat)
    ensures
        decimal(n).len() >= 1,
        '0' <= decimal(n)[0] <= '9',
    decreases n,
{
    if n >= 10 {
        lemma_decimal_first(n / 10);
    }
}

/// Strings are told apart from every other kind of value: only the display
/// form of a string starts with a double quote (see [`render_value`]); that of
/// a null, a boolean, an integer, an array or an object never does, so `"1"`
/// and `1` don't collide.
pub proof fn only_strings_render_quoted(v: JsonValue)
    requires
        !(v is Str),
        !(v is Float),
    ensures
        rendered(v).len() >= 1,
        rendered(v)[0] != '"',
{
    reveal_strlit("null");
    reveal_strlit("true");
    reveal_strlit("false");
    reveal_strlit("-");
    reveal_strlit("[array of ");
    reveal_strlit("{object of ");
    match v {
        JsonValue::Int(n) => {
            if n < 0 {
                assert(rendered(v)[0] == '-');
            } else {
                lemma_decimal_first(n as nat);
            }
        },
        JsonValue::Array(items) => assert(rendered(v)[0] == '['),
        JsonValue::Object(entries) => assert(rendered(v)[0] == '{'),
        JsonValue::Null => assert(rendered(v)[0] == 'n'),
        JsonValue::Bool(b) => if b {
            assert(rendered(v)[0] == 't');
        } else {
            assert(rendered(v)[0] == 'f');
        },
        _ => {},
    }
}

/// The decimal form of `n`, with a leading `-` when negative.
pub fn int_string(n: i64) -> (r: String)
    ensures
        r@ == int_text(n),
{
    if n < 0 {
        let magnitude: u64 = ((-(n + 1)) as u64) + 1;
        let digits = decimal_string(magnitude);
        let mut r = owned("-");
        push_str(&mut r, digits.as_str());
        r
    } else {
        decimal_string(n as u64)
    }
}

/// A display form used to tell distinct field values apart. A float is
/// rendered by `render_float` from its literal text (the caller formats the
/// `f64` it stands for).
pub fn render_value<F: Fn(&str) -> String>(value: &Value, render_float: &F) -> (r: String)
    requires
        forall|s: &str| #[trigger] render_float.requires((s,)),
    ensures
        renders(*render_float, value.model(), r@),
        value is String ==> r@.len() >= 1 && r@[0] == '"',
{
    match value {
        Value::Null => owned("null"),
        Value::Bool(b) => if *b {
            owned("true")
        } else {
            owned("false")
        },
        Value::Int(n) => int_string(*n),
        Value::Float(t) => {
            let s = t.as_str();
            let out = render_float(s);
            assert(render_float.ensures((s,), out));
            out
        },
        Value::String(t) => debug_quoted(t.as_str()),
        Value::Array(items) => {
            let mut r = owned("[array of ");
            let n = decimal_string(items.len() as u64);
            push_str(&mut r, n.as_str());
            push_str(&mut r, "]");
            proof { crate::json::lemma_array_model(*items); }
            r
        },
        Value::Object(entries) => {
            let mut r = owned("{object of ");
            let n = decimal_string(entries.len() as u64);
            push_str(&mut r, n.as_str());
            push_str(&mut r, "}");
            proof { crate::json::lemma_object_model(*entries); }
            r
        },
    }
}

// ---------------------------------------------------------------------------
// Ordering rendered values
// ---------------------------------------------------------------------------

/// `a` sorts before `b`, comparing character by character (which is also the
/// byte order of their UTF-8 encodings); a proper prefix sorts first.
pub open spec fn text_less(a: Seq<char>, b: Seq<char>) -> bool
    decreases a.len(),
{
    if a.len() == 0 {
        b.len() > 0
    } else if b.len() == 0 {
        false
    } else if a[0] != b[0] {
        a[0] < b[0]
    } else {
        text_less(a.drop_first(), b.drop_first())
    }
}

/// No text sorts before itself.
pub proof fn lemma_text_less_irreflexive(a: Seq<char>)
    ensures
        !text_less(a, a),
    decreases a.len(),
{
    if a.len() > 0 {
        lemma_text_less_irreflexive(a.drop_first());
    }
}

/// Sorting before is transitive.
pub proof fn lemma_text_less_transitive(a: Seq<char>, b: Seq<char>, c: Seq<char>)
    requires
        text_less(a, b),
        text_less(b, c),
    ensures
        text_less(a, c),
    decreases a.len(),
{
    if a.len() > 0 && b.len() > 0 && c.len() > 0 && a[0] == b[0] && b[0] == c[0] {
        lemma_text_less_transitive(a.drop_first(), b.drop_first(), c.drop_first());
    }
}

/// Of two different texts, one sorts before the other.
pub proof fn lemma_text_less_total(a: Seq<char>, b: Seq<char>)
    requires
        a != b,
    ensures
        text_less(a, b) || text_less(b, a),
    decreases a.len(),
{
    if a.len() > 0 && b.len() > 0 && a[0] == b[0] {
        if a.drop_first() == b.drop_first() {
            assert(a =~= seq![a[0]] + a.drop_first());
            assert(b =~= seq![b[0]] + b.drop_first());
        }
        lemma_text_less_total(a.drop_first(), b.drop_first());
    } else if a.len() == 0 && b.len() == 0 {
        assert(a =~= b);
    }
}

/// Whether `a` sorts before `b`.
pub fn text_before(a: &[char], b: &[char]) -> (r: bool)
    ensures
        r == text_less(a@, b@),
{
    let mut i: usize = 0;
    assert(a@.skip(0) =~= a@);
    assert(b@.skip(0) =~= b@);
    while i < a.len() && i < b.len() && a[i] == b[i]
        invariant
            i <= a@.len(),
            i <= b@.len(),
            text_less(a@, b@) == text_less(a@.skip(i as int), b@.skip(i as int)),
        decreases a@.len() - i,
    {
        assert(a@.skip(i as int).drop_first() =~= a@.skip(i + 1));
        assert(b@.skip(i as int).drop_first() =~= b@.skip(i + 1));
        i = i + 1;
    }
    if i == a.len() {
        i < b.len()
    } else if i == b.len() {
        false
    } else {
        assert(a@.skip(i as int)[0] == a@[i as int]);
        assert(b@.skip(i as int)[0] == b@[i as int]);
        a[i] < b[i]
    }
}

// ---------------------------------------------------------------------------
// The value distribution of one field
// ---------------------------------------------------------------------------

/// How many distinct values a single `--field` tracks before it stops
/// counting new ones (existing ones keep incrementing).
pub const MAX_FIELD_VALUES: usize = 10000;

/// The counted values of a field as text, each with its count.
pub open spec fn counts_view(v: Seq<(String, usize)>) -> Seq<(Seq<char>, usize)> {
    Seq::new(v.len(), |i: int| (v[i].0@, v[i].1))
}

/// Each counted value appears once, with a positive count, and there are no
/// more of them than the cap.
pub open spec fn counts_wf(c: Seq<(Seq<char>, usize)>) -> bool {
    &&& c.len() <= MAX_FIELD_VALUES
    &&& forall|i: int, j: int|
        0 <= i < c.len() && 0 <= j < c.len() && i != j ==> #[trigger] c[i].0 != #[trigger] c[j].0
    &&& forall|i: int| 0 <= i < c.len() ==> #[trigger] c[i].1 >= 1
}

/// The counted values after one more value rendered as `r`: a value seen
/// before has its count go up by one; a new one joins with count 1 while
/// there is room, and otherwise only marks the distribution as truncated.
pub open spec fn count_value(c: Seq<(Seq<char>, usize)>, truncated: bool, r: Seq<char>) -> (
    Seq<(Seq<char>, usize)>,
    bool,
) {
    if exists|i: int| 0 <= i < c.len() && c[i].0 == r {
        let i = choose|i: int| 0 <= i < c.len() && c[i].0 == r;
        (c.update(i, (r, (c[i].1 + 1) as usize)), truncated)
    } else if c.len() < MAX_FIELD_VALUES {
        (c.push((r, 1usize)), truncated)
    } else {
        (c, true)
    }
}

/// What a field has counted: the values seen there, their kinds, and their
/// distribution.
pub struct FieldTally {
    pub values: nat,
    pub types: Seq<(JsonType, usize)>,
    pub counts: Seq<(Seq<char>, usize)>,
    pub truncated: bool,
}

/// The tally after one more value of kind `t`, rendered as `r`.
pub open spec fn tally_value(f: FieldTally, t: JsonType, r: Seq<char>) -> FieldTally {
    let (c, truncated) = count_value(f.counts, f.truncated, r);
    FieldTally { values: f.values + 1, types: tally_add(f.types, t), counts: c, truncated }
}

/// The tally after the values `vs`, rendered as `rs`, one after the other.
pub open spec fn tally_values(f: FieldTally, vs: Seq<JsonValue>, rs: Seq<Seq<char>>) -> FieldTally
    decreases vs.len(),
{
    if vs.len() == 0 || rs.len() == 0 {
        f
    } else {
        tally_value(tally_values(f, vs.drop_last(), rs.drop_last()), type_of(vs.last()), rs.last())
    }
}

/// `c[i]` comes before `c[j]` when listing values most common first, ties
/// broken by the rendered value itself.
pub open spec fn value_before(c: Seq<(Seq<char>, usize)>, i: int, j: int) -> bool {
    c[i].1 > c[j].1 || (c[i].1 == c[j].1 && text_less(c[i].0, c[j].0))
}

/// `order` lists the positions of `c`, most common first, ties by value.
pub open spec fn value_order(c: Seq<(Seq<char>, usize)>, order: Seq<int>) -> bool {
    &&& order.len() == c.len()
    &&& forall|a: int| 0 <= a < order.len() ==> 0 <= #[trigger] order[a] < c.len()
    &&& forall|a: int, b: int|
        0 <= a < b < order.len() ==> value_before(c, #[trigger] order[a], #[trigger] order[b])
}

/// `r` lists the `n` most common values of `c` (all of them if there are
/// fewer), each with its count, most common first, ties by value.
pub open spec fn top_list(c: Seq<(Seq<char>, usize)>, n: int, r: Seq<(Seq<char>, usize)>) -> bool {
    exists|order: Seq<int>|
        {
            &&& #[trigger] value_order(c, order)
            &&& r.len() == if n < order.len() {
                n
            } else {
                order.len() as int
            }
            &&& forall|a: int| 0 <= a < r.len() ==> #[trigger] r[a] == c[order[a]]
        }
}

/// No position comes before itself, and of two positions at most one comes
/// before the other.
proof fn lemma_value_before_strict(c: Seq<(Seq<char>, usize)>, i: int, j: int)
    ensures
        !value_before(c, i, i),
        !(value_before(c, i, j) && value_before(c, j, i)),
{
    lemma_text_less_irreflexive(c[i].0);
    if c[i].1 == c[j].1 && text_less(c[i].0, c[j].0) && text_less(c[j].0, c[i].0) {
        lemma_text_less_transitive(c[i].0, c[j].0, c[i].0);
    }
}

/// A listing of `c` names every position of `c`.
proof fn lemma_value_order_covers(c: Seq<(Seq<char>, usize)>, order: Seq<int>, x: int)
    requires
        value_order(c, order),
        0 <= x < c.len(),
    ensures
        order.contains(x),
{
    assert forall|a: int, b: int| 0 <= a < order.len() && 0 <= b < order.len() && a != b implies order[a]
        != order[b] by {
        if a < b {
            lemma_value_before_strict(c, order[a], order[b]);
        } else {
            lemma_value_before_strict(c, order[b], order[a]);
        }
    }
    assert(order.no_duplicates());
    order.unique_seq_to_set();
    let all = vstd::set_lib::set_int_range(0, c.len() as int);
    vstd::set_lib::lemma_int_range(0, c.len() as int);
    assert(order.to_set().subset_of(all));
    vstd::set_lib::lemma_subset_equality(order.to_set(), all);
    assert(all.contains(x));
    assert(order.to_set().contains(x));
}

/// Two listings of `c` agree on their first `k` places.
proof fn lemma_value_orders_agree(c: Seq<(Seq<char>, usize)>, o1: Seq<int>, o2: Seq<int>, k: int)
    requires
        value_order(c, o1),
        value_order(c, o2),
        0 <= k <= o1.len(),
    ensures
        forall|i: int| 0 <= i < k ==> #[trigger] o1[i] == o2[i],
    decreases k,
{
    if k > 0 {
        lemma_value_orders_agree(c, o1, o2, k - 1);
        let x = o1[k - 1];
        let y = o2[k - 1];
        lemma_value_order_covers(c, o2, x);
        lemma_value_order_covers(c, o1, y);
        let m = choose|m: int| 0 <= m < o2.len() && o2[m] == x;
        let n = choose|n: int| 0 <= n < o1.len() && o1[n] == y;
        if m < k - 1 {
            assert(o1[m] == o2[m]);
            lemma_value_before_strict(c, o1[m], o1[m]);
        }
        if n < k - 1 {
            assert(o1[n] == o2[n]);
            lemma_value_before_strict(c, o2[n], o2[n]);
        }
        if m > k - 1 && n > k - 1 {
            assert(value_before(c, y, x));
            assert(value_before(c, x, y));
            lemma_value_before_strict(c, x, y);
        }
        if m == k - 1 || n == k - 1 {
            assert(x == y);
        }
    }
}

/// There is one way only to list the values of a distribution most common
/// first with ties by value.
pub proof fn value_order_is_unique(c: Seq<(Seq<char>, usize)>, o1: Seq<int>, o2: Seq<int>)
    requires
        value_order(c, o1),
        value_order(c, o2),
    ensures
        o1 == o2,
{
    lemma_value_orders_agree(c, o1, o2, o1.len() as int);
    assert(o1 =~= o2);
}

/// The top `n` values are the first `n` of the top `m` for any `m >= n`, and
/// asking twice for the top `n` gives the same list.
pub proof fn top_lists_are_prefixes(
    c: Seq<(Seq<char>, usize)>,
    n: int,
    m: int,
    r1: Seq<(Seq<char>, usize)>,
    r2: Seq<(Seq<char>, usize)>,
)
    requires
        0 <= n <= m,
        top_list(c, n, r1),
        top_list(c, m, r2),
    ensures
        r1.len() == if n < c.len() {
            n
        } else {
            c.len() as int
        },
        r1 == r2.take(r1.len() as int),
        n == m ==> r1 == r2,
{
    let o1 = choose|order: Seq<int>|
        {
            &&& #[trigger] value_order(c, order)
            &&& r1.len() == if n < order.len() {
                n
            } else {
                order.len() as int
            }
            &&& forall|a: int| 0 <= a < r1.len() ==> #[trigger] r1[a] == c[order[a]]
        };
    let o2 = choose|order: Seq<int>|
        {
            &&& #[trigger] value_order(c, order)
            &&& r2.len() == if m < order.len() {
                m
            } else {
                order.len() as int
            }
            &&& forall|a: int| 0 <= a < r2.len() ==> #[trigger] r2[a] == c[order[a]]
        };
    value_order_is_unique(c, o1, o2);
    assert(r1 =~= r2.take(r1.len() as int));
    if n == m {
        assert(r1 =~= r2);
    }
}

/// The value distribution collected for one `--field` path.
pub struct FieldStat {
    pub path: FieldPath,
    /// Records that contained at least one value at this path.
    pub records_present: usize,
    /// Total values seen at this path, fanned out over `[]` segments.
    pub values: usize,
    pub types: TypeTally,
    /// Each distinct rendered value with its count, in first-seen order.
    pub value_counts: Vec<(String, usize)>,
    /// Where each rendered value sits in `value_counts`.
    pub value_index: TextIndex,
    pub values_truncated: bool,
}

/// The texts of a distribution, in order.
pub open spec fn count_keys(c: Seq<(Seq<char>, usize)>) -> Seq<Seq<char>> {
    Seq::new(c.len(), |i: int| c[i].0)
}

impl FieldStat {
    /// The counted values as text, each with its count, in first-seen order.
    pub open spec fn counted(&self) -> Seq<(Seq<char>, usize)> {
        counts_view(self.value_counts@)
    }

    /// What the field has counted.
    pub open spec fn tally(&self) -> FieldTally {
        FieldTally {
            values: self.values as nat,
            types: self.types@,
            counts: self.counted(),
            truncated: self.values_truncated,
        }
    }

    /// The field's invariant: a well-formed tally and distribution, where no
    /// count exceeds the number of values seen.
    pub open spec fn wf(&self) -> bool {
        &&& tally_wf(self.types@)
        &&& tally_total(self.types@) == self.values
        &&& self.records_present <= self.values
        &&& counts_wf(self.counted())
        &&& self.value_index.indexes(count_keys(self.counted()))
        &&& forall|i: int| 0 <= i < self.types@.len() ==> #[trigger] self.types@[i].1 <= self.values
        &&& forall|i: int|
            0 <= i < self.counted().len() ==> #[trigger] self.counted()[i].1 <= self.values
    }

    /// A field with nothing counted yet.
    pub fn new(path: FieldPath) -> (r: FieldStat)
        ensures
            r.wf(),
            r.path == path,
            r.records_present == 0,
            r.tally() == (FieldTally {
                values: 0,
                types: Seq::empty(),
                counts: Seq::empty(),
                truncated: false,
            }),
    {
        let r = FieldStat {
            path,
            records_present: 0,
            values: 0,
            types: TypeTally::new(),
            value_counts: Vec::new(),
            value_index: TextIndex::new(),
            values_truncated: false,
        };
        assert(r.counted() =~= Seq::<(Seq<char>, usize)>::empty());
        assert(count_keys(r.counted()) =~= Seq::<Seq<char>>::empty());
        r
    }

    /// Counts one more value of kind `t`, rendered as `rendered`.
    pub fn count_rendered(&mut self, t: JsonType, rendered: String)
        requires
            old(self).wf(),
            old(self).values < usize::MAX,
        ensures
            final(self).wf(),
            final(self).path == old(self).path,
            final(self).records_present == old(self).records_present,
            final(self).tally() == tally_value(old(self).tally(), t, rendered@),
    {
        proof {
            if exists|i: int| 0 <= i < self.types@.len() && self.types@[i].0 == t {
                let i = choose|i: int| 0 <= i < self.types@.len() && self.types@[i].0 == t;
                assert(self.types@[i].1 <= self.values);
            }
        }
        self.values = self.values + 1;
        let ghost old_types = self.types@;
        self.types.record(t);
        proof {
            lemma_tally_add_total(old_types, t);
            assert forall|k: int| 0 <= k < self.types@.len() implies #[trigger] self.types@[k].1 <= self.values by {
                let o = old(self).types@;
                if exists|i: int| 0 <= i < o.len() && o[i].0 == t {
                    let i = choose|i: int| 0 <= i < o.len() && o[i].0 == t;
                    if k != i {
                        assert(self.types@[k] == o[k]);
                    }
                } else if k < o.len() {
                    assert(self.types@[k] == o[k]);
                }
            }
        }
        let ghost c = self.counted();
        let ghost keys = count_keys(c);
        let h = hash_text(rendered.as_str());
        let mut found: Option<usize> = None;
        if let Some(cands) = self.value_index.positions_of(h) {
            let mut k: usize = 0;
            while k < cands.len()
                invariant_except_break
                    found is None,
                invariant
                    counts_view(self.value_counts@) == c,
                    c == old(self).counted(),
                    keys == count_keys(c),
                    self.value_index.indexes(keys),
                    cands@ == self.value_index.positions(h),
                    k <= cands@.len(),
                    forall|x: int| 0 <= x < k ==> c[#[trigger] cands@[x] as int].0 != rendered@,
                ensures
                    k <= cands@.len(),
                    forall|x: int| 0 <= x < k ==> c[#[trigger] cands@[x] as int].0 != rendered@,
                    match found {
                        Some(i) => i < c.len() && c[i as int].0 == rendered@,
                        None => k == cands@.len(),
                    },
                decreases cands@.len() - k,
            {
                let i = cands[k];
                assert(cands@[k as int] < keys.len());
                if self.value_counts[i].0 == rendered {
                    found = Some(i);
                    break;
                }
                k = k + 1;
            }
        }
        match found {
            Some(i) => {
                let n = self.value_counts[i].1;
                assert(c[i as int].1 <= self.values - 1);
                let key = self.value_counts[i].0.clone();
                self.value_counts.set(i, (key, n + 1));
                proof {
                    let j = choose|j: int| 0 <= j < c.len() && c[j].0 == rendered@;
                    assert(c[j].0 == rendered@);
                    assert(j == i);
                    assert(self.counted() =~= c.update(i as int, (rendered@, (c[i as int].1 + 1) as usize)));
                    assert(count_keys(self.counted()) =~= keys);
                }
            },
            None => {
                proof {
                    assert forall|i: int| 0 <= i < c.len() implies #[trigger] c[i].0 != rendered@ by {
                        if c[i].0 == rendered@ {
                            assert(keys[i] == rendered@);
                            assert(self.value_index.positions(text_hash(keys[i])).contains(i as usize));
                            let pos = self.value_index.positions(h);
                            let w = choose|w: int| 0 <= w < pos.len() && pos[w] == i as usize;
                            assert(pos[w] == i as usize);
                        }
                    }
                }
                if self.value_counts.len() < MAX_FIELD_VALUES {
                    let ghost r = rendered@;
                    self.value_index.add(rendered.as_str(), self.value_counts.len(), Ghost(keys));
                    self.value_counts.push((rendered, 1));
                    assert(self.counted() =~= c.push((r, 1usize)));
                    assert(count_keys(self.counted()) =~= keys.push(r));
                } else {
                    self.values_truncated = true;
                }
            },
        }
    }

    /// Counts one more value found at this field's path.
    pub fn record<F: Fn(&str) -> String>(&mut self, value: &Value, render_float: &F)
        requires
            old(self).wf(),
            old(self).values < usize::MAX,
            forall|s: &str| #[trigger] render_float.requires((s,)),
        ensures
            final(self).wf(),
            final(self).path == old(self).path,
            final(self).records_present == old(self).records_present,
            exists|r: Seq<char>|
                renders(*render_float, value.model(), r) && final(self).tally() == tally_value(
                    old(self).tally(),
                    type_of(value.model()),
                    r,
                ),
    {
        let t = json_type(value);
        let rendered = render_value(value, render_float);
        let ghost r = rendered@;
        self.count_rendered(t, rendered);
        assert(renders(*render_float, value.model(), r));
    }

    /// How many distinct values were counted.
    pub fn distinct_values(&self) -> (r: usize)
        ensures
            r == self.counted().len(),
    {
        self.value_counts.len()
    }

    /// The `n` most common values, most common first; ties break on the
    /// rendered value itself so the order is deterministic.
    pub fn top(&self, n: usize) -> (r: Vec<(String, usize)>)
        requires
            self.wf(),
        ensures
            exists|order: Seq<int>|
                {
                    &&& #[trigger] value_order(self.counted(), order)
                    &&& r@.len() == if n < order.len() {
                        n as int
                    } else {
                        order.len() as int
                    }
                    &&& forall|a: int|
                        0 <= a < r@.len() ==> (#[trigger] r@[a]).0@ == self.counted()[order[a]].0
                            && r@[a].1 == self.counted()[order[a]].1
                },
            top_list(self.counted(), n as int, counts_view(r@)),
    {
        let c = &self.value_counts;
        let ghost cv = self.counted();
        // The characters of every value, for comparing them.
        let mut texts: Vec<Vec<char>> = Vec::new();
        let mut i: usize = 0;
        while i < c.len()
            invariant
                cv == counts_view(c@),
                i <= c@.len(),
                texts@.len() == i,
                forall|k: int| 0 <= k < i ==> (#[trigger] texts@[k])@ == cv[k].0,
            decreases c@.len() - i,
        {
            texts.push(chars_of(c[i].0.as_str()));
            i = i + 1;
        }
        let mut order: Vec<usize> = Vec::new();
        let mut i: usize = 0;
        while i < c.len()
            invariant
                cv == counts_view(c@),
                counts_wf(cv),
                texts@.len() == c@.len(),
                forall|k: int| 0 <= k < c@.len() ==> (#[trigger] texts@[k])@ == cv[k].0,
                i <= c@.len(),
                order@.len() == i,
                forall|a: int| 0 <= a < order@.len() ==> #[trigger] order@[a] < i,
                forall|a: int, b: int|
                    0 <= a < b < order@.len() ==> value_before(
                        cv,
                        #[trigger] order@[a] as int,
                        #[trigger] order@[b] as int,
                    ),
            decreases c@.len() - i,
        {
            let mut pos: usize = 0;
            while pos < order.len() && (c[order[pos]].1 > c[i].1 || (c[order[pos]].1 == c[i].1
                && text_before(texts[order[pos]].as_slice(), texts[i].as_slice())))
                invariant
                    cv == counts_view(c@),
                    texts@.len() == c@.len(),
                    forall|k: int| 0 <= k < c@.len() ==> (#[trigger] texts@[k])@ == cv[k].0,
                    i < c@.len(),
                    pos <= order@.len(),
                    forall|a: int| 0 <= a < order@.len() ==> #[trigger] order@[a] < i,
                    forall|a: int| 0 <= a < pos ==> value_before(cv, #[trigger] order@[a] as int, i as int),
                decreases order@.len() - pos,
            {
                pos = pos + 1;
            }
            let ghost before = order@;
            proof {
                if pos < before.len() {
                    let p = before[pos as int] as int;
                    assert(!value_before(cv, p, i as int));
                    assert(cv[p].0 != cv[i as int].0);
                    lemma_text_less_total(cv[p].0, cv[i as int].0);
                    assert(value_before(cv, i as int, p));
                }
            }
            order.insert(pos, i);
            proof {
                assert forall|a: int, b: int|
                    0 <= a < b < order@.len() implies value_before(
                    cv,
                    #[trigger] order@[a] as int,
                    #[trigger] order@[b] as int,
                ) by {
                    if b < pos {
                        assert(order@[a] == before[a] && order@[b] == before[b]);
                    } else if b == pos {
                        assert(order@[a] == before[a]);
                    } else if a == pos {
                        assert(order@[b] == before[b - 1]);
                        if b - 1 > pos {
                            let p = before[pos as int] as int;
                            let q = before[b - 1] as int;
                            assert(value_before(cv, p, q));
                            if cv[i as int].1 == cv[p].1 && cv[p].1 == cv[q].1 {
                                lemma_text_less_transitive(cv[i as int].0, cv[p].0, cv[q].0);
                            }
                        }
                    } else if a < pos {
                        assert(order@[a] == before[a] && order@[b] == before[b - 1]);
                    } else {
                        assert(order@[a] == before[a - 1] && order@[b] == before[b - 1]);
                    }
                }
                assert forall|a: int| 0 <= a < order@.len() implies #[trigger] order@[a] < i + 1 by {
                    if a < pos {
                        assert(order@[a] == before[a]);
                    } else if a > pos {
                        assert(order@[a] == before[a - 1]);
                    }
                }
            }
            i = i + 1;
        }
        let count = if n < order.len() {
            n
        } else {
            order.len()
        };
        let mut r: Vec<(String, usize)> = Vec::new();
        let mut a: usize = 0;
        while a < count
            invariant
                cv == counts_view(c@),
                order@.len() == c@.len(),
                count <= order@.len(),
                forall|k: int| 0 <= k < order@.len() ==> #[trigger] order@[k] < c@.len(),
                a <= count,
                r@.len() == a,
                forall|k: int|
                    0 <= k < a ==> (#[trigger] r@[k]).0@ == cv[order@[k] as int].0 && r@[k].1
                        == cv[order@[k] as int].1,
            decreases count - a,
        {
            let j = order[a];
            r.push((c[j].0.clone(), c[j].1));
            a = a + 1;
        }
        let ghost order_int = Seq::new(order@.len(), |k: int| order@[k] as int);
        assert(value_order(cv, order_int));
        assert(forall|k: int| 0 <= k < r@.len() ==> #[trigger] counts_view(r@)[k] == cv[order_int[k]]);
        assert(top_list(cv, n as int, counts_view(r@)));
        r
    }
}

// ---------------------------------------------------------------------------
// The top-level key table
// ---------------------------------------------------------------------------

/// How many distinct top-level keys are tracked before the table stops
/// growing. A file with more distinct keys than this is almost certainly not
/// uniform JSONL, and the report says so via `Stats::keys_truncated`.
pub const MAX_KEYS: usize = 512;

/// How often, and as what types, one top-level key showed up.
pub struct KeyStat {
    pub key: String,
    /// Records whose top-level object has this key at least once.
    pub count: usize,
    pub types: TypeTally,
}

/// The mathematical form of a [`KeyStat`].
pub struct KeyModel {
    pub key: Seq<char>,
    pub count: nat,
    pub types: Seq<(JsonType, usize)>,
}

impl KeyStat {
    pub open spec fn model(&self) -> KeyModel {
        KeyModel { key: self.key@, count: self.count as nat, types: self.types@ }
    }
}

/// The models of a key table.
pub open spec fn key_models(keys: Seq<KeyStat>) -> Seq<KeyModel> {
    Seq::new(keys.len(), |i: int| keys[i].model())
}

/// The key table while one record is being read: the keys, whether the
/// table ran out of room, and the keys already counted for this record.
pub struct KeyTable {
    pub keys: Seq<KeyModel>,
    pub truncated: bool,
    pub seen: Set<Seq<char>>,
}

/// The table after one more member `k` of kind `t`: a known key records the
/// kind, and counts the record the first time the record shows the key; an
/// unknown key joins the table while there is room, and otherwise only marks
/// the table as truncated.
pub open spec fn table_step(st: KeyTable, k: Seq<char>, t: JsonType) -> KeyTable {
    if exists|i: int| 0 <= i < st.keys.len() && st.keys[i].key == k {
        let i = choose|i: int| 0 <= i < st.keys.len() && st.keys[i].key == k;
        let km = st.keys[i];
        KeyTable {
            keys: st.keys.update(
                i,
                KeyModel {
                    key: k,
                    count: if st.seen.contains(k) {
                        km.count
                    } else {
                        km.count + 1
                    },
                    types: tally_add(km.types, t),
                },
            ),
            truncated: st.truncated,
            seen: st.seen.insert(k),
        }
    } else if st.keys.len() < MAX_KEYS {
        KeyTable {
            keys: st.keys.push(KeyModel { key: k, count: 1, types: seq![(t, 1usize)] }),
            truncated: st.truncated,
            seen: st.seen.insert(k),
        }
    } else {
        KeyTable { keys: st.keys, truncated: true, seen: st.seen }
    }
}

/// The table after the members `entries` of one record, in order.
pub open spec fn table_record(st: KeyTable, entries: Seq<(Seq<char>, JsonValue)>) -> KeyTable
    decreases entries.len(),
{
    if entries.len() == 0 {
        st
    } else {
        table_step(table_record(st, entries.drop_last()), entries.last().0, type_of(entries.last().1))
    }
}

/// The table after a record whose top-level object has the members `entries`.
pub open spec fn keys_after(keys: Seq<KeyModel>, truncated: bool, entries: Seq<(Seq<char>, JsonValue)>) -> KeyTable {
    table_record(KeyTable { keys, truncated, seen: Set::empty() }, entries)
}

/// The keys of a table model are pairwise distinct.
pub open spec fn distinct_keys(keys: Seq<KeyModel>) -> bool {
    forall|i: int, j: int|
        0 <= i < keys.len() && 0 <= j < keys.len() && i != j ==> #[trigger] keys[i].key != #[trigger] keys[j].key
}

/// While one record is folded in, the keys of `start` keep their places, each
/// count having risen by one exactly when the record has shown the key, and
/// every key that joined has count one.
pub open spec fn counted_once(start: Seq<KeyModel>, t: KeyTable) -> bool {
    &&& t.keys.len() >= start.len()
    &&& distinct_keys(t.keys)
    &&& forall|i: int|
        0 <= i < start.len() ==> {
            &&& (#[trigger] t.keys[i]).key == start[i].key
            &&& t.keys[i].count == start[i].count + if t.seen.contains(start[i].key) {
                1int
            } else {
                0int
            }
        }
    &&& forall|i: int| start.len() <= i < t.keys.len() ==> (#[trigger] t.keys[i]).count == 1 && t.seen.contains(t.keys[i].key)
}

proof fn lemma_counted_once(keys: Seq<KeyModel>, truncated: bool, entries: Seq<(Seq<char>, JsonValue)>)
    requires
        distinct_keys(keys),
    ensures
        counted_once(keys, table_record(KeyTable { keys, truncated, seen: Set::empty() }, entries)),
    decreases entries.len(),
{
    let base = KeyTable { keys, truncated, seen: Set::empty() };
    if entries.len() == 0 {
        assert(table_record(base, entries) == base);
    } else {
        lemma_counted_once(keys, truncated, entries.drop_last());
        let t = table_record(base, entries.drop_last());
        let k = entries.last().0;
        let ty = type_of(entries.last().1);
        let n = table_step(t, k, ty);
        assert(table_record(base, entries) == n);
        if exists|i: int| 0 <= i < t.keys.len() && t.keys[i].key == k {
            let c = choose|i: int| 0 <= i < t.keys.len() && t.keys[i].key == k;
            assert forall|i: int, j: int|
                0 <= i < n.keys.len() && 0 <= j < n.keys.len() && i != j implies #[trigger] n.keys[i].key
                    != #[trigger] n.keys[j].key by {
                assert(n.keys[i].key == t.keys[i].key);
                assert(n.keys[j].key == t.keys[j].key);
            }
            assert forall|i: int| 0 <= i < keys.len() implies {
                &&& (#[trigger] n.keys[i]).key == keys[i].key
                &&& n.keys[i].count == keys[i].count + if n.seen.contains(keys[i].key) {
                    1int
                } else {
                    0int
                }
            } by {
                assert(t.keys[i].key == keys[i].key);
                if i != c {
                    assert(n.keys[i] == t.keys[i]);
                    assert(t.keys[i].key != k);
                }
            }
            assert forall|i: int| keys.len() <= i < n.keys.len() implies (#[trigger] n.keys[i]).count == 1
                && n.seen.contains(n.keys[i].key) by {
                assert(t.keys[i].count == 1 && t.seen.contains(t.keys[i].key));
                if i != c {
                    assert(n.keys[i] == t.keys[i]);
                }
            }
        } else if t.keys.len() < MAX_KEYS {
            assert forall|i: int, j: int|
                0 <= i < n.keys.len() && 0 <= j < n.keys.len() && i != j implies #[trigger] n.keys[i].key
                    != #[trigger] n.keys[j].key by {
                if i < t.keys.len() && j < t.keys.len() {
                    assert(n.keys[i] == t.keys[i] && n.keys[j] == t.keys[j]);
                } else if i < t.keys.len() {
                    assert(n.keys[i] == t.keys[i]);
                } else {
                    assert(n.keys[j] == t.keys[j]);
                }
            }
            assert forall|i: int| 0 <= i < keys.len() implies {
                &&& (#[trigger] n.keys[i]).key == keys[i].key
                &&& n.keys[i].count == keys[i].count + if n.seen.contains(keys[i].key) {
                    1int
                } else {
                    0int
                }
            } by {
                assert(n.keys[i] == t.keys[i]);
                assert(t.keys[i].key != k);
            }
            assert forall|i: int| keys.len() <= i < n.keys.len() implies (#[trigger] n.keys[i]).count == 1
                && n.seen.contains(n.keys[i].key) by {
                if i < t.keys.len() {
                    assert(n.keys[i] == t.keys[i]);
                }
            }
        }
    }
}

/// A record counts at most once toward each key, however often the key
/// repeats in it: every key already in the table keeps its place and has its
/// count raised by zero or one, and every key that joins has count one.
pub proof fn a_record_counts_once_per_key(keys: Seq<KeyModel>, truncated: bool, entries: Seq<(Seq<char>, JsonValue)>)
    requires
        distinct_keys(keys),
    ensures
        ({
            let t = keys_after(keys, truncated, entries);
            &&& t.keys.len() >= keys.len()
            &&& forall|i: int|
                0 <= i < keys.len() ==> (#[trigger] t.keys[i]).key == keys[i].key && keys[i].count <= t.keys[i].count
                    <= keys[i].count + 1
            &&& forall|i: int| keys.len() <= i < t.keys.len() ==> (#[trigger] t.keys[i]).count == 1
        }),
{
    lemma_counted_once(keys, truncated, entries);
}

/// Each key appears once in the table, and the table has room for no more
/// than its cap.
pub open spec fn keys_wf(keys: Seq<KeyStat>) -> bool {
    &&& keys.len() <= MAX_KEYS
    &&& forall|i: int, j: int|
        0 <= i < keys.len() && 0 <= j < keys.len() && i != j ==> #[trigger] keys[i].key@
            != #[trigger] keys[j].key@
    &&& forall|i: int| 0 <= i < keys.len() ==> tally_wf(#[trigger] keys[i].types@)
}

/// Every key was counted in at most `records` records, and every kind under a
/// key at most `members` times.
pub open spec fn keys_bounded(keys: Seq<KeyStat>, records: int, members: int) -> bool {
    &&& forall|i: int| 0 <= i < keys.len() ==> #[trigger] keys[i].count <= records
    &&& forall|i: int, k: int|
        0 <= i < keys.len() && 0 <= k < keys[i].types@.len() ==> #[trigger] keys[i].types@[k].1
            <= members
}

/// Raising one kind's count by one keeps every count within one more than
/// its old bound.
proof fn lemma_tally_add_bound(s: Seq<(JsonType, usize)>, t: JsonType, bound: int)
    requires
        forall|k: int| 0 <= k < s.len() ==> #[trigger] s[k].1 <= bound,
        bound >= 0,
    ensures
        forall|k: int| 0 <= k < tally_add(s, t).len() ==> #[trigger] tally_add(s, t)[k].1 <= bound + 1,
        count_in(s, t) <= bound,
{
    if exists|i: int| 0 <= i < s.len() && s[i].0 == t {
        let i = choose|i: int| 0 <= i < s.len() && s[i].0 == t;
        assert(s[i].1 <= bound);
    }
}

/// Folds the members of one record's top-level object into the key table.
fn record_members(
    keys: &mut Vec<KeyStat>,
    truncated: &mut bool,
    entries: &Vec<(String, Value)>,
    Ghost(records): Ghost<int>,
    Ghost(members): Ghost<int>,
)
    requires
        keys_wf(old(keys)@),
        keys_bounded(old(keys)@, records, members),
        records >= 0,
        members >= 0,
        records + 1 <= usize::MAX,
        members + entries@.len() <= usize::MAX,
    ensures
        keys_wf(final(keys)@),
        keys_bounded(final(keys)@, records + 1, members + entries@.len()),
        ({
            let t = keys_after(key_models(old(keys)@), *old(truncated), crate::json::member_models(entries@));
            key_models(final(keys)@) == t.keys && *final(truncated) == t.truncated
        }),
{
    let ghost ms = crate::json::member_models(entries@);
    let ghost start = KeyTable { keys: key_models(keys@), truncated: *truncated, seen: Set::empty() };
    let mut counted: Vec<bool> = Vec::new();
    let mut i: usize = 0;
    while i < keys.len()
        invariant
            i <= keys@.len(),
            counted@.len() == i,
            forall|k: int| 0 <= k < i ==> !(#[trigger] counted@[k]),
        decreases keys@.len() - i,
    {
        counted.push(false);
        i = i + 1;
    }
    assert(ms.take(0) =~= Seq::<(Seq<char>, JsonValue)>::empty());
    let mut j: usize = 0;
    while j < entries.len()
        invariant
            ms == crate::json::member_models(entries@),
            start == (KeyTable { keys: key_models(old(keys)@), truncated: *old(truncated), seen: Set::empty() }),
            j <= entries@.len(),
            keys_wf(keys@),
            records >= 0,
            members >= 0,
            records + 1 <= usize::MAX,
            members + entries@.len() <= usize::MAX,
            counted@.len() == keys@.len(),
            ({
                let st = table_record(start, ms.take(j as int));
                &&& key_models(keys@) == st.keys
                &&& *truncated == st.truncated
                &&& forall|k: Seq<char>| #[trigger] st.seen.contains(k) <==> exists|i: int|
                    0 <= i < keys@.len() && keys@[i].key@ == k && counted@[i]
            }),
            forall|i: int| 0 <= i < keys@.len() ==> #[trigger] keys@[i].count <= records + if counted@[i] {
                1int
            } else {
                0int
            },
            forall|i: int, k: int|
                0 <= i < keys@.len() && 0 <= k < keys@[i].types@.len() ==> #[trigger] keys@[i].types@[k].1
                    <= members + j,
        decreases entries@.len() - j,
    {
        let ghost st = table_record(start, ms.take(j as int));
        assert(ms.take(j + 1).drop_last() =~= ms.take(j as int));
        let ghost k = ms[j as int].0;
        let t = json_type(&entries[j].1);
        let ghost next = table_step(st, k, t);
        assert(table_record(start, ms.take(j + 1)) == next);
        assert(k == entries@[j as int].0@);
        let mut i: usize = 0;
        while i < keys.len()
            invariant
                i <= keys@.len(),
                j < entries@.len(),
                forall|x: int| 0 <= x < i ==> (#[trigger] keys@[x]).key@ != entries@[j as int].0@,
            ensures
                i <= keys@.len(),
                forall|x: int| 0 <= x < i ==> (#[trigger] keys@[x]).key@ != entries@[j as int].0@,
                i < keys@.len() ==> keys@[i as int].key@ == entries@[j as int].0@,
            decreases keys@.len() - i,
        {
            if keys[i].key == entries[j].0 {
                break;
            }
            i = i + 1;
        }
        let found = i < keys.len();
        let ghost before = keys@;
        let ghost counted_before = counted@;
        if found {
            proof {
                assert(key_models(keys@)[i as int].key == k);
                let i2 = choose|i2: int| 0 <= i2 < st.keys.len() && st.keys[i2].key == k;
                assert(key_models(keys@)[i2].key == k);
                assert(keys@[i2].key@ == k);
                assert(i2 == i);
                lemma_tally_add_bound(keys@[i as int].types@, t, members + j);
                assert(st.seen.contains(k) == counted@[i as int]) by {
                    if st.seen.contains(k) {
                        let i3 = choose|i3: int| 0 <= i3 < keys@.len() && keys@[i3].key@ == k && counted@[i3];
                        assert(i3 == i);
                    }
                }
            }
            keys[i].types.record(t);
            if !counted[i] {
                keys[i].count = keys[i].count + 1;
                counted.set(i, true);
            }
            proof {
                assert(key_models(keys@) =~= next.keys);
                assert forall|kk: Seq<char>| #[trigger] next.seen.contains(kk) <==> exists|i3: int|
                    0 <= i3 < keys@.len() && keys@[i3].key@ == kk && counted@[i3] by {
                    if kk == k {
                        assert(keys@[i as int].key@ == kk && counted@[i as int]);
                    } else {
                        if st.seen.contains(kk) {
                            let i3 = choose|i3: int|
                                0 <= i3 < before.len() && before[i3].key@ == kk && counted_before[i3];
                            assert(keys@[i3].key@ == kk && counted@[i3]);
                        }
                        if exists|i3: int| 0 <= i3 < keys@.len() && keys@[i3].key@ == kk && counted@[i3] {
                            let i3 = choose|i3: int|
                                0 <= i3 < keys@.len() && keys@[i3].key@ == kk && counted@[i3];
                            assert(before[i3].key@ == kk && counted_before[i3]);
                        }
                    }
                }
                assert forall|x: int, y: int|
                    0 <= x < keys@.len() && 0 <= y < keys@[x].types@.len() implies #[trigger] keys@[x].types@[y].1
                        <= members + j + 1 by {
                    if x != i {
                        assert(keys@[x] == before[x]);
                    }
                }
                assert forall|x: int| 0 <= x < keys@.len() implies tally_wf(#[trigger] keys@[x].types@) by {
                    if x != i {
                        assert(keys@[x] == before[x]);
                    }
                }
                assert forall|x: int, y: int|
                    0 <= x < keys@.len() && 0 <= y < keys@.len() && x != y implies #[trigger] keys@[x].key@
                        != #[trigger] keys@[y].key@ by {
                    assert(keys@[x].key == before[x].key);
                    assert(keys@[y].key == before[y].key);
                }
                assert forall|x: int| 0 <= x < keys@.len() implies #[trigger] keys@[x].count <= records + if counted@[x] {
                    1int
                } else {
                    0int
                } by {
                    if x != i {
                        assert(keys@[x] == before[x]);
                    }
                }
            }
        } else if keys.len() < MAX_KEYS {
            let mut types = TypeTally::new();
            types.record(t);
            keys.push(KeyStat { key: entries[j].0.clone(), count: 1, types });
            counted.push(true);
            proof {
                assert(!(exists|i2: int| 0 <= i2 < st.keys.len() && st.keys[i2].key == k)) by {
                    if exists|i2: int| 0 <= i2 < st.keys.len() && st.keys[i2].key == k {
                        let i2 = choose|i2: int| 0 <= i2 < st.keys.len() && st.keys[i2].key == k;
                        assert(before[i2].key@ == k);
                    }
                }
                assert(types@ =~= seq![(t, 1usize)]);
                assert(key_models(keys@) =~= next.keys);
                assert forall|kk: Seq<char>| #[trigger] next.seen.contains(kk) <==> exists|i3: int|
                    0 <= i3 < keys@.len() && keys@[i3].key@ == kk && counted@[i3] by {
                    if kk == k {
                        assert(keys@[before.len() as int].key@ == kk && counted@[before.len() as int]);
                    } else {
                        if st.seen.contains(kk) {
                            let i3 = choose|i3: int|
                                0 <= i3 < before.len() && before[i3].key@ == kk && counted_before[i3];
                            assert(keys@[i3].key@ == kk && counted@[i3]);
                        }
                        if exists|i3: int| 0 <= i3 < keys@.len() && keys@[i3].key@ == kk && counted@[i3] {
                            let i3 = choose|i3: int|
                                0 <= i3 < keys@.len() && keys@[i3].key@ == kk && counted@[i3];
                            assert(i3 < before.len());
                            assert(before[i3].key@ == kk && counted_before[i3]);
                        }
                    }
                }
                assert forall|x: int, y: int|
                    0 <= x < keys@.len() && 0 <= y < keys@[x].types@.len() implies #[trigger] keys@[x].types@[y].1
                        <= members + j + 1 by {
                    if x < before.len() {
                        assert(keys@[x] == before[x]);
                    }
                }
                assert forall|x: int| 0 <= x < keys@.len() implies tally_wf(#[trigger] keys@[x].types@) by {
                    if x < before.len() {
                        assert(keys@[x] == before[x]);
                    }
                }
                assert forall|x: int, y: int|
                    0 <= x < keys@.len() && 0 <= y < keys@.len() && x != y implies #[trigger] keys@[x].key@
                        != #[trigger] keys@[y].key@ by {
                    if x < before.len() && y < before.len() {
                        assert(keys@[x] == before[x] && keys@[y] == before[y]);
                    } else if x < before.len() {
                        assert(keys@[x] == before[x]);
                    } else {
                        assert(keys@[y] == before[y]);
                    }
                }
                assert forall|x: int| 0 <= x < keys@.len() implies #[trigger] keys@[x].count <= records + if counted@[x] {
                    1int
                } else {
                    0int
                } by {
                    if x < before.len() {
                        assert(keys@[x] == before[x]);
                    }
                }
            }
        } else {
            *truncated = true;
            proof {
                assert(!(exists|i2: int| 0 <= i2 < st.keys.len() && st.keys[i2].key == k)) by {
                    if exists|i2: int| 0 <= i2 < st.keys.len() && st.keys[i2].key == k {
                        let i2 = choose|i2: int| 0 <= i2 < st.keys.len() && st.keys[i2].key == k;
                        assert(before[i2].key@ == k);
                    }
                }
            }
        }
        j = j + 1;
    }
    assert(ms.take(entries@.len() as int) =~= ms);
}

/// `post` is the field `pre` after the record `v`: the record counts as
/// present when the path selects anything in it, and every selected value is
/// counted, in document order, each under a display form of it.
pub open spec fn field_recorded<F: Fn(&str) -> String>(
    pre: FieldStat,
    post: FieldStat,
    v: JsonValue,
    render_float: F,
) -> bool {
    let matches = walk(v, pre.path.segs());
    &&& post.path == pre.path
    &&& post.records_present == pre.records_present + if matches.len() > 0 {
        1int
    } else {
        0int
    }
    &&& exists|rs: Seq<Seq<char>>|
        {
            &&& rs.len() == matches.len()
            &&& forall|k: int| 0 <= k < rs.len() ==> #[trigger] renders(render_float, matches[k], rs[k])
            &&& post.tally() == tally_values(pre.tally(), matches, rs)
        }
}

/// Folds the record `value` into one field's distribution.
fn record_field<F: Fn(&str) -> String>(
    field: &mut FieldStat,
    value: &Value,
    render_float: &F,
    Ghost(records): Ghost<int>,
    Ghost(budget): Ghost<int>,
)
    requires
        old(field).wf(),
        old(field).records_present <= records,
        old(field).values <= budget,
        records + 1 <= usize::MAX,
        budget + nodes(value.model()) <= usize::MAX,
        forall|s: &str| #[trigger] render_float.requires((s,)),
    ensures
        final(field).wf(),
        final(field).records_present <= records + 1,
        final(field).values <= budget + nodes(value.model()),
        field_recorded(*old(field), *final(field), value.model(), *render_float),
{
    let matches = walk_path(value, field.path.segments());
    let ghost segs = field.path.segs();
    let ghost ms = walk(value.model(), segs);
    let ghost pre = field.tally();
    proof {
        lemma_walk_nodes(value.model(), segs);
    }
    let present = matches.len() > 0;
    let ghost mut rs: Seq<Seq<char>> = Seq::empty();
    assert(ms.take(0) =~= Seq::<JsonValue>::empty());
    let mut m: usize = 0;
    while m < matches.len()
        invariant
            ms == ref_models(matches@),
            ms.len() <= nodes(value.model()),
            budget + nodes(value.model()) <= usize::MAX,
            forall|s: &str| #[trigger] render_float.requires((s,)),
            field.wf(),
            field.path == old(field).path,
            field.records_present == old(field).records_present,
            present == (ms.len() > 0),
            pre == old(field).tally(),
            old(field).values <= budget,
            m <= matches@.len(),
            field.values == old(field).values + m,
            rs.len() == m,
            forall|k: int| 0 <= k < rs.len() ==> #[trigger] renders(*render_float, ms[k], rs[k]),
            field.tally() == tally_values(pre, ms.take(m as int), rs),
        decreases matches@.len() - m,
    {
        let ghost before = field.tally();
        field.record(matches[m], render_float);
        proof {
            let v = ms[m as int];
            assert(matches@[m as int].model() == v);
            let r = choose|r: Seq<char>|
                renders(*render_float, v, r) && field.tally() == tally_value(before, type_of(v), r);
            let rs2 = rs.push(r);
            assert(ms.take(m + 1).drop_last() =~= ms.take(m as int));
            assert(rs2.drop_last() =~= rs);
            assert(forall|k: int| 0 <= k < rs2.len() ==> #[trigger] renders(*render_float, ms[k], rs2[k]));
            rs = rs2;
        }
        m = m + 1;
    }
    if present {
        field.records_present = field.records_present + 1;
    }
    assert(ms.take(ms.len() as int) =~= ms);
}

// ---------------------------------------------------------------------------
// The whole pass
// ---------------------------------------------------------------------------

/// What to collect besides the fixed counts.
pub struct StatsOptions {
    /// The `--field` paths whose value distributions are collected.
    pub fields: Vec<FieldPath>,
    /// How many of the most common values a report lists per field.
    pub top: usize,
    /// How many rejected lines are kept with their details.
    pub max_errors: usize,
}

impl Default for StatsOptions {
    fn default() -> (r: StatsOptions)
        ensures
            r.fields@.len() == 0,
            r.top == 10,
            r.max_errors == 10,
    {
        StatsOptions { fields: Vec::new(), top: 10, max_errors: 10 }
    }
}

/// One rejected line, with enough detail to point a caller straight at it.
pub struct ParseIssue {
    pub line: usize,
    pub column: usize,
    pub reason: String,
}

/// The kept issues as `(line, column, reason)`.
pub open spec fn issue_views(issues: Seq<ParseIssue>) -> Seq<(nat, nat, Seq<char>)> {
    Seq::new(issues.len(), |i: int| (issues[i].line as nat, issues[i].column as nat, issues[i].reason@))
}

/// What one line of the file turns out to be.
pub enum LineOutcome {
    /// An empty line.
    Blank,
    /// Bytes that are not UTF-8; the 1-based column of the first byte that
    /// breaks it.
    BadUtf8(int),
    /// Text that is not one JSON value.
    Rejected(ErrorModel),
    /// One JSON value.
    Parsed(JsonValue),
}

/// What the line `line` turns out to be.
pub open spec fn line_outcome(line: Seq<u8>) -> LineOutcome {
    if line.len() == 0 {
        LineOutcome::Blank
    } else if !valid_utf8(line) {
        LineOutcome::BadUtf8(valid_up_to(line) + 1)
    } else {
        match parse_model(decode_utf8(line)) {
            Ok(v) => LineOutcome::Parsed(v),
            Err(e) => LineOutcome::Rejected(e),
        }
    }
}

/// The running counts of a stats pass over a file.
pub struct Stats {
    /// Lines read, blank ones included.
    pub lines: usize,
    pub blank: usize,
    pub valid: usize,
    pub invalid: usize,
    /// Bytes of all lines, line endings excluded.
    pub bytes: u64,
    /// The kinds of the top-level values.
    pub top_level: TypeTally,
    /// The lengths in bytes of the non-blank lines.
    pub line_length: Histogram,
    pub keys: Vec<KeyStat>,
    pub keys_truncated: bool,
    pub fields: Vec<FieldStat>,
    /// The first `max_errors` rejected lines.
    pub issues: Vec<ParseIssue>,
    pub max_errors: usize,
}

/// `post` is `pre` after a rejected line, `line` of the file, rejected at
/// `column` for `reason`: it counts as invalid, and its details are kept while
/// fewer than `max_errors` are.
pub open spec fn issue_recorded(pre: Stats, post: Stats, line: nat, column: nat, reason: Seq<char>) -> bool {
    &&& post.valid == pre.valid
    &&& post.invalid == pre.invalid + 1
    &&& issue_views(post.issues@) == if pre.issues@.len() < pre.max_errors {
        issue_views(pre.issues@).push((line, column, reason))
    } else {
        issue_views(pre.issues@)
    }
    &&& post.top_level@ == pre.top_level@
    &&& post.keys@ == pre.keys@
    &&& post.keys_truncated == pre.keys_truncated
    &&& post.fields@ == pre.fields@
}

/// `post` is `pre` after a line holding the value `v`: it counts as valid,
/// its kind is tallied, the members of a top-level object go into the key
/// table, and every field collects what its path selects in `v`.
pub open spec fn value_recorded<F: Fn(&str) -> String>(
    pre: Stats,
    post: Stats,
    v: JsonValue,
    render_float: F,
) -> bool {
    &&& post.valid == pre.valid + 1
    &&& post.invalid == pre.invalid
    &&& post.issues@ == pre.issues@
    &&& post.top_level@ == tally_add(pre.top_level@, type_of(v))
    &&& match v {
        JsonValue::Object(entries) => {
            let t = keys_after(key_models(pre.keys@), pre.keys_truncated, entries);
            key_models(post.keys@) == t.keys && post.keys_truncated == t.truncated
        },
        _ => post.keys@ == pre.keys@ && post.keys_truncated == pre.keys_truncated,
    }
    &&& post.fields@.len() == pre.fields@.len()
    &&& forall|i: int|
        0 <= i < pre.fields@.len() ==> #[trigger] field_recorded(
            pre.fields@[i],
            post.fields@[i],
            v,
            render_float,
        )
}

impl Stats {
    /// The parts that describe the records: tallies, key table and fields are
    /// well formed, keys and fields count at most `records` records, and no
    /// count of values exceeds `budget`.
    pub open spec fn records_wf(&self, records: int, budget: int) -> bool {
        &&& tally_wf(self.top_level@)
        &&& forall|k: int| 0 <= k < self.top_level@.len() ==> #[trigger] self.top_level@[k].1 <= records
        &&& keys_wf(self.keys@)
        &&& keys_bounded(self.keys@, records, budget)
        &&& forall|i: int|
            0 <= i < self.fields@.len() ==> {
                &&& (#[trigger] self.fields@[i]).wf()
                &&& self.fields@[i].records_present <= records
                &&& self.fields@[i].values <= budget
            }
    }

    /// The invariant of the running counts: every line is blank, valid or
    /// invalid; the histogram holds the lengths of the non-blank lines; no
    /// count can outgrow the lines and bytes read; the first `max_errors`
    /// invalid lines, and no others, are kept as issues.
    pub open spec fn wf(&self) -> bool {
        &&& self.blank + self.valid + self.invalid == self.lines
        &&& self.line_length.wf()
        &&& self.line_length.values().len() + self.blank == self.lines
        &&& total(self.line_length.values()) == self.bytes
        &&& self.records_wf(self.valid as int, self.lines + self.bytes)
        &&& tally_total(self.top_level@) == self.valid
        &&& self.issues@.len() == if self.invalid < self.max_errors {
            self.invalid as int
        } else {
            self.max_errors as int
        }
    }

    /// Empty counts, with one empty distribution per field of `options`.
    pub fn new(options: &StatsOptions) -> (r: Stats)
        ensures
            r.wf(),
            r.lines == 0 && r.blank == 0 && r.valid == 0 && r.invalid == 0 && r.bytes == 0,
            r.top_level@ == Seq::<(JsonType, usize)>::empty(),
            r.line_length.values() == Seq::<u64>::empty(),
            r.keys@ == Seq::<KeyStat>::empty(),
            !r.keys_truncated,
            r.issues@ == Seq::<ParseIssue>::empty(),
            r.max_errors == options.max_errors,
            r.fields@.len() == options.fields@.len(),
            forall|i: int|
                0 <= i < r.fields@.len() ==> {
                    &&& (#[trigger] r.fields@[i]).path.text() == options.fields@[i].text()
                    &&& r.fields@[i].path.segs() == options.fields@[i].segs()
                    &&& r.fields@[i].records_present == 0
                    &&& r.fields@[i].tally() == (FieldTally {
                        values: 0,
                        types: Seq::empty(),
                        counts: Seq::empty(),
                        truncated: false,
                    })
                },
    {
        let mut fields: Vec<FieldStat> = Vec::new();
        let mut i: usize = 0;
        while i < options.fields.len()
            invariant
                i <= options.fields@.len(),
                fields@.len() == i,
                forall|k: int|
                    0 <= k < i ==> {
                        &&& (#[trigger] fields@[k]).wf()
                        &&& fields@[k].path.text() == options.fields@[k].text()
                        &&& fields@[k].path.segs() == options.fields@[k].segs()
                        &&& fields@[k].records_present == 0
                        &&& fields@[k].tally() == (FieldTally {
                            values: 0,
                            types: Seq::empty(),
                            counts: Seq::empty(),
                            truncated: false,
                        })
                    },
            decreases options.fields@.len() - i,
        {
            fields.push(FieldStat::new(options.fields[i].clone()));
            i = i + 1;
        }
        Stats {
            lines: 0,
            blank: 0,
            valid: 0,
            invalid: 0,
            bytes: 0,
            top_level: TypeTally::new(),
            line_length: Histogram::new(),
            keys: Vec::new(),
            keys_truncated: false,
            fields,
            issues: Vec::new(),
            max_errors: options.max_errors,
        }
    }

    fn record_issue(&mut self, line: usize, column: usize, reason: String)
        requires
            old(self).invalid < usize::MAX,
        ensures
            issue_recorded(*old(self), *final(self), line as nat, column as nat, reason@),
            final(self).lines == old(self).lines,
            final(self).blank == old(self).blank,
            final(self).bytes == old(self).bytes,
            final(self).line_length == old(self).line_length,
            final(self).max_errors == old(self).max_errors,
            final(self).issues@.len() == if old(self).issues@.len() < old(self).max_errors {
                old(self).issues@.len() + 1int
            } else {
                old(self).issues@.len() as int
            },
    {
        self.invalid = self.invalid + 1;
        if self.issues.len() < self.max_errors {
            let ghost before = self.issues@;
            let ghost r = reason@;
            self.issues.push(ParseIssue { line, column, reason });
            assert(issue_views(self.issues@) =~= issue_views(before).push((line as nat, column as nat, r)));
        }
    }
}

impl Stats {
    /// Folds one parsed record into the tallies, the key table and the
    /// fields; `budget` bounds what the counts of values were before it.
    #[verifier::loop_isolation(false)]
    fn record_value<F: Fn(&str) -> String>(
        &mut self,
        value: &Value,
        render_float: &F,
        Ghost(budget): Ghost<int>,
    )
        requires
            old(self).records_wf(old(self).valid as int, budget),
            budget >= 0,
            old(self).valid + 1 <= usize::MAX,
            budget + nodes(value.model()) <= usize::MAX,
            forall|s: &str| #[trigger] render_float.requires((s,)),
        ensures
            final(self).records_wf(old(self).valid + 1, budget + nodes(value.model())),
            final(self).lines == old(self).lines,
            final(self).blank == old(self).blank,
            final(self).valid == old(self).valid,
            final(self).invalid == old(self).invalid,
            final(self).bytes == old(self).bytes,
            final(self).line_length == old(self).line_length,
            final(self).issues@ == old(self).issues@,
            final(self).max_errors == old(self).max_errors,
            final(self).top_level@ == tally_add(old(self).top_level@, type_of(value.model())),
            match value.model() {
                JsonValue::Object(entries) => {
                    let t = keys_after(key_models(old(self).keys@), old(self).keys_truncated, entries);
                    key_models(final(self).keys@) == t.keys && final(self).keys_truncated == t.truncated
                },
                _ => final(self).keys@ == old(self).keys@ && final(self).keys_truncated
                    == old(self).keys_truncated,
            },
            final(self).fields@.len() == old(self).fields@.len(),
            forall|i: int|
                0 <= i < old(self).fields@.len() ==> #[trigger] field_recorded(
                    old(self).fields@[i],
                    final(self).fields@[i],
                    value.model(),
                    *render_float,
                ),
    {
        let ghost records = self.valid as int;
        let ghost n = nodes(value.model());
        proof {
            lemma_tally_add_bound(self.top_level@, json_type_spec(value), records);
        }
        self.top_level.record(json_type(value));
        if let Value::Object(entries) = value {
            proof {
                crate::json::lemma_object_model(*entries);
                lemma_members_count(crate::json::member_models(entries@));
            }
            record_members(&mut self.keys, &mut self.keys_truncated, entries, Ghost(records), Ghost(budget));
        }
        proof {
            assert forall|i: int, k: int|
                0 <= i < self.keys@.len() && 0 <= k < self.keys@[i].types@.len() implies #[trigger] self.keys@[i].types@[k].1
                    <= budget + n by {
                if let Value::Object(entries) = value {
                    assert(self.keys@[i].types@[k].1 <= budget + entries@.len());
                }
            }
            assert forall|i: int| 0 <= i < self.keys@.len() implies #[trigger] self.keys@[i].count <= records + 1 by {
                if let Value::Object(entries) = value {
                } else {
                    assert(self.keys@[i].count <= records);
                }
            }
        }
        let ghost pre_fields = self.fields@;
        let ghost mid = *self;
        let mut i: usize = 0;
        while i < self.fields.len()
            invariant
                self.lines == mid.lines && self.blank == mid.blank && self.valid == mid.valid,
                self.invalid == mid.invalid && self.bytes == mid.bytes,
                self.line_length == mid.line_length && self.issues == mid.issues,
                self.max_errors == mid.max_errors && self.top_level == mid.top_level,
                self.keys == mid.keys && self.keys_truncated == mid.keys_truncated,
                pre_fields == old(self).fields@,
                self.fields@.len() == pre_fields.len(),
                i <= pre_fields.len(),
                records == old(self).valid,
                records + 1 <= usize::MAX,
                budget >= 0,
                n == nodes(value.model()),
                budget + n <= usize::MAX,
                forall|s: &str| #[trigger] render_float.requires((s,)),
                forall|k: int|
                    0 <= k < i ==> {
                        &&& (#[trigger] self.fields@[k]).wf()
                        &&& self.fields@[k].records_present <= records + 1
                        &&& self.fields@[k].values <= budget + n
                        &&& field_recorded(pre_fields[k], self.fields@[k], value.model(), *render_float)
                    },
                forall|k: int|
                    i <= k < pre_fields.len() ==> {
                        &&& #[trigger] self.fields@[k] == pre_fields[k]
                        &&& pre_fields[k].wf()
                        &&& pre_fields[k].records_present <= records
                        &&& pre_fields[k].values <= budget
                    },
            decreases pre_fields.len() - i,
        {
            let ghost before = self.fields@;
            record_field(&mut self.fields[i], value, render_float, Ghost(records), Ghost(budget));
            proof {
                assert forall|k: int| 0 <= k < pre_fields.len() && k != i implies #[trigger] self.fields@[k] == before[k] by {}
            }
            i = i + 1;
        }
    }
}

/// The kind of `value`, in specifications.
pub open spec fn json_type_spec(value: &Value) -> JsonType {
    type_of(value.model())
}

impl Stats {
    /// Looser bounds still hold.
    proof fn lemma_records_wf_mono(&self, records: int, budget: int, records2: int, budget2: int)
        requires
            self.records_wf(records, budget),
            records <= records2,
            budget <= budget2,
        ensures
            self.records_wf(records2, budget2),
    {
        assert forall|i: int| 0 <= i < self.fields@.len() implies {
            &&& (#[trigger] self.fields@[i]).wf()
            &&& self.fields@[i].records_present <= records2
            &&& self.fields@[i].values <= budget2
        } by {}
        assert forall|i: int, k: int|
            0 <= i < self.keys@.len() && 0 <= k < self.keys@[i].types@.len() implies #[trigger] self.keys@[i].types@[k].1
                <= budget2 by {}
    }

    /// Folds one line of the file into the running counts. `log_index` is the
    /// histogram's log bucket for the line's length (used when the length is
    /// 16 or more); `render_float` gives the display form of a float from its
    /// literal text.
    #[verifier::rlimit(40)]
    pub fn record_line<F: Fn(&str) -> String>(&mut self, line: &[u8], log_index: usize, render_float: &F)
        requires
            old(self).wf(),
            old(self).lines + old(self).bytes + line@.len() + 1 <= usize::MAX,
            log_index < usize::MAX,
            forall|s: &str| #[trigger] render_float.requires((s,)),
        ensures
            final(self).wf(),
            final(self).lines == old(self).lines + 1,
            final(self).bytes == old(self).bytes + line@.len(),
            final(self).max_errors == old(self).max_errors,
            line@.len() > 0 ==> final(self).blank == old(self).blank
                && final(self).line_length.added() == old(self).line_length.added().push(
                (line@.len() as u64, log_index),
            ),
            match line_outcome(line@) {
                LineOutcome::Blank => {
                    &&& final(self).blank == old(self).blank + 1
                    &&& final(self).line_length == old(self).line_length
                    &&& final(self).valid == old(self).valid
                    &&& final(self).invalid == old(self).invalid
                    &&& final(self).issues@ == old(self).issues@
                    &&& final(self).top_level@ == old(self).top_level@
                    &&& final(self).keys@ == old(self).keys@
                    &&& final(self).keys_truncated == old(self).keys_truncated
                    &&& final(self).fields@ == old(self).fields@
                },
                LineOutcome::BadUtf8(column) => issue_recorded(
                    *old(self),
                    *final(self),
                    (old(self).lines + 1) as nat,
                    column as nat,
                    "invalid utf-8"@,
                ),
                LineOutcome::Rejected(e) => issue_recorded(
                    *old(self),
                    *final(self),
                    (old(self).lines + 1) as nat,
                    e.column,
                    e.message,
                ),
                LineOutcome::Parsed(v) => value_recorded(*old(self), *final(self), v, *render_float),
            },
    {
        let ghost budget: int = self.lines + self.bytes;
        let ghost old_top = self.top_level@;
        let len = line.len();
        self.lines = self.lines + 1;
        self.bytes = self.bytes + len as u64;
        if len == 0 {
            self.blank = self.blank + 1;
            assert(self.line_length.values().len() + self.blank == self.lines);
            proof {
                self.lemma_records_wf_mono(self.valid as int, budget, self.valid as int, self.lines + self.bytes);
            }
            return;
        }
        let ghost vs = self.line_length.values();
        self.line_length.add(len as u64, log_index);
        assert(self.line_length.values().drop_last() =~= vs);
        assert(total(self.line_length.values()) == self.bytes);
        let line_number = self.lines;
        match utf8_text(line) {
            Err(valid) => {
                proof {
                    crate::text::lemma_valid_up_to(line@, valid as int);
                    assert(line_outcome(line@) == LineOutcome::BadUtf8(valid + 1));
                }
                let reason = owned("invalid utf-8");
                self.record_issue(line_number, valid + 1, reason);
                proof {
                    self.lemma_records_wf_mono(self.valid as int, budget, self.valid as int, self.lines + self.bytes);
                }
            },
            Ok(text) => {
                proof {
                    crate::text::lemma_decoded_text(text, line@);
                }
                match crate::json::parse(text) {
                    Ok(value) => {
                        proof {
                            crate::json::lemma_document_nodes(text@);
                        }
                        assert(line_outcome(line@) == LineOutcome::Parsed(value.model()));
                        proof {
                            lemma_tally_add_bound(old_top, type_of(value.model()), self.valid as int);
                            lemma_tally_add_total(old_top, type_of(value.model()));
                        }
                        self.record_value(&value, render_float, Ghost(budget));
                        self.valid = self.valid + 1;
                        proof {
                            self.lemma_records_wf_mono(
                                self.valid as int,
                                budget + nodes(value.model()),
                                self.valid as int,
                                self.lines + self.bytes,
                            );
                        }
                    },
                    Err(e) => {
                        assert(line_outcome(line@) == LineOutcome::Rejected(e.model()));
                        self.record_issue(line_number, e.column, e.message);
                        proof {
                            self.lemma_records_wf_mono(self.valid as int, budget, self.valid as int, self.lines + self.bytes);
                        }
                    },
                }
            },
        }
    }
}

proof fn lemma_walk_items_whole(items: Seq<JsonValue>)
    ensures
        walk_items(items, Seq::empty()) == items,
    decreases items.len(),
{
    if items.len() > 0 {
        let init = items.subrange(0, items.len() - 1);
        lemma_walk_items_whole(init);
        assert(walk(items[items.len() - 1], Seq::empty()) == seq![items[items.len() - 1]]);
        assert(init + seq![items[items.len() - 1]] =~= items);
    }
}

/// An index picks one element of an array and walks on from it: a
/// non-negative index counts from the front, a negative one from the end
/// (so `-1` is the last element and picks what `len - 1` picks), and an
/// index outside the array picks nothing. On its own, index `i` picks the
/// `i`-th of the elements that `[]` picks.
pub proof fn index_selects_one_element(items: Seq<JsonValue>, i: i64, rest: Seq<SegmentModel>)
    ensures
        0 <= i < items.len() ==> walk(JsonValue::Array(items), seq![SegmentModel::Index(i)] + rest) == walk(
            items[i as int],
            rest,
        ),
        i < 0 && 0 <= i + items.len() ==> walk(JsonValue::Array(items), seq![SegmentModel::Index(i)] + rest)
            == walk(items[i + items.len()], rest),
        i < 0 && 0 <= i + items.len() && i + items.len() <= i64::MAX ==> walk(
            JsonValue::Array(items),
            seq![SegmentModel::Index(i)] + rest,
        ) == walk(JsonValue::Array(items), seq![SegmentModel::Index((i + items.len()) as i64)] + rest),
        (i >= items.len() || i + items.len() < 0) ==> walk(
            JsonValue::Array(items),
            seq![SegmentModel::Index(i)] + rest,
        ) == Seq::<JsonValue>::empty(),
        walk(JsonValue::Array(items), seq![SegmentModel::Every]) == items,
        0 <= i < items.len() ==> walk(JsonValue::Array(items), seq![SegmentModel::Index(i)]) == seq![
            walk(JsonValue::Array(items), seq![SegmentModel::Every])[i as int],
        ],
{
    let segs = seq![SegmentModel::Index(i)] + rest;
    assert(segs[0] == SegmentModel::Index(i));
    assert(segs.drop_first() =~= rest);
    if i < 0 && 0 <= i + items.len() && i + items.len() <= i64::MAX {
        let j = (i + items.len()) as i64;
        let segs2 = seq![SegmentModel::Index(j)] + rest;
        assert(segs2[0] == SegmentModel::Index(j));
        assert(segs2.drop_first() =~= rest);
    }
    let one = seq![SegmentModel::Index(i)];
    assert(one[0] == SegmentModel::Index(i));
    assert(one.drop_first() =~= Seq::<SegmentModel>::empty());
    let every = seq![SegmentModel::Every];
    assert(every[0] == SegmentModel::Every);
    assert(every.drop_first() =~= Seq::<SegmentModel>::empty());
    lemma_walk_items_whole(items);
    if 0 <= i < items.len() {
        assert(walk(items[i as int], Seq::empty()) == seq![items[i as int]]);
    }
}

proof fn lemma_walk_members_none(entries: Seq<(Seq<char>, JsonValue)>, k: Seq<char>, segs: Seq<SegmentModel>)
    requires
        forall|j: int| 0 <= j < entries.len() ==> (#[trigger] entries[j]).0 != k,
    ensures
        walk_members(entries, k, segs) == Seq::<JsonValue>::empty(),
    decreases entries.len(),
{
    if entries.len() > 0 {
        let init = entries.subrange(0, entries.len() - 1);
        assert forall|j: int| 0 <= j < init.len() implies (#[trigger] init[j]).0 != k by {
            assert(init[j] == entries[j]);
        }
        lemma_walk_members_none(init, k, segs);
        assert(entries[entries.len() - 1].0 != k);
        assert(Seq::<JsonValue>::empty() + Seq::<JsonValue>::empty() =~= Seq::<JsonValue>::empty());
    }
}

proof fn lemma_walk_members_one(
    entries: Seq<(Seq<char>, JsonValue)>,
    k: Seq<char>,
    segs: Seq<SegmentModel>,
    j: int,
)
    requires
        0 <= j < entries.len(),
        entries[j].0 == k,
        forall|i: int| 0 <= i < entries.len() && i != j ==> (#[trigger] entries[i]).0 != k,
    ensures
        walk_members(entries, k, segs) == walk(entries[j].1, segs),
    decreases entries.len(),
{
    let n = entries.len() - 1;
    let init = entries.subrange(0, n);
    if j == n {
        assert forall|i: int| 0 <= i < init.len() implies (#[trigger] init[i]).0 != k by {
            assert(init[i] == entries[i]);
        }
        lemma_walk_members_none(init, k, segs);
        assert(Seq::<JsonValue>::empty() + walk(entries[j].1, segs) =~= walk(entries[j].1, segs));
    } else {
        assert(init[j] == entries[j]);
        assert forall|i: int| 0 <= i < init.len() && i != j implies (#[trigger] init[i]).0 != k by {
            assert(init[i] == entries[i]);
        }
        lemma_walk_members_one(init, k, segs, j);
        assert(entries[n].0 != k);
        assert(walk(entries[j].1, segs) + Seq::<JsonValue>::empty() =~= walk(entries[j].1, segs));
    }
}

/// A key picks the member of that name and walks on from its value; a key
/// no member has picks nothing, and so does a key applied to anything but
/// an object.
pub proof fn key_selects_its_member(entries: Seq<(Seq<char>, JsonValue)>, k: Seq<char>, rest: Seq<SegmentModel>, j: int)
    requires
        0 <= j < entries.len(),
        entries[j].0 == k,
        forall|i: int| 0 <= i < entries.len() && i != j ==> (#[trigger] entries[i]).0 != k,
    ensures
        walk(JsonValue::Object(entries), seq![SegmentModel::Key(k)] + rest) == walk(entries[j].1, rest),
        forall|other: Seq<char>|
            (forall|i: int| 0 <= i < entries.len() ==> (#[trigger] entries[i]).0 != other) ==> walk(
                JsonValue::Object(entries),
                #[trigger] (seq![SegmentModel::Key(other)] + rest),
            ) == Seq::<JsonValue>::empty(),
        forall|items: Seq<JsonValue>|
            #[trigger] walk(JsonValue::Array(items), seq![SegmentModel::Key(k)] + rest) == Seq::<JsonValue>::empty(),
{
    let segs = seq![SegmentModel::Key(k)] + rest;
    assert(segs[0] == SegmentModel::Key(k));
    assert(segs.drop_first() =~= rest);
    lemma_walk_members_one(entries, k, rest, j);
    assert forall|other: Seq<char>|
        (forall|i: int| 0 <= i < entries.len() ==> (#[trigger] entries[i]).0 != other) implies walk(
            JsonValue::Object(entries),
            #[trigger] (seq![SegmentModel::Key(other)] + rest),
        ) == Seq::<JsonValue>::empty() by {
        let s2 = seq![SegmentModel::Key(other)] + rest;
        assert(s2[0] == SegmentModel::Key(other));
        assert(s2.drop_first() =~= rest);
        lemma_walk_members_none(entries, other, rest);
    }
}

} // verus!
