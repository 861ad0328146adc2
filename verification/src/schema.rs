//! Structural profile of a JSONL file: every distinct path up to a depth
//! limit, how often each path shows up, and what JSON types were seen there.
//! Where `stats` counts the fields you already know to look for, `schema`
//! finds every field there is.
//!
//! [`Schema::record_line`] folds one line into the profile and
//! [`Schema::finish`] filters and sorts it; the caller reads the file.

use vstd::prelude::*;
use crate::json::{JsonValue, Value, nodes, nodes_of_items, nodes_of_members, parse_model};
use crate::stats::{JsonType, type_of, tally_add, tally_wf, tally_total, lemma_tally_add_total, count_in, json_type, text_less, text_before, lemma_text_less_total, lemma_text_less_transitive, lemma_text_less_irreflexive};
use crate::text::{push_str, chars_of, utf8_text, valid_up_to};
use crate::index::{TextIndex, hash_text, text_hash};
use vstd::utf8::{valid_utf8, decode_utf8};

pub use crate::stats::TypeTally;

verus! {

/// How many distinct paths are tracked before the table stops growing.
pub const MAX_PATHS: usize = 2000;

// ---------------------------------------------------------------------------
// The paths a record shows
// ---------------------------------------------------------------------------

/// The path of member `k` under `prefix`: joined with `.`, or `k` alone at the
/// top level.
pub open spec fn member_path(prefix: Seq<char>, k: Seq<char>) -> Seq<char> {
    if prefix.len() == 0 {
        k
    } else {
        prefix + "."@ + k
    }
}

/// Every `(path, value)` the walk of `v` records, in order, when `v` sits at
/// `prefix`, `depth` levels down, and the walk stops at `max_depth` levels:
/// each object member and array element is recorded (members under their
/// joined path, elements under `prefix[]`) and then walked in turn. Scalars
/// end the walk.
pub open spec fn visits(v: JsonValue, prefix: Seq<char>, depth: nat, max_depth: nat) -> Seq<(Seq<char>, JsonValue)>
    decreases v,
{
    if depth >= max_depth {
        Seq::empty()
    } else {
        match v {
            JsonValue::Object(entries) => visits_members(entries, prefix, depth, max_depth),
            JsonValue::Array(items) => visits_items(items, prefix + "[]"@, depth, max_depth),
            _ => Seq::empty(),
        }
    }
}

/// The visits of the members of an object at `prefix`.
pub open spec fn visits_members(
    entries: Seq<(Seq<char>, JsonValue)>,
    prefix: Seq<char>,
    depth: nat,
    max_depth: nat,
) -> Seq<(Seq<char>, JsonValue)>
    decreases entries,
{
    if entries.len() == 0 {
        Seq::empty()
    } else {
        let last = entries[entries.len() - 1];
        let p = member_path(prefix, last.0);
        visits_members(entries.subrange(0, entries.len() - 1), prefix, depth, max_depth) + seq![(p, last.1)]
            + visits(last.1, p, depth + 1, max_depth)
    }
}

/// The visits of the elements of an array whose elements sit at `p`.
pub open spec fn visits_items(items: Seq<JsonValue>, p: Seq<char>, depth: nat, max_depth: nat) -> Seq<
    (Seq<char>, JsonValue),
>
    decreases items,
{
    if items.len() == 0 {
        Seq::empty()
    } else {
        let last = items[items.len() - 1];
        visits_items(items.subrange(0, items.len() - 1), p, depth, max_depth) + seq![(p, last)] + visits(
            last,
            p,
            depth + 1,
            max_depth,
        )
    }
}

/// A walk visits fewer values than there are in the value walked.
pub proof fn lemma_visits_nodes(v: JsonValue, prefix: Seq<char>, depth: nat, max_depth: nat)
    ensures
        visits(v, prefix, depth, max_depth).len() + 1 <= nodes(v),
    decreases v,
{
    if depth < max_depth {
        match v {
            JsonValue::Object(entries) => lemma_visits_members_nodes(entries, prefix, depth, max_depth),
            JsonValue::Array(items) => lemma_visits_items_nodes(items, prefix + "[]"@, depth, max_depth),
            _ => {},
        }
    }
}

proof fn lemma_visits_members_nodes(
    entries: Seq<(Seq<char>, JsonValue)>,
    prefix: Seq<char>,
    depth: nat,
    max_depth: nat,
)
    ensures
        visits_members(entries, prefix, depth, max_depth).len() <= nodes_of_members(entries),
    decreases entries,
{
    if entries.len() > 0 {
        let last = entries[entries.len() - 1];
        lemma_visits_members_nodes(entries.subrange(0, entries.len() - 1), prefix, depth, max_depth);
        lemma_visits_nodes(last.1, member_path(prefix, last.0), depth + 1, max_depth);
    }
}

proof fn lemma_visits_items_nodes(items: Seq<JsonValue>, p: Seq<char>, depth: nat, max_depth: nat)
    ensures
        visits_items(items, p, depth, max_depth).len() <= nodes_of_items(items),
    decreases items,
{
    if items.len() > 0 {
        lemma_visits_items_nodes(items.subrange(0, items.len() - 1), p, depth, max_depth);
        lemma_visits_nodes(items[items.len() - 1], p, depth + 1, max_depth);
    }
}

// ---------------------------------------------------------------------------
// The path table
// ---------------------------------------------------------------------------

/// One distinct path found in the file: how many records contained it at
/// least once, how many values were seen there in total (more than one per
/// record if the path fans out through a `[]`), and what types those values
/// were.
pub struct PathStat {
    pub path: String,
    pub records_present: usize,
    pub values: usize,
    pub types: TypeTally,
}

/// The mathematical form of a [`PathStat`].
pub struct PathModel {
    pub path: Seq<char>,
    pub records_present: nat,
    pub values: nat,
    pub types: Seq<(JsonType, usize)>,
}

impl PathStat {
    pub open spec fn model(&self) -> PathModel {
        PathModel {
            path: self.path@,
            records_present: self.records_present as nat,
            values: self.values as nat,
            types: self.types@,
        }
    }
}

/// The models of a path table.
pub open spec fn path_models(paths: Seq<PathStat>) -> Seq<PathModel> {
    Seq::new(paths.len(), |i: int| paths[i].model())
}

/// The path table while one record is being walked: the paths, whether the
/// table ran out of room, and the paths already counted for this record.
pub struct PathTable {
    pub paths: Seq<PathModel>,
    pub truncated: bool,
    pub seen: Set<Seq<char>>,
}

/// The table after one more value of kind `t` at path `p`: a known path
/// counts the value and its kind, and the record the first time the record
/// shows the path; an unknown path joins the table while there is room, and
/// otherwise only marks the table as truncated.
pub open spec fn path_step(st: PathTable, p: Seq<char>, t: JsonType) -> PathTable {
    if exists|i: int| 0 <= i < st.paths.len() && st.paths[i].path == p {
        let i = choose|i: int| 0 <= i < st.paths.len() && st.paths[i].path == p;
        let pm = st.paths[i];
        PathTable {
            paths: st.paths.update(
                i,
                PathModel {
                    path: p,
                    records_present: if st.seen.contains(p) {
                        pm.records_present
                    } else {
                        pm.records_present + 1
                    },
                    values: pm.values + 1,
                    types: tally_add(pm.types, t),
                },
            ),
            truncated: st.truncated,
            seen: st.seen.insert(p),
        }
    } else if st.paths.len() < MAX_PATHS {
        PathTable {
            paths: st.paths.push(PathModel { path: p, records_present: 1, values: 1, types: seq![(t, 1usize)] }),
            truncated: st.truncated,
            seen: st.seen.insert(p),
        }
    } else {
        PathTable { paths: st.paths, truncated: true, seen: st.seen }
    }
}

/// The table after the visits `vs`, in order.
pub open spec fn table_visits(st: PathTable, vs: Seq<(Seq<char>, JsonValue)>) -> PathTable
    decreases vs.len(),
{
    if vs.len() == 0 {
        st
    } else {
        path_step(table_visits(st, vs.drop_last()), vs.last().0, type_of(vs.last().1))
    }
}

/// Folding two runs of visits one after the other folds their concatenation.
pub proof fn lemma_table_visits_concat(st: PathTable, a: Seq<(Seq<char>, JsonValue)>, b: Seq<(Seq<char>, JsonValue)>)
    ensures
        table_visits(st, a + b) == table_visits(table_visits(st, a), b),
    decreases b.len(),
{
    if b.len() == 0 {
        assert(a + b =~= a);
    } else {
        assert((a + b).drop_last() =~= a + b.drop_last());
        lemma_table_visits_concat(st, a, b.drop_last());
    }
}

/// The paths of a table, in order.
pub open spec fn path_texts(paths: Seq<PathStat>) -> Seq<Seq<char>> {
    Seq::new(paths.len(), |i: int| paths[i].path@)
}

/// The paths of a table model are pairwise distinct.
pub open spec fn distinct_paths(paths: Seq<PathModel>) -> bool {
    forall|i: int, j: int|
        0 <= i < paths.len() && 0 <= j < paths.len() && i != j ==> #[trigger] paths[i].path != #[trigger] paths[j].path
}

/// While one record is walked, the paths of `start` keep their places, each
/// count of records having risen by one exactly when the record has shown
/// the path, and every path that joined has a count of one.
pub open spec fn present_once(start: Seq<PathModel>, t: PathTable) -> bool {
    &&& t.paths.len() >= start.len()
    &&& distinct_paths(t.paths)
    &&& forall|i: int|
        0 <= i < start.len() ==> {
            &&& (#[trigger] t.paths[i]).path == start[i].path
            &&& t.paths[i].records_present == start[i].records_present + if t.seen.contains(start[i].path) {
                1int
            } else {
                0int
            }
        }
    &&& forall|i: int|
        start.len() <= i < t.paths.len() ==> (#[trigger] t.paths[i]).records_present == 1 && t.seen.contains(
            t.paths[i].path,
        )
}

proof fn lemma_present_once(paths: Seq<PathModel>, truncated: bool, vs: Seq<(Seq<char>, JsonValue)>)
    requires
        distinct_paths(paths),
    ensures
        present_once(paths, table_visits(PathTable { paths, truncated, seen: Set::empty() }, vs)),
    decreases vs.len(),
{
    let base = PathTable { paths, truncated, seen: Set::empty() };
    if vs.len() == 0 {
        assert(table_visits(base, vs) == base);
    } else {
        lemma_present_once(paths, truncated, vs.drop_last());
        let t = table_visits(base, vs.drop_last());
        let p = vs.last().0;
        let ty = type_of(vs.last().1);
        let n = path_step(t, p, ty);
        assert(table_visits(base, vs) == n);
        if exists|i: int| 0 <= i < t.paths.len() && t.paths[i].path == p {
            let c = choose|i: int| 0 <= i < t.paths.len() && t.paths[i].path == p;
            assert forall|i: int, j: int|
                0 <= i < n.paths.len() && 0 <= j < n.paths.len() && i != j implies #[trigger] n.paths[i].path
                    != #[trigger] n.paths[j].path by {
                assert(n.paths[i].path == t.paths[i].path);
                assert(n.paths[j].path == t.paths[j].path);
            }
            assert forall|i: int| 0 <= i < paths.len() implies {
                &&& (#[trigger] n.paths[i]).path == paths[i].path
                &&& n.paths[i].records_present == paths[i].records_present + if n.seen.contains(paths[i].path) {
                    1int
                } else {
                    0int
                }
            } by {
                assert(t.paths[i].path == paths[i].path);
                if i != c {
                    assert(n.paths[i] == t.paths[i]);
                    assert(t.paths[i].path != p);
                }
            }
            assert forall|i: int| paths.len() <= i < n.paths.len() implies (#[trigger] n.paths[i]).records_present
                == 1 && n.seen.contains(n.paths[i].path) by {
                assert(t.paths[i].records_present == 1 && t.seen.contains(t.paths[i].path));
                if i != c {
                    assert(n.paths[i] == t.paths[i]);
                }
            }
        } else if t.paths.len() < MAX_PATHS {
            assert forall|i: int, j: int|
                0 <= i < n.paths.len() && 0 <= j < n.paths.len() && i != j implies #[trigger] n.paths[i].path
                    != #[trigger] n.paths[j].path by {
                if i < t.paths.len() && j < t.paths.len() {
                    assert(n.paths[i] == t.paths[i] && n.paths[j] == t.paths[j]);
                } else if i < t.paths.len() {
                    assert(n.paths[i] == t.paths[i]);
                } else {
                    assert(n.paths[j] == t.paths[j]);
                }
            }
            assert forall|i: int| 0 <= i < paths.len() implies {
                &&& (#[trigger] n.paths[i]).path == paths[i].path
                &&& n.paths[i].records_present == paths[i].records_present + if n.seen.contains(paths[i].path) {
                    1int
                } else {
                    0int
                }
            } by {
                assert(n.paths[i] == t.paths[i]);
                assert(t.paths[i].path != p);
            }
            assert forall|i: int| paths.len() <= i < n.paths.len() implies (#[trigger] n.paths[i]).records_present
                == 1 && n.seen.contains(n.paths[i].path) by {
                if i < t.paths.len() {
                    assert(n.paths[i] == t.paths[i]);
                }
            }
        }
    }
}

/// A record counts at most once toward each path, however many values it
/// holds there: every path already in the table keeps its place and has its
/// count of records raised by zero or one, and every path that joins has a
/// count of one.
pub proof fn a_record_counts_once_per_path(paths: Seq<PathModel>, truncated: bool, v: JsonValue, depth: nat)
    requires
        distinct_paths(paths),
    ensures
        ({
            let t = paths_after(paths, truncated, v, depth);
            &&& t.paths.len() >= paths.len()
            &&& forall|i: int|
                0 <= i < paths.len() ==> (#[trigger] t.paths[i]).path == paths[i].path
                    && paths[i].records_present <= t.paths[i].records_present <= paths[i].records_present + 1
            &&& forall|i: int| paths.len() <= i < t.paths.len() ==> (#[trigger] t.paths[i]).records_present == 1
        }),
{
    lemma_present_once(paths, truncated, visits(v, Seq::empty(), 0, depth));
}

/// Each path appears once in the table, and the table holds no more paths
/// than its cap.
pub open spec fn paths_wf(paths: Seq<PathStat>) -> bool {
    &&& paths.len() <= MAX_PATHS
    &&& forall|i: int, j: int|
        0 <= i < paths.len() && 0 <= j < paths.len() && i != j ==> #[trigger] paths[i].path@
            != #[trigger] paths[j].path@
    &&& forall|i: int| 0 <= i < paths.len() ==> tally_wf(#[trigger] paths[i].types@)
    &&& forall|i: int| 0 <= i < paths.len() ==> tally_total(#[trigger] paths[i].types@) == paths[i].values
}

/// Every path was present in at most `records` records, and holds at most
/// `values` values.
pub open spec fn paths_bounded(paths: Seq<PathStat>, records: int, values: int) -> bool {
    &&& forall|i: int| 0 <= i < paths.len() ==> #[trigger] paths[i].records_present <= records
    &&& forall|i: int| 0 <= i < paths.len() ==> #[trigger] paths[i].values <= values
    &&& forall|i: int, k: int|
        0 <= i < paths.len() && 0 <= k < paths[i].types@.len() ==> #[trigger] paths[i].types@[k].1
            <= paths[i].values
}

/// One step of a path: into the member named by the key, or into every
/// element of an array.
pub enum PathStep {
    Key(Seq<char>),
    Items,
}

/// The text of a path made of `steps`: keys joined with `.`, `[]` for each
/// step into an array's elements.
pub open spec fn steps_text(steps: Seq<PathStep>) -> Seq<char>
    decreases steps.len(),
{
    if steps.len() == 0 {
        Seq::empty()
    } else {
        let p = steps_text(steps.drop_last());
        match steps.last() {
            PathStep::Key(k) => member_path(p, k),
            PathStep::Items => p + "[]"@,
        }
    }
}

/// `p` is the text of a path of at most `depth` steps.
pub open spec fn path_within(p: Seq<char>, depth: nat) -> bool {
    exists|steps: Seq<PathStep>| steps.len() <= depth && #[trigger] steps_text(steps) == p
}

/// Every path of the table was present in no more records than it has
/// values, and is the text of at most `depth` steps.
pub open spec fn paths_shaped(paths: Seq<PathModel>, depth: nat) -> bool {
    forall|i: int|
        0 <= i < paths.len() ==> (#[trigger] paths[i]).records_present <= paths[i].values && path_within(
            paths[i].path,
            depth,
        )
}

proof fn lemma_visits_within(v: JsonValue, steps: Seq<PathStep>, depth: nat, max_depth: nat)
    requires
        steps.len() == depth,
    ensures
        forall|k: int|
            0 <= k < visits(v, steps_text(steps), depth, max_depth).len() ==> path_within(
                (#[trigger] visits(v, steps_text(steps), depth, max_depth)[k]).0,
                max_depth,
            ),
    decreases v,
{
    let all = visits(v, steps_text(steps), depth, max_depth);
    if depth < max_depth {
        match v {
            JsonValue::Object(entries) => {
                lemma_members_within(entries, steps, depth, max_depth);
                let m = visits_members(entries, steps_text(steps), depth, max_depth);
                assert(all == m);
                assert forall|k: int| 0 <= k < all.len() implies path_within((#[trigger] all[k]).0, max_depth) by {
                    assert(all[k] == m[k]);
                }
            },
            JsonValue::Array(items) => {
                let s2 = steps.push(PathStep::Items);
                assert(s2.drop_last() =~= steps);
                assert(steps_text(s2) == steps_text(steps) + "[]"@);
                lemma_items_within(items, s2, depth, max_depth);
                let m = visits_items(items, steps_text(s2), depth, max_depth);
                assert(all == m);
                assert forall|k: int| 0 <= k < all.len() implies path_within((#[trigger] all[k]).0, max_depth) by {
                    assert(all[k] == m[k]);
                }
            },
            _ => {},
        }
    }
}

proof fn lemma_members_within(
    entries: Seq<(Seq<char>, JsonValue)>,
    steps: Seq<PathStep>,
    depth: nat,
    max_depth: nat,
)
    requires
        steps.len() == depth,
        depth < max_depth,
    ensures
        forall|k: int|
            0 <= k < visits_members(entries, steps_text(steps), depth, max_depth).len() ==> path_within(
                (#[trigger] visits_members(entries, steps_text(steps), depth, max_depth)[k]).0,
                max_depth,
            ),
    decreases entries,
{
    if entries.len() > 0 {
        let prefix = steps_text(steps);
        let last = entries[entries.len() - 1];
        let s2 = steps.push(PathStep::Key(last.0));
        assert(s2.drop_last() =~= steps);
        let p = member_path(prefix, last.0);
        assert(steps_text(s2) == p);
        let init = entries.subrange(0, entries.len() - 1);
        lemma_members_within(init, steps, depth, max_depth);
        lemma_visits_within(last.1, s2, depth + 1, max_depth);
        let a = visits_members(init, prefix, depth, max_depth);
        let b = visits(last.1, p, depth + 1, max_depth);
        let all = visits_members(entries, prefix, depth, max_depth);
        assert(all == a + seq![(p, last.1)] + b);
        assert forall|k: int| 0 <= k < all.len() implies path_within((#[trigger] all[k]).0, max_depth) by {
            if k < a.len() {
                assert(all[k] == a[k]);
            } else if k == a.len() {
                assert(all[k] == (p, last.1));
            } else {
                assert(all[k] == b[k - a.len() - 1]);
            }
        }
    }
}

proof fn lemma_items_within(items: Seq<JsonValue>, steps: Seq<PathStep>, depth: nat, max_depth: nat)
    requires
        steps.len() == depth + 1,
        depth < max_depth,
    ensures
        forall|k: int|
            0 <= k < visits_items(items, steps_text(steps), depth, max_depth).len() ==> path_within(
                (#[trigger] visits_items(items, steps_text(steps), depth, max_depth)[k]).0,
                max_depth,
            ),
    decreases items,
{
    if items.len() > 0 {
        let p = steps_text(steps);
        let last = items[items.len() - 1];
        let init = items.subrange(0, items.len() - 1);
        lemma_items_within(init, steps, depth, max_depth);
        lemma_visits_within(last, steps, depth + 1, max_depth);
        let a = visits_items(init, p, depth, max_depth);
        let b = visits(last, p, depth + 1, max_depth);
        let all = visits_items(items, p, depth, max_depth);
        assert(all == a + seq![(p, last)] + b);
        assert forall|k: int| 0 <= k < all.len() implies path_within((#[trigger] all[k]).0, max_depth) by {
            if k < a.len() {
                assert(all[k] == a[k]);
            } else if k == a.len() {
                assert(all[k] == (p, last));
            } else {
                assert(all[k] == b[k - a.len() - 1]);
            }
        }
    }
}

proof fn lemma_step_shaped(st: PathTable, p: Seq<char>, t: JsonType, depth: nat)
    requires
        paths_shaped(st.paths, depth),
        path_within(p, depth),
    ensures
        paths_shaped(path_step(st, p, t).paths, depth),
{
    let r = path_step(st, p, t).paths;
    if exists|i: int| 0 <= i < st.paths.len() && st.paths[i].path == p {
        let i = choose|i: int| 0 <= i < st.paths.len() && st.paths[i].path == p;
        assert forall|j: int| 0 <= j < r.len() implies (#[trigger] r[j]).records_present <= r[j].values
            && path_within(r[j].path, depth) by {
            if j != i {
                assert(r[j] == st.paths[j]);
            }
        }
    } else if st.paths.len() < MAX_PATHS {
        assert forall|j: int| 0 <= j < r.len() implies (#[trigger] r[j]).records_present <= r[j].values
            && path_within(r[j].path, depth) by {
            if j < st.paths.len() {
                assert(r[j] == st.paths[j]);
            }
        }
    }
}

proof fn lemma_table_visits_shaped(st: PathTable, vs: Seq<(Seq<char>, JsonValue)>, depth: nat)
    requires
        paths_shaped(st.paths, depth),
        forall|k: int| 0 <= k < vs.len() ==> path_within((#[trigger] vs[k]).0, depth),
    ensures
        paths_shaped(table_visits(st, vs).paths, depth),
    decreases vs.len(),
{
    if vs.len() > 0 {
        let init = vs.drop_last();
        assert forall|k: int| 0 <= k < init.len() implies path_within((#[trigger] init[k]).0, depth) by {
            assert(init[k] == vs[k]);
        }
        lemma_table_visits_shaped(st, init, depth);
        assert(path_within(vs[vs.len() - 1].0, depth));
        lemma_step_shaped(table_visits(st, init), vs.last().0, type_of(vs.last().1), depth);
    }
}

/// Folding a record into a table keeps every path present in no more
/// records than it has values, and no deeper than the walk goes.
pub proof fn a_record_keeps_paths_shaped(paths: Seq<PathModel>, truncated: bool, v: JsonValue, depth: nat)
    requires
        paths_shaped(paths, depth),
    ensures
        paths_shaped(paths_after(paths, truncated, v, depth).paths, depth),
{
    assert(steps_text(Seq::<PathStep>::empty()) == Seq::<char>::empty());
    lemma_visits_within(v, Seq::empty(), 0, depth);
    lemma_table_visits_shaped(
        PathTable { paths, truncated, seen: Set::empty() },
        visits(v, Seq::empty(), 0, depth),
        depth,
    );
}

/// The walk's state is the table `st`: the same paths, the same flag, and
/// `counted` marks exactly the paths of `st.seen`.
pub open spec fn walk_state(paths: Seq<PathStat>, truncated: bool, counted: Seq<bool>, st: PathTable) -> bool {
    &&& path_models(paths) == st.paths
    &&& truncated == st.truncated
    &&& counted.len() == paths.len()
    &&& forall|k: Seq<char>| #[trigger] st.seen.contains(k) <==> exists|i: int|
        0 <= i < paths.len() && paths[i].path@ == k && counted[i]
}

/// The bounds while a record is walked: a path counted for this record has
/// one more record than before it, and no path holds more than `values`.
pub open spec fn walk_bounds(paths: Seq<PathStat>, counted: Seq<bool>, records: int, values: int) -> bool {
    &&& forall|i: int|
        0 <= i < paths.len() ==> #[trigger] paths[i].records_present <= records + if counted[i] {
            1int
        } else {
            0int
        }
    &&& forall|i: int| 0 <= i < paths.len() ==> #[trigger] paths[i].values <= values
    &&& forall|i: int, k: int|
        0 <= i < paths.len() && 0 <= k < paths[i].types@.len() ==> #[trigger] paths[i].types@[k].1
            <= paths[i].values
}

/// Records one value of kind `t` at `path`.
fn record_path(
    path: &String,
    t: JsonType,
    paths: &mut Vec<PathStat>,
    index: &mut TextIndex,
    truncated: &mut bool,
    counted: &mut Vec<bool>,
    Ghost(st): Ghost<PathTable>,
    Ghost(records): Ghost<int>,
    Ghost(values): Ghost<int>,
)
    requires
        paths_wf(old(paths)@),
        old(index).indexes(path_texts(old(paths)@)),
        walk_state(old(paths)@, *old(truncated), old(counted)@, st),
        walk_bounds(old(paths)@, old(counted)@, records, values),
        records >= 0,
        values >= 0,
        records + 1 <= usize::MAX,
        values + 1 <= usize::MAX,
    ensures
        paths_wf(final(paths)@),
        final(index).indexes(path_texts(final(paths)@)),
        walk_state(final(paths)@, *final(truncated), final(counted)@, path_step(st, path@, t)),
        walk_bounds(final(paths)@, final(counted)@, records, values + 1),
{
    let ghost p = path@;
    let ghost next = path_step(st, p, t);
    let ghost texts = path_texts(paths@);
    let h = hash_text(path.as_str());
    let mut i: usize = paths.len();
    if let Some(cands) = index.positions_of(h) {
        let mut k: usize = 0;
        while k < cands.len()
            invariant_except_break
                i == paths@.len(),
            invariant
                p == path@,
                texts == path_texts(paths@),
                index.indexes(texts),
                cands@ == index.positions(h),
                k <= cands@.len(),
                forall|x: int| 0 <= x < k ==> paths@[#[trigger] cands@[x] as int].path@ != p,
            ensures
                forall|x: int| 0 <= x < k ==> paths@[#[trigger] cands@[x] as int].path@ != p,
                (i < paths@.len() && paths@[i as int].path@ == p) || (i == paths@.len() && k == cands@.len()),
            decreases cands@.len() - k,
        {
            let c = cands[k];
            assert(cands@[k as int] < texts.len());
            if paths[c].path == *path {
                i = c;
                break;
            }
            k = k + 1;
        }
    }
    proof {
        if i == paths@.len() {
            assert forall|x: int| 0 <= x < paths@.len() implies (#[trigger] paths@[x]).path@ != p by {
                if paths@[x].path@ == p {
                    assert(texts[x] == p);
                    assert(index.positions(text_hash(texts[x])).contains(x as usize));
                    let pos = index.positions(h);
                    let w = choose|w: int| 0 <= w < pos.len() && pos[w] == x as usize;
                    assert(pos[w] == x as usize);
                }
            }
        }
    }
    let ghost before = paths@;
    let ghost counted_before = counted@;
    if i < paths.len() {
        proof {
            assert(path_models(paths@)[i as int].path == p);
            let i2 = choose|i2: int| 0 <= i2 < st.paths.len() && st.paths[i2].path == p;
            assert(path_models(paths@)[i2].path == p);
            assert(paths@[i2].path@ == p);
            assert(i2 == i);
            assert(count_in(paths@[i as int].types@, t) <= paths@[i as int].values) by {
                let ts = paths@[i as int].types@;
                if exists|x: int| 0 <= x < ts.len() && ts[x].0 == t {
                    let x = choose|x: int| 0 <= x < ts.len() && ts[x].0 == t;
                    assert(ts[x].1 <= paths@[i as int].values);
                }
            }
            assert(st.seen.contains(p) == counted@[i as int]) by {
                if st.seen.contains(p) {
                    let i3 = choose|i3: int| 0 <= i3 < paths@.len() && paths@[i3].path@ == p && counted@[i3];
                    assert(i3 == i);
                }
            }
        }
        proof {
            lemma_tally_add_total(paths@[i as int].types@, t);
        }
        paths[i].values = paths[i].values + 1;
        paths[i].types.record(t);
        if !counted[i] {
            paths[i].records_present = paths[i].records_present + 1;
            counted.set(i, true);
        }
        proof {
            assert(path_texts(paths@) =~= texts);
            assert(path_models(paths@) =~= next.paths);
            assert forall|kk: Seq<char>| #[trigger] next.seen.contains(kk) <==> exists|i3: int|
                0 <= i3 < paths@.len() && paths@[i3].path@ == kk && counted@[i3] by {
                if kk == p {
                    assert(paths@[i as int].path@ == kk && counted@[i as int]);
                } else {
                    if st.seen.contains(kk) {
                        let i3 = choose|i3: int|
                            0 <= i3 < before.len() && before[i3].path@ == kk && counted_before[i3];
                        assert(paths@[i3].path@ == kk && counted@[i3]);
                    }
                    if exists|i3: int| 0 <= i3 < paths@.len() && paths@[i3].path@ == kk && counted@[i3] {
                        let i3 = choose|i3: int| 0 <= i3 < paths@.len() && paths@[i3].path@ == kk && counted@[i3];
                        assert(before[i3].path@ == kk && counted_before[i3]);
                    }
                }
            }
            assert forall|x: int, y: int|
                0 <= x < paths@.len() && 0 <= y < paths@[x].types@.len() implies #[trigger] paths@[x].types@[y].1
                    <= paths@[x].values by {
                if x != i {
                    assert(paths@[x] == before[x]);
                } else {
                    let ts = before[x].types@;
                    if exists|z: int| 0 <= z < ts.len() && ts[z].0 == t {
                        let z = choose|z: int| 0 <= z < ts.len() && ts[z].0 == t;
                        if y != z {
                            assert(paths@[x].types@[y] == ts[y]);
                        }
                    } else if y < ts.len() {
                        assert(paths@[x].types@[y] == ts[y]);
                    }
                }
            }
            assert forall|x: int| 0 <= x < paths@.len() implies tally_wf(#[trigger] paths@[x].types@) by {
                if x != i {
                    assert(paths@[x] == before[x]);
                }
            }
            assert forall|x: int| 0 <= x < paths@.len() implies tally_total(#[trigger] paths@[x].types@)
                == paths@[x].values by {
                if x != i {
                    assert(paths@[x] == before[x]);
                }
            }
            assert forall|x: int, y: int|
                0 <= x < paths@.len() && 0 <= y < paths@.len() && x != y implies #[trigger] paths@[x].path@
                    != #[trigger] paths@[y].path@ by {
                assert(paths@[x].path == before[x].path);
                assert(paths@[y].path == before[y].path);
            }
            assert forall|x: int| 0 <= x < paths@.len() implies #[trigger] paths@[x].records_present <= records
                + if counted@[x] {
                1int
            } else {
                0int
            } by {
                if x != i {
                    assert(paths@[x] == before[x]);
                }
            }
            assert forall|x: int| 0 <= x < paths@.len() implies #[trigger] paths@[x].values <= values + 1 by {
                if x != i {
                    assert(paths@[x] == before[x]);
                }
            }
        }
    } else if paths.len() < MAX_PATHS {
        let mut types = TypeTally::new();
        types.record(t);
        index.add(path.as_str(), paths.len(), Ghost(texts));
        paths.push(PathStat { path: path.clone(), records_present: 1, values: 1, types });
        counted.push(true);
        proof {
            assert(path_texts(paths@) =~= texts.push(p));
            assert(!(exists|i2: int| 0 <= i2 < st.paths.len() && st.paths[i2].path == p)) by {
                if exists|i2: int| 0 <= i2 < st.paths.len() && st.paths[i2].path == p {
                    let i2 = choose|i2: int| 0 <= i2 < st.paths.len() && st.paths[i2].path == p;
                    assert(before[i2].path@ == p);
                }
            }
            assert(types@ =~= seq![(t, 1usize)]);
            assert(path_models(paths@) =~= next.paths);
            assert forall|kk: Seq<char>| #[trigger] next.seen.contains(kk) <==> exists|i3: int|
                0 <= i3 < paths@.len() && paths@[i3].path@ == kk && counted@[i3] by {
                if kk == p {
                    assert(paths@[before.len() as int].path@ == kk && counted@[before.len() as int]);
                } else {
                    if st.seen.contains(kk) {
                        let i3 = choose|i3: int|
                            0 <= i3 < before.len() && before[i3].path@ == kk && counted_before[i3];
                        assert(paths@[i3].path@ == kk && counted@[i3]);
                    }
                    if exists|i3: int| 0 <= i3 < paths@.len() && paths@[i3].path@ == kk && counted@[i3] {
                        let i3 = choose|i3: int| 0 <= i3 < paths@.len() && paths@[i3].path@ == kk && counted@[i3];
                        assert(i3 < before.len());
                        assert(before[i3].path@ == kk && counted_before[i3]);
                    }
                }
            }
            assert forall|x: int, y: int|
                0 <= x < paths@.len() && 0 <= y < paths@[x].types@.len() implies #[trigger] paths@[x].types@[y].1
                    <= paths@[x].values by {
                if x < before.len() {
                    assert(paths@[x] == before[x]);
                }
            }
            assert forall|x: int| 0 <= x < paths@.len() implies tally_wf(#[trigger] paths@[x].types@) by {
                if x < before.len() {
                    assert(paths@[x] == before[x]);
                }
            }
            assert(tally_total(types@) == 1) by {
                assert(types@.drop_last() =~= Seq::<(JsonType, usize)>::empty());
                assert(tally_total(Seq::<(JsonType, usize)>::empty()) == 0);
            }
            assert forall|x: int| 0 <= x < paths@.len() implies tally_total(#[trigger] paths@[x].types@)
                == paths@[x].values by {
                if x < before.len() {
                    assert(paths@[x] == before[x]);
                }
            }
            assert forall|x: int, y: int|
                0 <= x < paths@.len() && 0 <= y < paths@.len() && x != y implies #[trigger] paths@[x].path@
                    != #[trigger] paths@[y].path@ by {
                if x < before.len() && y < before.len() {
                    assert(paths@[x] == before[x] && paths@[y] == before[y]);
                } else if x < before.len() {
                    assert(paths@[x] == before[x]);
                } else {
                    assert(paths@[y] == before[y]);
                }
            }
            assert forall|x: int| 0 <= x < paths@.len() implies #[trigger] paths@[x].records_present <= records
                + if counted@[x] {
                1int
            } else {
                0int
            } by {
                if x < before.len() {
                    assert(paths@[x] == before[x]);
                }
            }
            assert forall|x: int| 0 <= x < paths@.len() implies #[trigger] paths@[x].values <= values + 1 by {
                if x < before.len() {
                    assert(paths@[x] == before[x]);
                }
            }
        }
    } else {
        *truncated = true;
        proof {
            assert(!(exists|i2: int| 0 <= i2 < st.paths.len() && st.paths[i2].path == p)) by {
                if exists|i2: int| 0 <= i2 < st.paths.len() && st.paths[i2].path == p {
                    let i2 = choose|i2: int| 0 <= i2 < st.paths.len() && st.paths[i2].path == p;
                    assert(before[i2].path@ == p);
                }
            }
        }
    }
}

proof fn lemma_visits_members_prefix(
    ms: Seq<(Seq<char>, JsonValue)>,
    k: int,
    prefix: Seq<char>,
    depth: nat,
    max_depth: nat,
)
    requires
        0 <= k <= ms.len(),
    ensures
        visits_members(ms.take(k), prefix, depth, max_depth).len() <= visits_members(ms, prefix, depth, max_depth).len(),
    decreases ms.len() - k,
{
    if k < ms.len() {
        lemma_visits_members_prefix(ms, k + 1, prefix, depth, max_depth);
        assert(ms.take(k + 1).subrange(0, k) =~= ms.take(k));
    } else {
        assert(ms.take(k) =~= ms);
    }
}

proof fn lemma_visits_items_prefix(ms: Seq<JsonValue>, k: int, p: Seq<char>, depth: nat, max_depth: nat)
    requires
        0 <= k <= ms.len(),
    ensures
        visits_items(ms.take(k), p, depth, max_depth).len() <= visits_items(ms, p, depth, max_depth).len(),
    decreases ms.len() - k,
{
    if k < ms.len() {
        lemma_visits_items_prefix(ms, k + 1, p, depth, max_depth);
        assert(ms.take(k + 1).subrange(0, k) =~= ms.take(k));
    } else {
        assert(ms.take(k) =~= ms);
    }
}

/// Folding one visit is one step.
proof fn lemma_table_visit_one(st: PathTable, x: (Seq<char>, JsonValue))
    ensures
        table_visits(st, seq![x]) == path_step(st, x.0, type_of(x.1)),
{
    assert(seq![x].drop_last() =~= Seq::<(Seq<char>, JsonValue)>::empty());
    assert(table_visits(st, Seq::<(Seq<char>, JsonValue)>::empty()) == st);
    assert(seq![x].last() == x);
}

/// Records every member and element of `value`, which sits at `prefix`,
/// `depth` levels down, and walks each of them in turn until `max_depth`.
#[verifier::loop_isolation(false)]
fn walk_value(
    value: &Value,
    prefix: &String,
    depth: usize,
    max_depth: usize,
    paths: &mut Vec<PathStat>,
    index: &mut TextIndex,
    truncated: &mut bool,
    counted: &mut Vec<bool>,
    Ghost(st): Ghost<PathTable>,
    Ghost(records): Ghost<int>,
    Ghost(values): Ghost<int>,
)
    requires
        paths_wf(old(paths)@),
        old(index).indexes(path_texts(old(paths)@)),
        walk_state(old(paths)@, *old(truncated), old(counted)@, st),
        walk_bounds(old(paths)@, old(counted)@, records, values),
        records >= 0,
        values >= 0,
        records + 1 <= usize::MAX,
        values + visits(value.model(), prefix@, depth as nat, max_depth as nat).len() <= usize::MAX,
    ensures
        paths_wf(final(paths)@),
        final(index).indexes(path_texts(final(paths)@)),
        walk_state(
            final(paths)@,
            *final(truncated),
            final(counted)@,
            table_visits(st, visits(value.model(), prefix@, depth as nat, max_depth as nat)),
        ),
        walk_bounds(
            final(paths)@,
            final(counted)@,
            records,
            values + visits(value.model(), prefix@, depth as nat, max_depth as nat).len(),
        ),
    decreases value,
{
    let ghost vs = visits(value.model(), prefix@, depth as nat, max_depth as nat);
    if depth >= max_depth {
        return;
    }
    match value {
        Value::Object(entries) => {
            proof {
                crate::json::lemma_object_model(*entries);
            }
            let ghost ms = crate::json::member_models(entries@);
            assert(vs == visits_members(ms, prefix@, depth as nat, max_depth as nat));
            assert(ms.take(0) =~= Seq::<(Seq<char>, JsonValue)>::empty());
            let mut j: usize = 0;
            while j < entries.len()
                invariant
                    ms == crate::json::member_models(entries@),
                    vs == visits_members(ms, prefix@, depth as nat, max_depth as nat),
                    depth < max_depth,
                    j <= entries@.len(),
                    records >= 0,
                    values >= 0,
                    records + 1 <= usize::MAX,
                    values + vs.len() <= usize::MAX,
                    paths_wf(paths@),
                    index.indexes(path_texts(paths@)),
                    ({
                        let done = visits_members(ms.take(j as int), prefix@, depth as nat, max_depth as nat);
                        &&& walk_state(paths@, *truncated, counted@, table_visits(st, done))
                        &&& walk_bounds(paths@, counted@, records, values + done.len())
                    }),
                decreases entries@.len() - j,
            {
                let ghost done = visits_members(ms.take(j as int), prefix@, depth as nat, max_depth as nat);
                let ghost cur = table_visits(st, done);
                let key = &entries[j].0;
                let member = &entries[j].1;
                let path = if prefix.as_str().is_empty() {
                    key.clone()
                } else {
                    let mut p = prefix.clone();
                    push_str(&mut p, ".");
                    push_str(&mut p, key.as_str());
                    p
                };
                let ghost pm = path@;
                assert(pm == member_path(prefix@, ms[j as int].0));
                let ghost sub = visits(member.model(), pm, (depth + 1) as nat, max_depth as nat);
                let ghost after = visits_members(ms.take(j + 1), prefix@, depth as nat, max_depth as nat);
                proof {
                    assert(ms.take(j + 1).subrange(0, j as int) =~= ms.take(j as int));
                    assert(ms.take(j + 1)[j as int] == ms[j as int]);
                    assert(after == done + seq![(pm, member.model())] + sub);
                    lemma_visits_members_prefix(ms, j + 1, prefix@, depth as nat, max_depth as nat);
                }
                record_path(
                    &path,
                    json_type(member),
                    paths,
                    index,
                    truncated,
                    counted,
                    Ghost(cur),
                    Ghost(records),
                    Ghost(values + done.len()),
                );
                let ghost cur2 = path_step(cur, pm, type_of(member.model()));
                walk_value(
                    member,
                    &path,
                    depth + 1,
                    max_depth,
                    paths,
                    index,
                    truncated,
                    counted,
                    Ghost(cur2),
                    Ghost(records),
                    Ghost(values + done.len() + 1),
                );
                proof {
                    lemma_table_visit_one(cur, (pm, member.model()));
                    lemma_table_visits_concat(st, done, seq![(pm, member.model())]);
                    lemma_table_visits_concat(st, done + seq![(pm, member.model())], sub);
                }
                j = j + 1;
            }
            assert(ms.take(entries@.len() as int) =~= ms);
        },
        Value::Array(items) => {
            proof {
                crate::json::lemma_array_model(*items);
            }
            let ghost ms = crate::json::models(items@);
            let mut path = prefix.clone();
            push_str(&mut path, "[]");
            let ghost pm = path@;
            assert(vs == visits_items(ms, pm, depth as nat, max_depth as nat));
            assert(ms.take(0) =~= Seq::<JsonValue>::empty());
            let mut j: usize = 0;
            while j < items.len()
                invariant
                    ms == crate::json::models(items@),
                    pm == path@,
                    vs == visits_items(ms, pm, depth as nat, max_depth as nat),
                    depth < max_depth,
                    j <= items@.len(),
                    records >= 0,
                    values >= 0,
                    records + 1 <= usize::MAX,
                    values + vs.len() <= usize::MAX,
                    paths_wf(paths@),
                    index.indexes(path_texts(paths@)),
                    ({
                        let done = visits_items(ms.take(j as int), pm, depth as nat, max_depth as nat);
                        &&& walk_state(paths@, *truncated, counted@, table_visits(st, done))
                        &&& walk_bounds(paths@, counted@, records, values + done.len())
                    }),
                decreases items@.len() - j,
            {
                let ghost done = visits_items(ms.take(j as int), pm, depth as nat, max_depth as nat);
                let ghost cur = table_visits(st, done);
                let item = &items[j];
                let ghost sub = visits(item.model(), pm, (depth + 1) as nat, max_depth as nat);
                let ghost after = visits_items(ms.take(j + 1), pm, depth as nat, max_depth as nat);
                proof {
                    assert(ms.take(j + 1).subrange(0, j as int) =~= ms.take(j as int));
                    assert(ms.take(j + 1)[j as int] == ms[j as int]);
                    assert(after == done + seq![(pm, item.model())] + sub);
                    lemma_visits_items_prefix(ms, j + 1, pm, depth as nat, max_depth as nat);
                }
                record_path(
                    &path,
                    json_type(item),
                    paths,
                    index,
                    truncated,
                    counted,
                    Ghost(cur),
                    Ghost(records),
                    Ghost(values + done.len()),
                );
                let ghost cur2 = path_step(cur, pm, type_of(item.model()));
                walk_value(
                    item,
                    &path,
                    depth + 1,
                    max_depth,
                    paths,
                    index,
                    truncated,
                    counted,
                    Ghost(cur2),
                    Ghost(records),
                    Ghost(values + done.len() + 1),
                );
                proof {
                    lemma_table_visit_one(cur, (pm, item.model()));
                    lemma_table_visits_concat(st, done, seq![(pm, item.model())]);
                    lemma_table_visits_concat(st, done + seq![(pm, item.model())], sub);
                }
                j = j + 1;
            }
            assert(ms.take(items@.len() as int) =~= ms);
        },
        _ => {},
    }
}

// ---------------------------------------------------------------------------
// The profile
// ---------------------------------------------------------------------------

/// The structural profile of a file: every distinct path found, up to the
/// depth limit.
pub struct Schema {
    /// Lines that parsed as JSON.
    pub records: usize,
    /// How many levels deep the walk of each record goes.
    pub depth: usize,
    pub paths: Vec<PathStat>,
    /// Where each path sits in `paths`.
    pub path_index: TextIndex,
    pub paths_truncated: bool,
    /// Non-blank lines that were not UTF-8 or not JSON.
    pub unparseable: usize,
    /// The bytes of the lines folded in so far, plus one per line.
    pub fed: Ghost<nat>,
}

/// What one line does to a profile.
pub open spec fn line_value(line: Seq<u8>) -> Option<JsonValue> {
    if valid_utf8(line) {
        match parse_model(decode_utf8(line)) {
            Ok(v) => Some(v),
            Err(_) => None,
        }
    } else {
        None
    }
}

/// The path table after a record `v`, walked to `depth` levels.
pub open spec fn paths_after(paths: Seq<PathModel>, truncated: bool, v: JsonValue, depth: nat) -> PathTable {
    table_visits(PathTable { paths, truncated, seen: Set::empty() }, visits(v, Seq::empty(), 0, depth))
}

impl Schema {
    /// The profile's invariant: a well-formed table whose counts cannot have
    /// outgrown what was fed in.
    pub open spec fn wf(&self) -> bool {
        &&& paths_wf(self.paths@)
        &&& self.path_index.indexes(path_texts(self.paths@))
        &&& paths_bounded(self.paths@, self.records as int, self.fed@ as int)
        &&& paths_shaped(path_models(self.paths@), self.depth as nat)
        &&& self.records + self.unparseable <= self.fed@
    }

    /// An empty profile that walks each record `depth` levels deep.
    pub fn new(depth: usize) -> (r: Schema)
        ensures
            r.wf(),
            r.records == 0 && r.unparseable == 0 && r.depth == depth,
            r.paths@ == Seq::<PathStat>::empty(),
            !r.paths_truncated,
            r.fed@ == 0,
    {
        let r = Schema {
            records: 0,
            depth,
            paths: Vec::new(),
            path_index: TextIndex::new(),
            paths_truncated: false,
            unparseable: 0,
            fed: Ghost(0),
        };
        assert(path_texts(r.paths@) =~= Seq::<Seq<char>>::empty());
        r
    }

    /// Folds one line of the file into the profile: a blank line is skipped,
    /// a line that is not UTF-8 or not JSON counts as unparseable, and a
    /// record has every path up to `depth` levels recorded.
    pub fn record_line(&mut self, line: &[u8])
        requires
            old(self).wf(),
            old(self).fed@ + line@.len() + 1 <= usize::MAX,
        ensures
            final(self).wf(),
            final(self).fed@ == old(self).fed@ + line@.len() + 1,
            final(self).depth == old(self).depth,
            line@.len() == 0 ==> {
                &&& final(self).records == old(self).records
                &&& final(self).unparseable == old(self).unparseable
                &&& final(self).paths@ == old(self).paths@
                &&& final(self).paths_truncated == old(self).paths_truncated
            },
            line@.len() > 0 ==> match line_value(line@) {
                None => {
                    &&& final(self).records == old(self).records
                    &&& final(self).unparseable == old(self).unparseable + 1
                    &&& final(self).paths@ == old(self).paths@
                    &&& final(self).paths_truncated == old(self).paths_truncated
                },
                Some(v) => {
                    let t = paths_after(path_models(old(self).paths@), old(self).paths_truncated, v, old(self).depth as nat);
                    &&& final(self).records == old(self).records + 1
                    &&& final(self).unparseable == old(self).unparseable
                    &&& path_models(final(self).paths@) == t.paths
                    &&& final(self).paths_truncated == t.truncated
                },
            },
    {
        let ghost budget = self.fed@;
        self.fed = Ghost(self.fed@ + line@.len() + 1);
        if line.len() == 0 {
            return;
        }
        let text = match utf8_text(line) {
            Ok(text) => text,
            Err(_) => {
                self.unparseable = self.unparseable + 1;
                return;
            },
        };
        proof {
            crate::text::lemma_decoded_text(text, line@);
        }
        match crate::json::parse(text) {
            Ok(value) => {
                proof {
                    crate::json::lemma_document_nodes(text@);
                    lemma_visits_nodes(value.model(), Seq::empty(), 0, self.depth as nat);
                }
                let ghost start = PathTable {
                    paths: path_models(self.paths@),
                    truncated: self.paths_truncated,
                    seen: Set::empty(),
                };
                let mut counted: Vec<bool> = Vec::new();
                let mut i: usize = 0;
                while i < self.paths.len()
                    invariant
                        i <= self.paths@.len(),
                        counted@.len() == i,
                        forall|k: int| 0 <= k < i ==> !(#[trigger] counted@[k]),
                    decreases self.paths@.len() - i,
                {
                    counted.push(false);
                    i = i + 1;
                }
                let prefix = String::new();
                walk_value(
                    &value,
                    &prefix,
                    0,
                    self.depth,
                    &mut self.paths,
                    &mut self.path_index,
                    &mut self.paths_truncated,
                    &mut counted,
                    Ghost(start),
                    Ghost(self.records as int),
                    Ghost(budget as int),
                );
                self.records = self.records + 1;
                proof {
                    a_record_keeps_paths_shaped(start.paths, start.truncated, value.model(), self.depth as nat);
                    assert forall|x: int| 0 <= x < self.paths@.len() implies #[trigger] self.paths@[x].records_present
                        <= self.records by {}
                    assert forall|x: int| 0 <= x < self.paths@.len() implies #[trigger] self.paths@[x].values <= self.fed@ by {}
                }
            },
            Err(_) => {
                self.unparseable = self.unparseable + 1;
            },
        }
    }
}

/// `kept` holds, for each path of `paths`, what `keep` answered for it given
/// how many records had the path and how many records there were.
pub open spec fn kept_by<K: Fn(usize, usize) -> bool>(keep: K, paths: Seq<PathStat>, records: usize, kept: Seq<bool>) -> bool {
    &&& kept.len() == paths.len()
    &&& forall|i: int|
        0 <= i < kept.len() ==> #[trigger] keep.ensures((paths[i].records_present, records), kept[i])
}

impl Schema {
    /// Keeps the paths that `keep` accepts, given how many records had the
    /// path and how many records there were, and sorts them by path.
    #[verifier::spinoff_prover]
    pub fn finish<K: Fn(usize, usize) -> bool>(&mut self, keep: &K)
        requires
            old(self).wf(),
            forall|a: usize, b: usize| #[trigger] keep.requires((a, b)),
        ensures
            final(self).wf(),
            final(self).records == old(self).records,
            final(self).unparseable == old(self).unparseable,
            final(self).depth == old(self).depth,
            final(self).paths_truncated == old(self).paths_truncated,
            final(self).fed == old(self).fed,
            exists|kept: Seq<bool>|
                {
                    &&& #[trigger] kept_by(*keep, old(self).paths@, old(self).records, kept)
                    &&& forall|x: PathModel|
                        path_models(final(self).paths@).contains(x) <==> exists|i: int|
                            0 <= i < kept.len() && kept[i] && path_models(old(self).paths@)[i] == x
                },
            forall|a: int, b: int|
                0 <= a < b < final(self).paths@.len() ==> text_less(
                    #[trigger] final(self).paths@[a].path@,
                    #[trigger] final(self).paths@[b].path@,
                ),
    {
        let records = self.records;
        let ghost orig = self.paths@;
        let ghost om = path_models(orig);
        let ghost n = orig.len();
        let mut sorted: Vec<PathStat> = Vec::new();
        let ghost mut kept: Seq<bool> = Seq::empty();
        while self.paths.len() > 0
            invariant
                records == old(self).records,
                orig == old(self).paths@,
                om == path_models(orig),
                n == orig.len(),
                paths_wf(orig),
                paths_bounded(orig, old(self).records as int, old(self).fed@ as int),
                forall|a: usize, b: usize| #[trigger] keep.requires((a, b)),
                self.paths@ == orig.take(self.paths@.len() as int),
                self.paths@.len() <= n,
                kept.len() == n - self.paths@.len(),
                sorted@.len() <= kept.len(),
                forall|j: int|
                    0 <= j < kept.len() ==> #[trigger] keep.ensures(
                        (orig[self.paths@.len() + j].records_present, records),
                        kept[j],
                    ),
                forall|x: PathModel|
                    path_models(sorted@).contains(x) <==> exists|i: int|
                        self.paths@.len() <= i < n && kept[i - self.paths@.len()] && om[i] == x,
                forall|a: int, b: int|
                    0 <= a < b < sorted@.len() ==> text_less(
                        #[trigger] sorted@[a].path@,
                        #[trigger] sorted@[b].path@,
                    ),
                self.records == old(self).records,
                self.unparseable == old(self).unparseable,
                self.depth == old(self).depth,
                self.paths_truncated == old(self).paths_truncated,
                self.fed == old(self).fed,
            decreases self.paths@.len(),
        {
            let ghost m = self.paths@.len() - 1;
            let p = self.paths.pop().unwrap();
            assert(p == orig[m]);
            assert(self.paths@ =~= orig.take(m));
            let k = keep(p.records_present, records);
            let ghost old_kept = kept;
            let ghost old_sorted = sorted@;
            proof {
                kept = seq![k] + old_kept;
                assert forall|j: int| 0 <= j < kept.len() implies #[trigger] keep.ensures(
                    (orig[self.paths@.len() + j].records_present, records),
                    kept[j],
                ) by {
                    if j == 0 {
                        assert(kept[0] == k);
                    } else {
                        assert(kept[j] == old_kept[j - 1]);
                        assert(keep.ensures((orig[(m + 1) + (j - 1)].records_present, records), old_kept[j - 1]));
                        assert((m + 1) + (j - 1) == self.paths@.len() + j);
                    }
                }
            }
            if k {
                let text = chars_of(p.path.as_str());
                let mut pos: usize = 0;
                while pos < sorted.len() && text_before(chars_of(sorted[pos].path.as_str()).as_slice(), text.as_slice())
                    invariant
                        text@ == p.path@,
                        pos <= sorted@.len(),
                        forall|a: int| 0 <= a < pos ==> text_less(#[trigger] sorted@[a].path@, p.path@),
                    decreases sorted@.len() - pos,
                {
                    pos = pos + 1;
                }
                proof {
                    // The new path differs from every path already sorted.
                    assert forall|a: int| 0 <= a < sorted@.len() implies #[trigger] sorted@[a].path@ != p.path@ by {
                        let x = path_models(sorted@)[a];
                        assert(path_models(sorted@).contains(x));
                        let i = choose|i: int| m + 1 <= i < n && old_kept[i - m - 1] && om[i] == x;
                        assert(om[i].path == orig[i].path@);
                        assert(i != m);
                    }
                    if pos < sorted@.len() {
                        let q = sorted@[pos as int].path@;
                        lemma_text_less_total(q, p.path@);
                    }
                }
                let ghost pm = p.model();
                sorted.insert(pos, p);
                proof {
                    assert forall|a: int, b: int|
                        0 <= a < b < sorted@.len() implies text_less(
                        #[trigger] sorted@[a].path@,
                        #[trigger] sorted@[b].path@,
                    ) by {
                        if b < pos {
                            assert(sorted@[a] == old_sorted[a] && sorted@[b] == old_sorted[b]);
                        } else if b == pos {
                            assert(sorted@[a] == old_sorted[a]);
                        } else if a == pos {
                            assert(sorted@[b] == old_sorted[b - 1]);
                            if b - 1 > pos {
                                lemma_text_less_transitive(
                                    pm.path,
                                    old_sorted[pos as int].path@,
                                    old_sorted[b - 1].path@,
                                );
                            }
                        } else if a < pos {
                            assert(sorted@[a] == old_sorted[a] && sorted@[b] == old_sorted[b - 1]);
                        } else {
                            assert(sorted@[a] == old_sorted[a - 1] && sorted@[b] == old_sorted[b - 1]);
                        }
                    }
                    assert forall|x: PathModel|
                        path_models(sorted@).contains(x) <==> exists|i: int|
                            m <= i < n && kept[i - m] && om[i] == x by {
                        if path_models(sorted@).contains(x) {
                            let a = choose|a: int| 0 <= a < sorted@.len() && path_models(sorted@)[a] == x;
                            if a == pos {
                                assert(m <= m < n && kept[0] && om[m] == x);
                            } else {
                                let a2 = if a < pos { a } else { a - 1 };
                                assert(sorted@[a] == old_sorted[a2]);
                                assert(path_models(old_sorted)[a2] == x);
                                assert(path_models(old_sorted).contains(x));
                                let i = choose|i: int| m + 1 <= i < n && old_kept[i - m - 1] && om[i] == x;
                                assert(kept[i - m] == old_kept[i - m - 1]);
                            }
                        }
                        if exists|i: int| m <= i < n && kept[i - m] && om[i] == x {
                            let i = choose|i: int| m <= i < n && kept[i - m] && om[i] == x;
                            if i == m {
                                assert(path_models(sorted@)[pos as int] == x);
                            } else {
                                assert(kept[i - m] == old_kept[i - m - 1]);
                                assert(path_models(old_sorted).contains(x));
                                let a = choose|a: int| 0 <= a < old_sorted.len() && path_models(old_sorted)[a] == x;
                                if a < pos {
                                    assert(path_models(sorted@)[a] == x);
                                } else {
                                    assert(path_models(sorted@)[a + 1] == x);
                                }
                            }
                        }
                    }
                }
            } else {
                proof {
                    assert forall|x: PathModel|
                        path_models(sorted@).contains(x) <==> exists|i: int|
                            m <= i < n && kept[i - m] && om[i] == x by {
                        if path_models(sorted@).contains(x) {
                            let i = choose|i: int| m + 1 <= i < n && old_kept[i - m - 1] && om[i] == x;
                            assert(kept[i - m] == old_kept[i - m - 1]);
                        }
                        if exists|i: int| m <= i < n && kept[i - m] && om[i] == x {
                            let i = choose|i: int| m <= i < n && kept[i - m] && om[i] == x;
                            assert(i != m);
                            assert(kept[i - m] == old_kept[i - m - 1]);
                        }
                    }
                }
            }
        }
        proof {
            let z = self.paths@.len();
            assert(z == 0);
            assert forall|i: int| 0 <= i < kept.len() implies #[trigger] keep.ensures((orig[i].records_present, records), kept[i]) by {
                assert(keep.ensures((orig[z + i].records_present, records), kept[i]));
            }
            assert(kept_by(*keep, orig, records, kept));
            assert forall|x: PathModel|
                path_models(sorted@).contains(x) <==> exists|i: int|
                    0 <= i < kept.len() && kept[i] && om[i] == x by {
                if path_models(sorted@).contains(x) {
                    let i = choose|i: int| z <= i < n && kept[i - z] && om[i] == x;
                    assert(kept[i] && om[i] == x);
                }
                if exists|i: int| 0 <= i < kept.len() && kept[i] && om[i] == x {
                    let i = choose|i: int| 0 <= i < kept.len() && kept[i] && om[i] == x;
                    assert(z <= i < n && kept[i - z] && om[i] == x);
                }
            }
        }
        let ghost sorted_len = sorted@.len();
        assert(sorted_len <= n);
        let mut index = TextIndex::new();
        let mut j: usize = 0;
        assert(path_texts(sorted@).take(0) =~= Seq::<Seq<char>>::empty());
        while j < sorted.len()
            invariant
                j <= sorted@.len(),
                index.indexes(path_texts(sorted@).take(j as int)),
            decreases sorted@.len() - j,
        {
            index.add(sorted[j].path.as_str(), j, Ghost(path_texts(sorted@).take(j as int)));
            assert(path_texts(sorted@).take(j + 1) =~= path_texts(sorted@).take(j as int).push(sorted@[j as int].path@));
            j = j + 1;
        }
        assert(path_texts(sorted@).take(sorted@.len() as int) =~= path_texts(sorted@));
        self.path_index = index;
        self.paths = sorted;
        proof {
            let fin = self.paths@;
            // Every kept path is one of the paths before.
            assert forall|a: int| 0 <= a < fin.len() implies {
                &&& tally_wf(#[trigger] fin[a].types@)
                &&& tally_total(fin[a].types@) == fin[a].values
            } by {
                let x = path_models(fin)[a];
                assert(path_models(fin).contains(x));
                let i = choose|i: int| 0 <= i < n && kept[i] && om[i] == x;
                assert(orig[i].types@ == fin[a].types@);
            }
            assert forall|a: int, b: int|
                0 <= a < fin.len() && 0 <= b < fin.len() && a != b implies #[trigger] fin[a].path@
                    != #[trigger] fin[b].path@ by {
                if a < b {
                    assert(text_less(fin[a].path@, fin[b].path@));
                    lemma_text_less_irreflexive(fin[a].path@);
                } else {
                    assert(text_less(fin[b].path@, fin[a].path@));
                    lemma_text_less_irreflexive(fin[b].path@);
                }
            }
            assert(fin.len() == sorted_len);
            assert forall|i: int, k: int|
                0 <= i < fin.len() && 0 <= k < fin[i].types@.len() implies #[trigger] fin[i].types@[k].1
                    <= fin[i].values by {
                let x = path_models(fin)[i];
                assert(path_models(fin).contains(x));
                let j = choose|j: int| 0 <= j < n && kept[j] && om[j] == x;
                assert(orig[j].types@ == fin[i].types@);
                assert(orig[j].types@[k].1 <= orig[j].values);
            }
            assert forall|i: int| 0 <= i < fin.len() implies #[trigger] fin[i].records_present <= self.records
                && fin[i].values <= self.fed@ by {
                let x = path_models(fin)[i];
                assert(path_models(fin).contains(x));
                let j = choose|j: int| 0 <= j < n && kept[j] && om[j] == x;
                assert(orig[j].records_present <= self.records);
                assert(orig[j].values <= self.fed@);
            }
            assert forall|i: int| 0 <= i < path_models(fin).len() implies (#[trigger] path_models(fin)[i]).records_present
                <= path_models(fin)[i].values && path_within(path_models(fin)[i].path, self.depth as nat) by {
                let x = path_models(fin)[i];
                assert(path_models(fin).contains(x));
                let j = choose|j: int| 0 <= j < n && kept[j] && om[j] == x;
                assert(om[j] == path_models(orig)[j]);
            }
            assert forall|i: int| 0 <= i < fin.len() implies #[trigger] fin[i].values <= self.fed@ as int by {
                assert(fin[i].records_present <= self.records && fin[i].values <= self.fed@);
            }
        }
    }
}

} // verus!
