//! A log-bucketed histogram for approximate percentiles of line lengths.
//!
//! Every value below 16 gets its own exact bucket. Above that, buckets grow
//! geometrically by 3% so a multi-gigabyte file's length distribution fits in
//! a few hundred buckets instead of one entry per line. `min`, `max` and the
//! sum behind the mean are tracked separately and are always exact; only a
//! percentile carries the bucket's relative error.
//!
//! The bucket of a value of 16 or more is computed with floating point
//! (`floor(ln(v / 16) / ln(1.03))`) by the caller and handed to [`Histogram::add`].

use vstd::prelude::*;

verus! {

/// Values below this get their own exact bucket.
pub const LINEAR_LIMIT: u64 = 16;

/// The sum of the values of `s`.
pub open spec fn total(s: Seq<u64>) -> nat
    decreases s.len(),
{
    if s.len() == 0 {
        0
    } else {
        total(s.drop_last()) + s.last() as nat
    }
}

/// The smallest value of a nonempty `s`.
pub open spec fn smallest(s: Seq<u64>) -> u64
    decreases s.len(),
{
    if s.len() <= 1 {
        s[0]
    } else if s.last() < smallest(s.drop_last()) {
        s.last()
    } else {
        smallest(s.drop_last())
    }
}

/// The largest value of a nonempty `s`.
pub open spec fn largest(s: Seq<u64>) -> u64
    decreases s.len(),
{
    if s.len() <= 1 {
        s[0]
    } else if s.last() > largest(s.drop_last()) {
        s.last()
    } else {
        largest(s.drop_last())
    }
}

/// The smallest and the largest value are among the values, and every value
/// lies between them.
pub proof fn min_and_max_bound_every_value(s: Seq<u64>)
    requires
        s.len() > 0,
    ensures
        s.contains(smallest(s)),
        s.contains(largest(s)),
        forall|i: int| 0 <= i < s.len() ==> smallest(s) <= #[trigger] s[i] <= largest(s),
    decreases s.len(),
{
    if s.len() > 1 {
        let init = s.drop_last();
        min_and_max_bound_every_value(init);
        assert forall|i: int| 0 <= i < s.len() implies smallest(s) <= #[trigger] s[i] <= largest(s) by {
            if i < s.len() - 1 {
                assert(s[i] == init[i]);
            }
        }
        let a = choose|a: int| 0 <= a < init.len() && init[a] == smallest(init);
        let b = choose|b: int| 0 <= b < init.len() && init[b] == largest(init);
        assert(s[a] == init[a] && s[b] == init[b]);
        assert(s[s.len() - 1] == s.last());
    } else {
        assert(s[0] == smallest(s));
    }
}

/// How many times `v` occurs in `s`.
pub open spec fn occurrences(s: Seq<u64>, v: u64) -> nat
    decreases s.len(),
{
    if s.len() == 0 {
        0
    } else {
        occurrences(s.drop_last(), v) + if s.last() == v {
            1nat
        } else {
            0nat
        }
    }
}

/// How many of the recorded `(value, bucket)` pairs went to log bucket `i`.
pub open spec fn in_log_bucket(s: Seq<(u64, usize)>, i: int) -> nat
    decreases s.len(),
{
    if s.len() == 0 {
        0
    } else {
        in_log_bucket(s.drop_last(), i) + if s.last().0 >= LINEAR_LIMIT && s.last().1 == i {
            1nat
        } else {
            0nat
        }
    }
}

/// The values of the recorded `(value, bucket)` pairs.
pub open spec fn values_of(s: Seq<(u64, usize)>) -> Seq<u64> {
    Seq::new(s.len(), |i: int| s[i].0)
}

/// A running histogram of `u64` values, built for line lengths but not
/// specific to them.
pub struct Histogram {
    count: u64,
    sum: u64,
    min: Option<u64>,
    max: Option<u64>,
    linear: Vec<u64>,
    log_buckets: Vec<u64>,
    /// Every value added, with the log bucket it was given.
    added: Ghost<Seq<(u64, usize)>>,
}

impl Default for Histogram {
    fn default() -> (r: Histogram)
        ensures
            r.wf(),
            r.values() == Seq::<u64>::empty(),
    {
        Histogram::new()
    }
}

/// Where the running total of bucket counts first reaches a rank.
pub enum Rank {
    /// In the exact bucket of this value.
    Exact(u64),
    /// In this log bucket.
    Log(usize),
    /// Beyond every bucket.
    Max,
}

impl Histogram {
    /// The values added so far, in order.
    pub closed spec fn values(&self) -> Seq<u64> {
        values_of(self.added@)
    }

    /// The values added so far, each with the log bucket it was given.
    pub closed spec fn added(&self) -> Seq<(u64, usize)> {
        self.added@
    }

    /// The bucket counts in scan order: the exact buckets, then the log ones.
    pub closed spec fn buckets(&self) -> Seq<u64> {
        self.linear@ + self.log_buckets@
    }

    pub closed spec fn wf(&self) -> bool {
        let vs = values_of(self.added@);
        &&& self.linear@.len() == LINEAR_LIMIT
        &&& self.count == vs.len()
        &&& self.sum == total(vs)
        &&& (vs.len() == 0 ==> self.min is None && self.max is None)
        &&& (vs.len() > 0 ==> self.min == Some(smallest(vs)) && self.max == Some(largest(vs)))
        &&& forall|v: int| 0 <= v < LINEAR_LIMIT ==> #[trigger] self.linear@[v] == occurrences(vs, v as u64)
        &&& forall|i: int| 0 <= i < self.log_buckets@.len() ==> #[trigger] self.log_buckets@[i] == in_log_bucket(self.added@, i)
        &&& forall|i: int| i >= self.log_buckets@.len() ==> #[trigger] in_log_bucket(self.added@, i) == 0
        &&& total(self.linear@ + self.log_buckets@) == self.count
    }

    pub fn new() -> (r: Histogram)
        ensures
            r.wf(),
            r.values() == Seq::<u64>::empty(),
    {
        let mut linear: Vec<u64> = Vec::new();
        let mut i: u64 = 0;
        while i < LINEAR_LIMIT
            invariant
                i <= LINEAR_LIMIT,
                linear@.len() == i,
                forall|v: int| 0 <= v < i ==> #[trigger] linear@[v] == 0,
                total(linear@) == 0,
            decreases LINEAR_LIMIT - i,
        {
            let ghost before = linear@;
            linear.push(0);
            assert(linear@.drop_last() =~= before);
            i = i + 1;
        }
        let r = Histogram {
            count: 0,
            sum: 0,
            min: None,
            max: None,
            linear,
            log_buckets: Vec::new(),
            added: Ghost(Seq::empty()),
        };
        assert(values_of(r.added@) =~= Seq::<u64>::empty());
        assert(r.linear@ + r.log_buckets@ =~= r.linear@);
        r
    }

    /// The number of values added.
    pub fn count(&self) -> (r: u64)
        requires
            self.wf(),
        ensures
            r == self.values().len(),
    {
        self.count
    }

    /// The smallest value added, or 0 if none was.
    pub fn min(&self) -> (r: u64)
        requires
            self.wf(),
        ensures
            self.values().len() == 0 ==> r == 0,
            self.values().len() > 0 ==> r == smallest(self.values()),
    {
        match self.min {
            Some(m) => m,
            None => 0,
        }
    }

    /// The largest value added, or 0 if none was.
    pub fn max(&self) -> (r: u64)
        requires
            self.wf(),
        ensures
            self.values().len() == 0 ==> r == 0,
            self.values().len() > 0 ==> r == largest(self.values()),
    {
        match self.max {
            Some(m) => m,
            None => 0,
        }
    }

    /// The sum of the values added; the mean is this divided by the count.
    pub fn sum(&self) -> (r: u64)
        requires
            self.wf(),
        ensures
            r == total(self.values()),
    {
        self.sum
    }
}


proof fn lemma_total_update(s: Seq<u64>, i: int, x: u64)
    requires
        0 <= i < s.len(),
    ensures
        total(s.update(i, x)) == total(s) - s[i] + x,
        s[i] <= total(s),
    decreases s.len(),
{
    if i < s.len() - 1 {
        lemma_total_update(s.drop_last(), i, x);
        assert(s.update(i, x).drop_last() =~= s.drop_last().update(i, x));
    } else {
        assert(s.update(i, x).drop_last() =~= s.drop_last());
    }
}

proof fn lemma_total_push_zero(s: Seq<u64>)
    ensures
        total(s.push(0)) == total(s),
{
    assert(s.push(0).drop_last() =~= s);
}

impl Histogram {
    /// Adds one value. `log_index` is the log bucket of `value` when it is 16
    /// or more (`floor(ln(value / 16) / ln(1.03))`), and is not used below 16.
    pub fn add(&mut self, value: u64, log_index: usize)
        requires
            old(self).wf(),
            old(self).values().len() < u64::MAX,
            total(old(self).values()) + value <= u64::MAX,
            log_index < usize::MAX,
        ensures
            final(self).wf(),
            final(self).added() == old(self).added().push((value, log_index)),
            final(self).values() == old(self).values().push(value),
    {
        let ghost old_added = self.added@;
        let ghost new_added = old_added.push((value, log_index));
        let ghost vs = values_of(old_added);
        assert(values_of(new_added) =~= vs.push(value));
        assert(values_of(new_added).drop_last() =~= vs);
        assert(new_added.drop_last() =~= old_added);
        proof {
            lemma_total_update(self.linear@ + self.log_buckets@, 0, (self.linear@ + self.log_buckets@)[0]);
        }
        if value < LINEAR_LIMIT {
            let v = value as usize;
            proof {
                lemma_total_update(self.linear@ + self.log_buckets@, v as int, (self.linear@[v as int] + 1) as u64);
                assert((self.linear@ + self.log_buckets@)[v as int] == self.linear@[v as int]);
            }
            let c = self.linear[v];
            self.linear.set(v, c + 1);
            proof {
                assert(self.linear@ + self.log_buckets@ =~= (old(self).linear@ + old(self).log_buckets@).update(
                    v as int,
                    (c + 1) as u64,
                ));
            }
        } else {
            while self.log_buckets.len() <= log_index
                invariant
                    self.linear@ == old(self).linear@,
                    self.count == old(self).count,
                    self.sum == old(self).sum,
                    self.min == old(self).min,
                    self.max == old(self).max,
                    self.added == old(self).added,
                    forall|i: int| 0 <= i < self.log_buckets@.len() ==> #[trigger] self.log_buckets@[i]
                        == in_log_bucket(old_added, i),
                    total(self.linear@ + self.log_buckets@) == old(self).count,
                    forall|i: int| i >= old(self).log_buckets@.len() ==> #[trigger] in_log_bucket(old_added, i) == 0,
                    old(self).log_buckets@.len() <= self.log_buckets@.len(),
                decreases log_index + 1 - self.log_buckets@.len(),
            {
                let ghost before = self.linear@ + self.log_buckets@;
                self.log_buckets.push(0);
                proof {
                    assert(self.linear@ + self.log_buckets@ =~= before.push(0));
                    lemma_total_push_zero(before);
                }
            }
            let ghost b = self.linear@ + self.log_buckets@;
            proof {
                lemma_total_update(b, LINEAR_LIMIT + log_index, (b[LINEAR_LIMIT + log_index] + 1) as u64);
            }
            let c = self.log_buckets[log_index];
            self.log_buckets.set(log_index, c + 1);
            proof {
                assert(self.linear@ + self.log_buckets@ =~= b.update(
                    LINEAR_LIMIT + log_index,
                    (c + 1) as u64,
                ));
            }
        }
        self.count = self.count + 1;
        self.sum = self.sum + value;
        self.min = match self.min {
            Some(m) => Some(if value < m {
                value
            } else {
                m
            }),
            None => Some(value),
        };
        self.max = match self.max {
            Some(m) => Some(if value > m {
                value
            } else {
                m
            }),
            None => Some(value),
        };
        assert forall|i: int| i >= self.log_buckets@.len() implies #[trigger] in_log_bucket(new_added, i)
            == 0 by {
            assert(in_log_bucket(new_added, i) == in_log_bucket(old_added, i) + if value >= LINEAR_LIMIT
                && log_index == i {
                1nat
            } else {
                0nat
            });
        }
        self.added = Ghost(new_added);
        assert(forall|v: int| 0 <= v < LINEAR_LIMIT ==> #[trigger] self.linear@[v] == occurrences(values_of(new_added), v as u64));
    }
}


/// Scanning `counts` from `i` with `seen` counted before it: the first
/// nonempty bucket at which the running total reaches `target`.
pub open spec fn reach(counts: Seq<u64>, i: int, seen: nat, target: nat) -> Option<int>
    decreases counts.len() - i,
{
    if i < 0 || i >= counts.len() {
        None
    } else if counts[i] != 0 && seen + counts[i] >= target {
        Some(i)
    } else {
        reach(counts, i + 1, seen + counts[i] as nat, target)
    }
}

/// Where rank `target` falls among the bucket counts, exact buckets first.
pub open spec fn rank_in(counts: Seq<u64>, target: nat) -> Rank {
    match reach(counts, 0, 0, target) {
        Some(i) => if i < LINEAR_LIMIT {
            Rank::Exact(i as u64)
        } else {
            Rank::Log((i - LINEAR_LIMIT) as usize)
        },
        None => Rank::Max,
    }
}

proof fn lemma_total_take(s: Seq<u64>, i: int)
    requires
        0 <= i < s.len(),
    ensures
        total(s.take(i + 1)) == total(s.take(i)) + s[i],
        total(s.take(i + 1)) <= total(s),
    decreases s.len() - i,
{
    assert(s.take(i + 1).drop_last() =~= s.take(i));
    if i + 1 < s.len() {
        lemma_total_take(s, i + 1);
    } else {
        assert(s.take(i + 1) =~= s);
    }
}

impl Histogram {
    /// Where rank `target` (1-based) falls: scanning the exact buckets and
    /// then the log buckets, the first nonempty one at which the running
    /// total of counts reaches `target`. A percentile is the value of that
    /// exact bucket, the lower bound of that log bucket, or the maximum.
    pub fn locate_rank(&self, target: u64) -> (r: Rank)
        requires
            self.wf(),
        ensures
            r == rank_in(self.buckets(), target as nat),
    {
        let ghost b = self.linear@ + self.log_buckets@;
        let mut seen: u64 = 0;
        let mut i: usize = 0;
        assert(b.take(0) =~= Seq::<u64>::empty());
        while i < self.linear.len()
            invariant
                self.wf(),
                b == self.linear@ + self.log_buckets@,
                i <= LINEAR_LIMIT,
                seen == total(b.take(i as int)),
                reach(b, 0, 0, target as nat) == reach(b, i as int, seen as nat, target as nat),
            decreases LINEAR_LIMIT - i,
        {
            proof {
                lemma_total_take(b, i as int);
            }
            let c = self.linear[i];
            assert(c == b[i as int]);
            if c != 0 && seen + c >= target {
                return Rank::Exact(i as u64);
            }
            seen = seen + c;
            i = i + 1;
        }
        let mut j: usize = 0;
        while j < self.log_buckets.len()
            invariant
                self.wf(),
                b == self.linear@ + self.log_buckets@,
                j <= self.log_buckets@.len(),
                seen == total(b.take(LINEAR_LIMIT + j)),
                reach(b, 0, 0, target as nat) == reach(b, LINEAR_LIMIT + j, seen as nat, target as nat),
            decreases self.log_buckets@.len() - j,
        {
            proof {
                lemma_total_take(b, LINEAR_LIMIT + j);
            }
            let c = self.log_buckets[j];
            assert(c == b[LINEAR_LIMIT + j]);
            if c != 0 && seen + c >= target {
                return Rank::Log(j);
            }
            seen = seen + c;
            j = j + 1;
        }
        Rank::Max
    }
}

} // verus!
