//! A seedable random source and a reservoir sampler built on it. Used by the
//! `sample` command to draw a uniform sample from a stream whose length is
//! not known until the last line is read.

use vstd::prelude::*;

verus! {

pub const GAMMA: u64 = 0x9E3779B97F4A7C15;

pub const MIX1: u64 = 0xBF58476D1CE4E5B9;

pub const MIX2: u64 = 0x94D049BB133111EB;

/// The output function of SplitMix64 applied to an advanced state.
pub open spec fn mix(z: u64) -> u64 {
    let z1 = (z ^ (z >> 30)).wrapping_mul(MIX1);
    let z2 = (z1 ^ (z1 >> 27)).wrapping_mul(MIX2);
    z2 ^ (z2 >> 31)
}

/// The state after one draw from `state`.
pub open spec fn advance(state: u64) -> u64 {
    state.wrapping_add(GAMMA)
}

/// The value drawn from `state`.
pub open spec fn draw(state: u64) -> u64 {
    mix(advance(state))
}

/// SplitMix64: the generator commonly used to seed xoshiro/xoroshiro
/// variants, but fine standalone here. It needs no setup beyond a single
/// `u64` seed, and the same seed always produces the same sequence, which is
/// what `--seed` promises.
pub struct SplitMix64 {
    state: u64,
}

impl View for SplitMix64 {
    type V = u64;

    closed spec fn view(&self) -> u64 {
        self.state
    }
}

/// The `n` values drawn in turn from `state`.
pub open spec fn draws(state: u64, n: nat) -> Seq<u64>
    decreases n,
{
    if n == 0 {
        Seq::empty()
    } else {
        seq![draw(state)] + draws(advance(state), (n - 1) as nat)
    }
}

/// The threshold below which Lemire's method rejects a draw: `2^64 mod bound`.
pub open spec fn reject_below(bound: u64) -> u64 {
    0u64.wrapping_sub(bound) % bound
}

/// The high and low halves of `r * bound` as a 128-bit product.
pub open spec fn high_half(r: u64, bound: u64) -> u64 {
    (((r as u128 * bound as u128) as u128) >> 64u128) as u64
}

pub open spec fn low_half(r: u64, bound: u64) -> u64 {
    ((r as u128 * bound as u128) as u128) as u64
}

/// Lemire's method from `state`: draw until the low half of `draw * bound` is
/// at least `reject_below(bound)`, and answer the high half; the result and
/// the state after the last draw. After `tries` rejections in a row the last
/// draw is answered as it is.
pub open spec fn below_from(state: u64, bound: u64, tries: nat) -> (u64, u64)
    decreases tries,
{
    let r = draw(state);
    if low_half(r, bound) >= reject_below(bound) || tries == 0 {
        (high_half(r, bound), advance(state))
    } else {
        below_from(advance(state), bound, (tries - 1) as nat)
    }
}

/// What `next_below(bound)` answers from `state`, and the state after it.
pub open spec fn next_below_spec(state: u64, bound: u64) -> (u64, u64) {
    if bound == 0 {
        (0, state)
    } else {
        below_from(state, bound, u64::MAX as nat)
    }
}

proof fn lemma_product(r: u64, bound: u64)
    ensures
        (r as int) * (bound as int) <= u128::MAX,
        ((r as u128 * bound as u128) as u128) as int == (r as int) * (bound as int),
        high_half(r, bound) as int == ((r as int) * (bound as int)) / 0x1_0000_0000_0000_0000,
{
    assert((r as int) * (bound as int) <= 0xFFFF_FFFF_FFFF_FFFE_0000_0000_0000_0001) by (nonlinear_arith)
        requires
            r <= u64::MAX,
            bound <= u64::MAX,
    ;
    let p: u128 = (r as u128 * bound as u128) as u128;
    vstd::bits::lemma_u128_shr_is_div(p, 64);
    vstd::arithmetic::power2::lemma2_to64_rest();
}

proof fn lemma_high_half_below(r: u64, bound: u64)
    requires
        bound > 0,
    ensures
        high_half(r, bound) < bound,
{
    lemma_product(r, bound);
    assert(((r as int) * (bound as int)) / 0x1_0000_0000_0000_0000 < bound) by (nonlinear_arith)
        requires
            r <= u64::MAX,
            bound > 0,
    ;
}

/// The high and low halves of the 128-bit product `r * bound`.
fn wide_product(r: u64, bound: u64) -> (res: (u64, u64))
    ensures
        res.0 == high_half(r, bound),
        res.1 == low_half(r, bound),
{
    proof {
        lemma_product(r, bound);
    }
    let product: u128 = (r as u128) * (bound as u128);
    ((product >> 64) as u64, product as u64)
}

proof fn lemma_below_from_in_range(state: u64, bound: u64, tries: nat)
    requires
        bound > 0,
    ensures
        below_from(state, bound, tries).0 < bound,
    decreases tries,
{
    lemma_high_half_below(draw(state), bound);
    if tries > 0 {
        lemma_below_from_in_range(advance(state), bound, (tries - 1) as nat);
    }
}

impl SplitMix64 {
    pub fn new(seed: u64) -> (r: SplitMix64)
        ensures
            r@ == seed,
    {
        SplitMix64 { state: seed }
    }

    pub fn next_u64(&mut self) -> (r: u64)
        ensures
            r == draw(old(self)@),
            final(self)@ == advance(old(self)@),
    {
        self.state = self.state.wrapping_add(GAMMA);
        let mut z = self.state;
        z = (z ^ (z >> 30)).wrapping_mul(MIX1);
        z = (z ^ (z >> 27)).wrapping_mul(MIX2);
        z ^ (z >> 31)
    }

    /// A uniform value in `0..bound`, or 0 if `bound` is 0.
    ///
    /// Uses Lemire's method on the 128-bit product instead of `% bound`, so
    /// the result stays unbiased even when `bound` does not divide 2^64
    /// evenly.
    pub fn next_below(&mut self, bound: u64) -> (r: u64)
        ensures
            r == next_below_spec(old(self)@, bound).0,
            final(self)@ == next_below_spec(old(self)@, bound).1,
            bound > 0 ==> r < bound,
            bound == 0 ==> r == 0,
    {
        if bound == 0 {
            return 0;
        }
        proof {
            lemma_below_from_in_range(self@, bound, u64::MAX as nat);
        }
        let threshold = 0u64.wrapping_sub(bound) % bound;
        let mut tries: u64 = u64::MAX;
        loop
            invariant
                bound > 0,
                threshold == reject_below(bound),
                next_below_spec(old(self)@, bound) == below_from(self@, bound, tries as nat),
                next_below_spec(old(self)@, bound).0 < bound,
            decreases tries,
        {
            let r = self.next_u64();
            let (high, low) = wide_product(r, bound);
            if low >= threshold || tries == 0 {
                return high;
            }
            tries = tries - 1;
        }
    }
}


/// Algorithm R reservoir sampling: keeps a uniform random sample of `capacity`
/// items from a stream of unknown length, in one pass, using memory
/// proportional to `capacity` rather than to the stream length.
///
/// Each kept item remembers the position it had in the stream, so
/// callers that want the sample back in file order can ask for it with
/// [`Reservoir::into_sorted`].
pub struct Reservoir<T> {
    capacity: usize,
    seen: u64,
    rng: SplitMix64,
    items: Vec<(u64, T)>,
    /// Every item offered so far, in order.
    stream: Ghost<Seq<T>>,
    /// The seed the random source started from.
    seed: Ghost<u64>,
}

/// The indices of `kept` are pairwise distinct.
pub open spec fn distinct_indices<T>(kept: Seq<(u64, T)>) -> bool {
    forall|a: int, b: int|
        0 <= a < kept.len() && 0 <= b < kept.len() && a != b ==> #[trigger] kept[a].0 != #[trigger] kept[b].0
}

/// Each kept item is the item the stream held at its index.
pub open spec fn kept_from<T>(kept: Seq<(u64, T)>, stream: Seq<T>) -> bool {
    forall|a: int|
        0 <= a < kept.len() ==> (#[trigger] kept[a]).0 < stream.len() && stream[kept[a].0 as int]
            == kept[a].1
}

/// `out` holds the items of `kept`, ordered by strictly increasing index.
pub open spec fn sorted_by_index<T>(kept: Seq<(u64, T)>, out: Seq<(u64, T)>) -> bool {
    &&& out.len() == kept.len()
    &&& forall|x: (u64, T)| out.contains(x) <==> kept.contains(x)
    &&& forall|a: int, b: int| 0 <= a < b < out.len() ==> #[trigger] out[a].0 < #[trigger] out[b].0
}

/// The items of `out` without their indices.
pub open spec fn items_of<T>(out: Seq<(u64, T)>) -> Seq<T> {
    Seq::new(out.len(), |i: int| out[i].1)
}

pub open spec fn min_nat(a: nat, b: nat) -> nat {
    if a < b {
        a
    } else {
        b
    }
}

/// Algorithm R's step for the item at stream index `n`: the kept items and
/// the random state after it, from `kept` and `state` before it.
pub open spec fn offer<T>(capacity: nat, kept: Seq<(u64, T)>, state: u64, n: nat, item: T) -> (Seq<(u64, T)>, u64) {
    if n < capacity {
        (kept.push((n as u64, item)), state)
    } else if capacity == 0 {
        (kept, state)
    } else {
        let (j, st) = next_below_spec(state, (n + 1) as u64);
        if j < capacity {
            (kept.update(j as int, (n as u64, item)), st)
        } else {
            (kept, st)
        }
    }
}

/// The kept items and the random state of a reservoir of `capacity` whose
/// source started from `seed`, once it has been offered `stream`.
pub open spec fn replay<T>(capacity: nat, seed: u64, stream: Seq<T>) -> (Seq<(u64, T)>, u64)
    decreases stream.len(),
{
    if stream.len() == 0 {
        (Seq::empty(), seed)
    } else {
        let (kept, st) = replay(capacity, seed, stream.drop_last());
        offer(capacity, kept, st, (stream.len() - 1) as nat, stream.last())
    }
}

impl<T> Reservoir<T> {
    /// How many items the reservoir keeps at most.
    pub closed spec fn capacity(&self) -> nat {
        self.capacity as nat
    }

    /// How many items have been offered.
    pub closed spec fn seen(&self) -> nat {
        self.seen as nat
    }

    /// The items offered so far, in order.
    pub closed spec fn stream(&self) -> Seq<T> {
        self.stream@
    }

    /// The kept items with their stream indices, in slot order.
    pub closed spec fn kept(&self) -> Seq<(u64, T)> {
        self.items@
    }

    /// The state of the random source.
    pub closed spec fn rng_state(&self) -> u64 {
        self.rng@
    }

    /// The seed the random source started from.
    pub closed spec fn seed(&self) -> u64 {
        self.seed@
    }

    /// The reservoir's invariant: it keeps `min(seen, capacity)` items, each
    /// the item the stream held at its (distinct) index, and it is where
    /// Algorithm R leads from its seed over the stream.
    pub closed spec fn wf(&self) -> bool {
        &&& self.stream@.len() == self.seen
        &&& (self.items@, self.rng@) == replay(self.capacity as nat, self.seed@, self.stream@)
        &&& self.items@.len() == min_nat(self.seen as nat, self.capacity as nat)
        &&& distinct_indices(self.items@)
        &&& kept_from(self.items@, self.stream@)
    }

    pub fn new(capacity: usize, seed: u64) -> (r: Reservoir<T>)
        ensures
            r.wf(),
            r.capacity() == capacity,
            r.seen() == 0,
            r.stream() == Seq::<T>::empty(),
            r.kept() == Seq::<(u64, T)>::empty(),
            r.rng_state() == seed,
            r.seed() == seed,
    {
        Reservoir {
            capacity,
            seen: 0,
            rng: SplitMix64::new(seed),
            items: Vec::with_capacity(capacity),
            stream: Ghost(Seq::empty()),
            seed: Ghost(seed),
        }
    }

    /// Offers one more item from the stream. Once the stream ends, every item
    /// it saw has had exactly `capacity` in `seen` odds of surviving into the
    /// reservoir.
    pub fn consider(&mut self, item: T)
        requires
            old(self).wf(),
            old(self).seen() < u64::MAX,
        ensures
            final(self).wf(),
            final(self).capacity() == old(self).capacity(),
            final(self).seed() == old(self).seed(),
            final(self).seen() == old(self).seen() + 1,
            final(self).kept().len() == min_nat(final(self).seen(), final(self).capacity()),
            final(self).stream() == old(self).stream().push(item),
            old(self).seen() < old(self).capacity() ==> {
                &&& final(self).kept() == old(self).kept().push((old(self).seen() as u64, item))
                &&& final(self).rng_state() == old(self).rng_state()
            },
            old(self).seen() >= old(self).capacity() && old(self).capacity() == 0 ==> {
                &&& final(self).kept() == old(self).kept()
                &&& final(self).rng_state() == old(self).rng_state()
            },
            old(self).seen() >= old(self).capacity() && old(self).capacity() > 0 ==> {
                let (j, st) = next_below_spec(old(self).rng_state(), (old(self).seen() + 1) as u64);
                &&& final(self).rng_state() == st
                &&& j < old(self).capacity() ==> final(self).kept() == old(self).kept().update(
                    j as int,
                    (old(self).seen() as u64, item),
                )
                &&& j >= old(self).capacity() ==> final(self).kept() == old(self).kept()
            },
    {
        let index = self.seen;
        self.seen = self.seen + 1;
        let ghost stream = self.stream@.push(item);
        proof {
            assert(stream.drop_last() =~= self.stream@);
        }
        self.stream = Ghost(stream);

        if self.items.len() < self.capacity {
            self.items.push((index, item));
            return;
        }
        if self.capacity == 0 {
            return;
        }
        let j = self.rng.next_below(self.seen);
        if j < self.capacity as u64 {
            self.items.set(j as usize, (index, item));
        }
    }

    pub fn len(&self) -> (r: usize)
        ensures
            r == self.kept().len(),
    {
        self.items.len()
    }

    pub fn is_empty(&self) -> (r: bool)
        ensures
            r == (self.kept().len() == 0),
    {
        self.items.len() == 0
    }
}


impl<T> Reservoir<T> {
    /// The sampled items, restored to the order they appeared in the stream.
    pub fn into_sorted(self) -> (r: Vec<T>)
        requires
            self.wf(),
        ensures
            exists|out: Seq<(u64, T)>|
                sorted_by_index(self.kept(), out) && r@ == items_of(out),
    {
        let ghost kept = self.items@;
        let mut items = self.items;
        let mut sorted: Vec<(u64, T)> = Vec::new();
        while items.len() > 0
            invariant
                distinct_indices(kept),
                items@.len() <= kept.len(),
                items@ == kept.take(items@.len() as int),
                sorted@.len() + items@.len() == kept.len(),
                forall|x: (u64, T)|
                    sorted@.contains(x) <==> kept.subrange(items@.len() as int, kept.len() as int).contains(x),
                forall|a: int, b: int|
                    0 <= a < b < sorted@.len() ==> #[trigger] sorted@[a].0 < #[trigger] sorted@[b].0,
            decreases items@.len(),
        {
            let ghost n = items@.len();
            let (k, x) = items.pop().unwrap();
            assert(kept[n - 1] == (k, x));
            // Every index in `sorted` differs from `k`.
            assert forall|a: int| 0 <= a < sorted@.len() implies #[trigger] sorted@[a].0 != k by {
                assert(sorted@.contains(sorted@[a]));
                let b = choose|b: int|
                    n <= b < kept.len() && kept[b] == sorted@[a];
                assert(kept.subrange(n as int, kept.len() as int)[b - n] == sorted@[a]);
            }
            let mut pos: usize = 0;
            while pos < sorted.len() && sorted[pos].0 < k
                invariant
                    pos <= sorted@.len(),
                    forall|a: int| 0 <= a < pos ==> #[trigger] sorted@[a].0 < k,
                decreases sorted@.len() - pos,
            {
                pos = pos + 1;
            }
            let ghost before = sorted@;
            sorted.insert(pos, (k, x));
            proof {
                assert(items@ =~= kept.take(items@.len() as int));
                assert forall|y: (u64, T)| sorted@.contains(y) <==> kept.subrange(
                    items@.len() as int,
                    kept.len() as int,
                ).contains(y) by {
                    let rest = kept.subrange(items@.len() as int, kept.len() as int);
                    let old_rest = kept.subrange(n as int, kept.len() as int);
                    assert(rest =~= seq![(k, x)] + old_rest);
                    if sorted@.contains(y) {
                        let i = choose|i: int| 0 <= i < sorted@.len() && sorted@[i] == y;
                        if i < pos {
                            assert(before[i] == y);
                            assert(before.contains(y));
                        } else if i > pos {
                            assert(before[i - 1] == y);
                            assert(before.contains(y));
                        }
                        if y != (k, x) {
                            let b = choose|b: int| 0 <= b < old_rest.len() && old_rest[b] == y;
                            assert(rest[b + 1] == y);
                        } else {
                            assert(rest[0] == y);
                        }
                    }
                    if rest.contains(y) {
                        let b = choose|b: int| 0 <= b < rest.len() && rest[b] == y;
                        if b == 0 {
                            assert(sorted@[pos as int] == y);
                        } else {
                            assert(old_rest[b - 1] == y);
                            assert(before.contains(y));
                            let i = choose|i: int| 0 <= i < before.len() && before[i] == y;
                            if i < pos {
                                assert(sorted@[i] == y);
                            } else {
                                assert(sorted@[i + 1] == y);
                            }
                        }
                    }
                }
                assert forall|a: int, b: int|
                    0 <= a < b < sorted@.len() implies #[trigger] sorted@[a].0 < #[trigger] sorted@[b].0 by {
                    if b < pos {
                        assert(sorted@[a] == before[a] && sorted@[b] == before[b]);
                    } else if b == pos {
                        assert(sorted@[a] == before[a]);
                    } else if a == pos {
                        assert(sorted@[b] == before[b - 1]);
                        assert(before[b - 1].0 != k);
                        if b - 1 > pos {
                            assert(before[pos as int].0 < before[b - 1].0);
                        }
                        assert(!(before[pos as int].0 < k) || pos == before.len());
                    } else if a < pos {
                        assert(sorted@[a] == before[a] && sorted@[b] == before[b - 1]);
                    } else {
                        assert(sorted@[a] == before[a - 1] && sorted@[b] == before[b - 1]);
                    }
                }
            }
        }
        let ghost out = sorted@;
        assert(kept.subrange(0, kept.len() as int) =~= kept);
        assert(sorted_by_index(kept, out));
        let mut r: Vec<T> = Vec::new();
        let mut rev: Vec<(u64, T)> = Vec::new();
        while sorted.len() > 0
            invariant
                sorted@ + rev@.reverse() == out,
                sorted_by_index(kept, out),
            decreases sorted@.len(),
        {
            let p = sorted.pop().unwrap();
            proof {
                assert(sorted@.push(p) + rev@.reverse() =~= sorted@ + rev@.push(p).reverse());
            }
            rev.push(p);
        }
        assert(rev@.reverse() =~= out);
        while rev.len() > 0
            invariant
                r@ + items_of(rev@.reverse()) == items_of(out),
                sorted_by_index(kept, out),
            decreases rev@.len(),
        {
            let p = rev.pop().unwrap();
            proof {
                assert(rev@.push(p).reverse() =~= seq![p] + rev@.reverse());
                assert(items_of(seq![p] + rev@.reverse()) =~= seq![p.1] + items_of(rev@.reverse()));
                assert(r@ + (seq![p.1] + items_of(rev@.reverse())) =~= r@.push(p.1) + items_of(rev@.reverse()));
            }
            r.push(p.1);
        }
        assert(items_of(rev@.reverse()) =~= Seq::<T>::empty());
        assert(r@ + Seq::<T>::empty() =~= r@);
        r
    }
}


proof fn lemma_mix_injective(a: u64, b: u64)
    requires
        mix(a) == mix(b),
    ensures
        a == b,
{
    let a1 = (a ^ (a >> 30)).wrapping_mul(MIX1);
    let b1 = (b ^ (b >> 30)).wrapping_mul(MIX1);
    let a2 = (a1 ^ (a1 >> 27)).wrapping_mul(MIX2);
    let b2 = (b1 ^ (b1 >> 27)).wrapping_mul(MIX2);
    assert(a2 ^ (a2 >> 31) == b2 ^ (b2 >> 31) ==> a2 == b2) by (bit_vector);
    let x1 = a1 ^ (a1 >> 27);
    let y1 = b1 ^ (b1 >> 27);
    assert(x1.wrapping_mul(0x94D049BB133111EBu64).wrapping_mul(0x319642b2d24d8ec3u64) == x1) by (bit_vector);
    assert(y1.wrapping_mul(0x94D049BB133111EBu64).wrapping_mul(0x319642b2d24d8ec3u64) == y1) by (bit_vector);
    assert(a1 ^ (a1 >> 27) == b1 ^ (b1 >> 27) ==> a1 == b1) by (bit_vector);
    let x0 = a ^ (a >> 30);
    let y0 = b ^ (b >> 30);
    assert(x0.wrapping_mul(0xBF58476D1CE4E5B9u64).wrapping_mul(0x96de1b173f119089u64) == x0) by (bit_vector);
    assert(y0.wrapping_mul(0xBF58476D1CE4E5B9u64).wrapping_mul(0x96de1b173f119089u64) == y0) by (bit_vector);
    assert(a ^ (a >> 30) == b ^ (b >> 30) ==> a == b) by (bit_vector);
}

/// Two different seeds give different first values, so their sequences
/// diverge from the first draw on.
pub proof fn different_seeds_diverge(a: u64, b: u64)
    requires
        a != b,
    ensures
        draw(a) != draw(b),
{
    assert(a.wrapping_add(0x9E3779B97F4A7C15u64) == b.wrapping_add(0x9E3779B97F4A7C15u64) ==> a == b) by (bit_vector);
    if draw(a) == draw(b) {
        lemma_mix_injective(advance(a), advance(b));
    }
}

/// Every draw of `next_below` is below its bound.
pub proof fn next_below_in_range(state: u64, bound: u64)
    requires
        bound > 0,
    ensures
        next_below_spec(state, bound).0 < bound,
{
    lemma_below_from_in_range(state, bound, u64::MAX as nat);
}

/// A reservoir keeps `min(seen, capacity)` items, each with a distinct
/// index, each the item the stream held at that index.
pub proof fn reservoir_holds_stream_items<T>(r: &Reservoir<T>)
    requires
        r.wf(),
    ensures
        r.kept().len() == min_nat(r.seen(), r.capacity()),
        r.stream().len() == r.seen(),
        distinct_indices(r.kept()),
        kept_from(r.kept(), r.stream()),
{
}

/// The sorted sample is a subsequence of the stream, in stream order: each
/// item sits at a strictly later stream index than the one before it.
pub proof fn sorted_sample_is_ordered_subsequence<T>(
    kept: Seq<(u64, T)>,
    stream: Seq<T>,
    out: Seq<(u64, T)>,
)
    requires
        kept_from(kept, stream),
        sorted_by_index(kept, out),
    ensures
        forall|k: int|
            0 <= k < out.len() ==> #[trigger] out[k].0 < stream.len() && stream[out[k].0 as int]
                == items_of(out)[k],
        forall|a: int, b: int| 0 <= a < b < out.len() ==> #[trigger] out[a].0 < #[trigger] out[b].0,
{
    assert forall|k: int| 0 <= k < out.len() implies #[trigger] out[k].0 < stream.len() && stream[out[k].0 as int]
        == items_of(out)[k] by {
        assert(out.contains(out[k]));
        assert(kept.contains(out[k]));
        let a = choose|a: int| 0 <= a < kept.len() && kept[a] == out[k];
        assert(kept_from(kept, stream));
        assert(kept[a].0 < stream.len() && stream[kept[a].0 as int] == kept[a].1);
    }
}

/// Two orderings of `kept` by strictly increasing index agree on their
/// first `k` places.
proof fn lemma_sorted_agree<T>(kept: Seq<(u64, T)>, o1: Seq<(u64, T)>, o2: Seq<(u64, T)>, k: int)
    requires
        sorted_by_index(kept, o1),
        sorted_by_index(kept, o2),
        0 <= k <= o1.len(),
    ensures
        forall|i: int| 0 <= i < k ==> #[trigger] o1[i] == o2[i],
    decreases k,
{
    if k > 0 {
        lemma_sorted_agree(kept, o1, o2, k - 1);
        let x = o1[k - 1];
        let y = o2[k - 1];
        assert(o1.contains(x));
        assert(o2.contains(y));
        let m = choose|m: int| 0 <= m < o2.len() && o2[m] == x;
        let n = choose|n: int| 0 <= n < o1.len() && o1[n] == y;
        if m < k - 1 {
            assert(o1[m] == o2[m]);
            assert(o1[m].0 < o1[k - 1].0);
        }
        if n < k - 1 {
            assert(o1[n] == o2[n]);
            assert(o2[n].0 < o2[k - 1].0);
        }
        if m > k - 1 && n > k - 1 {
            assert(o2[k - 1].0 < o2[m].0);
            assert(o1[k - 1].0 < o1[n].0);
        }
    }
}

/// Two reservoirs of the same capacity, started from the same seed and
/// offered the same items, hold the same sample, and hand it back sorted in
/// the same order.
pub proof fn same_seed_same_sample<T>(
    a: &Reservoir<T>,
    b: &Reservoir<T>,
    out_a: Seq<(u64, T)>,
    out_b: Seq<(u64, T)>,
)
    requires
        a.wf(),
        b.wf(),
        a.capacity() == b.capacity(),
        a.seed() == b.seed(),
        a.stream() == b.stream(),
        sorted_by_index(a.kept(), out_a),
        sorted_by_index(b.kept(), out_b),
    ensures
        a.kept() == b.kept(),
        a.rng_state() == b.rng_state(),
        out_a == out_b,
        items_of(out_a) == items_of(out_b),
{
    lemma_sorted_agree(a.kept(), out_a, out_b, out_a.len() as int);
    assert(out_a =~= out_b);
}

/// The state after `k` draws from `state`.
pub open spec fn nth_state(state: u64, k: nat) -> u64
    decreases k,
{
    if k == 0 {
        state
    } else {
        nth_state(advance(state), (k - 1) as nat)
    }
}

/// Lemire's method keeps the draw made from `state` for `bound`.
pub open spec fn accepts(state: u64, bound: u64) -> bool {
    low_half(draw(state), bound) >= reject_below(bound)
}

proof fn lemma_nth_state_closed(state: u64, k: nat)
    requires
        k <= u64::MAX,
    ensures
        nth_state(state, k) == state.wrapping_add((k as u64).wrapping_mul(GAMMA)),
    decreases k,
{
    if k > 0 {
        lemma_nth_state_closed(advance(state), (k - 1) as nat);
        let y = (k - 1) as u64;
        assert(state.wrapping_add(0x9E3779B97F4A7C15u64).wrapping_add(y.wrapping_mul(0x9E3779B97F4A7C15u64))
            == state.wrapping_add(((y + 1) as u64).wrapping_mul(0x9E3779B97F4A7C15u64))) by (bit_vector)
            requires
                y < 0xffff_ffff_ffff_ffffu64,
        ;
    } else {
        assert(state.wrapping_add(0u64.wrapping_mul(0x9E3779B97F4A7C15u64)) == state) by (bit_vector);
    }
}

/// The draw `u64::MAX` is kept whatever the bound.
proof fn lemma_top_draw_accepted(bound: u64)
    requires
        bound > 0,
    ensures
        low_half(u64::MAX, bound) >= reject_below(bound),
{
    lemma_product(u64::MAX, bound);
    let x: u128 = (u64::MAX as u128 * bound as u128) as u128;
    assert((x as u64) as int == x as int % 0x1_0000_0000_0000_0000) by {
        assert((x as u64) as u128 == x % 0x1_0000_0000_0000_0000u128) by (bit_vector);
    }
    assert(x as int == (bound - 1) * 0x1_0000_0000_0000_0000 + (0x1_0000_0000_0000_0000 - bound)) by (nonlinear_arith)
        requires
            x as int == (0x1_0000_0000_0000_0000 - 1) * (bound as int),
    ;
    vstd::arithmetic::div_mod::lemma_fundamental_div_mod_converse(
        x as int,
        0x1_0000_0000_0000_0000,
        bound - 1,
        0x1_0000_0000_0000_0000 - bound,
    );
    assert(0u64.wrapping_sub(bound) == 0x1_0000_0000_0000_0000 - bound);
    vstd::arithmetic::div_mod::lemma_mod_decreases(
        (0x1_0000_0000_0000_0000 - bound) as nat,
        bound as nat,
    );
}

/// Some draw within `u64::MAX` steps from `state` is kept: the `k`-th one,
/// whose advanced state is the one that mixes to `u64::MAX`.
proof fn lemma_accepted_within_cap(state: u64, bound: u64) -> (k: nat)
    requires
        bound > 0,
    ensures
        k <= u64::MAX,
        accepts(nth_state(state, k), bound),
{
    let target: u64 = 0xcf9a04affa6badc0;
    assert(mix(0xcf9a04affa6badc0u64) == 0xffff_ffff_ffff_ffffu64) by (bit_vector);
    let kk: u64 = target.wrapping_sub(state).wrapping_mul(0xf1de83e19937733du64);
    let k: nat = if kk == 0 {
        u64::MAX as nat
    } else {
        (kk - 1) as nat
    };
    lemma_nth_state_closed(state, k);
    let ku = k as u64;
    assert(ku.wrapping_add(1) == kk) by {
        if kk == 0 {
            assert(0xffff_ffff_ffff_ffffu64.wrapping_add(1) == 0u64) by (bit_vector);
        }
    }
    assert(state.wrapping_add(ku.wrapping_mul(0x9E3779B97F4A7C15u64)).wrapping_add(0x9E3779B97F4A7C15u64)
        == state.wrapping_add(ku.wrapping_add(1).wrapping_mul(0x9E3779B97F4A7C15u64))) by (bit_vector);
    assert(state.wrapping_add(
        0xcf9a04affa6badc0u64.wrapping_sub(state).wrapping_mul(0xf1de83e19937733du64).wrapping_mul(
            0x9E3779B97F4A7C15u64,
        ),
    ) == 0xcf9a04affa6badc0u64) by (bit_vector);
    assert(advance(nth_state(state, k)) == target);
    assert(draw(nth_state(state, k)) == u64::MAX);
    lemma_top_draw_accepted(bound);
    k
}

/// While no draw before the `j`-th is kept, Lemire's method walks on to it.
proof fn lemma_below_from_walks(state: u64, bound: u64, tries: nat, j: nat)
    requires
        j <= tries,
        forall|i: nat| i < j ==> !#[trigger] accepts(nth_state(state, i), bound),
    ensures
        below_from(state, bound, tries) == below_from(nth_state(state, j), bound, (tries - j) as nat),
    decreases j,
{
    if j > 0 {
        assert(!accepts(nth_state(state, 0), bound));
        assert forall|i: nat| i < j - 1 implies !#[trigger] accepts(nth_state(advance(state), i), bound) by {
            assert(nth_state(state, i + 1) == nth_state(advance(state), i));
            assert(!accepts(nth_state(state, i + 1), bound));
        }
        lemma_below_from_walks(advance(state), bound, (tries - 1) as nat, (j - 1) as nat);
        assert(nth_state(state, j) == nth_state(advance(state), (j - 1) as nat));
    }
}

/// The first kept draw at or after step `j`, when a kept one comes at step
/// `k` and none before `j` was kept.
proof fn lemma_first_kept(state: u64, bound: u64, j: nat, k: nat) -> (first: nat)
    requires
        j <= k,
        accepts(nth_state(state, k), bound),
        forall|i: nat| i < j ==> !#[trigger] accepts(nth_state(state, i), bound),
    ensures
        first <= k,
        accepts(nth_state(state, first), bound),
        forall|i: nat| i < first ==> !#[trigger] accepts(nth_state(state, i), bound),
    decreases k - j,
{
    if accepts(nth_state(state, j), bound) {
        j
    } else {
        lemma_first_kept(state, bound, j + 1, k)
    }
}

/// The cap on rejected draws in `next_below` is never reached: for every
/// state and positive bound some draw within the cap is kept, and the answer
/// is the high half of the first kept draw, the state just after it.
pub proof fn next_below_takes_first_kept_draw(state: u64, bound: u64)
    requires
        bound > 0,
    ensures
        exists|k: nat|
            {
                &&& k <= u64::MAX
                &&& #[trigger] accepts(nth_state(state, k), bound)
                &&& forall|i: nat| i < k ==> !#[trigger] accepts(nth_state(state, i), bound)
                &&& next_below_spec(state, bound) == (
                    high_half(draw(nth_state(state, k)), bound),
                    advance(nth_state(state, k)),
                )
            },
{
    let k0 = lemma_accepted_within_cap(state, bound);
    let k = lemma_first_kept(state, bound, 0, k0);
    lemma_below_from_walks(state, bound, u64::MAX as nat, k);
}

} // verus!
