//! A hash index from texts to the positions where they sit in a table, so a
//! table of texts can be searched without scanning all of it.

use std::collections::HashMap;
use vstd::prelude::*;
use crate::text::chars_of;

verus! {

broadcast use vstd::std_specs::hash::group_hash_axioms;

/// The FNV-1a offset basis.
pub const HASH_BASIS: u64 = 0xcbf29ce484222325;

/// The FNV-1a prime.
pub const HASH_PRIME: u64 = 0x100000001b3;

/// One FNV-1a step over a character's scalar value.
pub open spec fn hash_step(h: u64, c: char) -> u64 {
    vstd::wrapping::u64_specs::wrapping_mul(h ^ ((c as u32) as u64), HASH_PRIME)
}

/// The FNV-1a hash of a text, taken over its characters.
pub open spec fn text_hash(s: Seq<char>) -> u64
    decreases s.len(),
{
    if s.len() == 0 {
        HASH_BASIS
    } else {
        hash_step(text_hash(s.drop_last()), s.last())
    }
}

/// The hash of `t`.
pub fn hash_text(t: &str) -> (r: u64)
    ensures
        r == text_hash(t@),
{
    let cs = chars_of(t);
    let mut h: u64 = HASH_BASIS;
    let mut i: usize = 0;
    assert(cs@.take(0) =~= Seq::<char>::empty());
    while i < cs.len()
        invariant
            i <= cs@.len(),
            h == text_hash(cs@.take(i as int)),
        decreases cs@.len() - i,
    {
        let c = cs[i];
        h = (h ^ ((c as u32) as u64)).wrapping_mul(HASH_PRIME);
        assert(cs@.take(i + 1).drop_last() =~= cs@.take(i as int));
        assert(cs@.take(i + 1).last() == c);
        i = i + 1;
    }
    assert(cs@.take(cs@.len() as int) =~= cs@);
    h
}

/// Positions in a table, filed under the hash of the text at each position.
pub struct TextIndex {
    buckets: HashMap<u64, Vec<usize>>,
}

impl TextIndex {
    /// The positions filed under the hash `h`.
    pub closed spec fn positions(&self, h: u64) -> Seq<usize> {
        if self.buckets@.contains_key(h) {
            self.buckets@[h]@
        } else {
            Seq::empty()
        }
    }

    /// The index files every position of `texts` under the hash of its text,
    /// and names no position beyond `texts`.
    pub open spec fn indexes(&self, texts: Seq<Seq<char>>) -> bool {
        &&& forall|i: int| 0 <= i < texts.len() ==> #[trigger] self.positions(text_hash(texts[i])).contains(i as usize)
        &&& forall|h: u64, j: int| 0 <= j < self.positions(h).len() ==> #[trigger] self.positions(h)[j] < texts.len()
    }

    /// An index of an empty table.
    pub fn new() -> (r: TextIndex)
        ensures
            r.indexes(Seq::empty()),
    {
        let r = TextIndex { buckets: HashMap::new() };
        assert forall|h: u64, j: int| 0 <= j < r.positions(h).len() implies #[trigger] r.positions(h)[j] < 0 by {
            assert(!r.buckets@.contains_key(h));
        }
        r
    }

    /// The positions filed under the hash `h`, if any are.
    pub fn positions_of(&self, h: u64) -> (r: Option<&Vec<usize>>)
        ensures
            match r {
                Some(v) => v@ == self.positions(h),
                None => self.positions(h) == Seq::<usize>::empty(),
            },
    {
        self.buckets.get(&h)
    }

    /// Files position `i`, the end of `texts`, where the text `t` is being
    /// added.
    pub(crate) fn add(&mut self, t: &str, i: usize, Ghost(texts): Ghost<Seq<Seq<char>>>)
        requires
            old(self).indexes(texts),
            i == texts.len(),
        ensures
            final(self).indexes(texts.push(t@)),
    {
        let h = hash_text(t);
        let ghost before = *self;
        let mut bucket: Vec<usize> = Vec::new();
        if let Some(existing) = self.positions_of(h) {
            let mut k: usize = 0;
            while k < existing.len()
                invariant
                    k <= existing@.len(),
                    bucket@ == existing@.take(k as int),
                decreases existing@.len() - k,
            {
                bucket.push(existing[k]);
                assert(existing@.take(k + 1) =~= existing@.take(k as int).push(existing@[k as int]));
                k = k + 1;
            }
            assert(existing@.take(existing@.len() as int) =~= existing@);
        }
        assert(bucket@ == before.positions(h));
        bucket.push(i);
        let ghost nb = bucket@;
        self.buckets.insert(h, bucket);
        proof {
            let all = texts.push(t@);
            assert(nb == before.positions(h).push(i));
            assert forall|h2: u64| h2 != h implies #[trigger] self.positions(h2) == before.positions(h2) by {}
            assert(self.positions(h) == nb);
            assert forall|x: int| 0 <= x < all.len() implies #[trigger] self.positions(text_hash(all[x])).contains(x as usize) by {
                if x < texts.len() {
                    assert(all[x] == texts[x]);
                    let hx = text_hash(texts[x]);
                    assert(before.positions(hx).contains(x as usize));
                    if hx == h {
                        let w = choose|w: int| 0 <= w < before.positions(h).len() && before.positions(h)[w] == x as usize;
                        assert(self.positions(h)[w] == x as usize);
                    }
                } else {
                    assert(all[x] == t@);
                    assert(self.positions(h)[nb.len() - 1] == i);
                }
            }
            assert forall|h2: u64, j: int| 0 <= j < self.positions(h2).len() implies #[trigger] self.positions(h2)[j]
                < all.len() by {
                if h2 != h {
                    assert(before.positions(h2)[j] < texts.len());
                } else if j < nb.len() - 1 {
                    assert(self.positions(h)[j] == before.positions(h)[j]);
                    assert(before.positions(h)[j] < texts.len());
                }
            }
        }
    }
}

} // verus!
