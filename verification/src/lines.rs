//! Turning raw chunks of a JSONL file into lines: every other module reads a
//! file through this, so the CRLF/BOM/missing-final-newline handling only
//! has to be right once.
//!
//! The reading itself happens outside the library: the caller reads up to and
//! including the next `\n` into a buffer (`BufRead::read_until`), and hands
//! that chunk to [`LineReader::next_line`], which turns it into the line.

use vstd::prelude::*;

verus! {

/// `b` starts with the UTF-8 byte order mark.
pub open spec fn starts_with_bom(b: Seq<u8>) -> bool {
    b.len() >= 3 && b[0] == 0xEF && b[1] == 0xBB && b[2] == 0xBF
}

/// A chunk without its line ending: a final `\n`, and a `\r` right before
/// it, are dropped; a chunk with no final `\n` is kept whole.
pub open spec fn without_line_ending(b: Seq<u8>) -> Seq<u8> {
    if b.len() > 0 && b.last() == 10u8 {
        let c = b.drop_last();
        if c.len() > 0 && c.last() == 13u8 {
            c.drop_last()
        } else {
            c
        }
    } else {
        b
    }
}

/// The line a raw chunk stands for; a leading byte order mark is dropped from
/// the very first chunk only.
pub open spec fn line_of_chunk(chunk: Seq<u8>, first: bool) -> Seq<u8> {
    let b = if first && starts_with_bom(chunk) {
        chunk.skip(3)
    } else {
        chunk
    };
    without_line_ending(b)
}

/// Splits a stream of chunks into lines without the trailing newline.
///
/// Handles a leading UTF-8 BOM (stripped once, from the very first line
/// only), both `\n` and `\r\n` terminators, and a final line with no
/// terminator at all. Lines are bytes because whether they are valid UTF-8 is
/// the caller's problem, not this one.
pub struct LineReader {
    checked_bom: bool,
    line_number: usize,
}

impl LineReader {
    /// No line has been returned yet.
    pub closed spec fn at_start(&self) -> bool {
        !self.checked_bom
    }

    /// The number of lines returned so far.
    pub closed spec fn lines_returned(&self) -> nat {
        self.line_number as nat
    }

    pub fn new() -> (r: LineReader)
        ensures
            r.at_start(),
            r.lines_returned() == 0,
    {
        LineReader { checked_bom: false, line_number: 0 }
    }

    /// The 1-based number of the line most recently returned, or 0 if
    /// `next_line` has not returned a line yet.
    pub fn line_number(&self) -> (r: usize)
        ensures
            r == self.lines_returned(),
    {
        self.line_number
    }

    /// Turns `buf`, which holds what was read up to and including the next
    /// `\n` (or the unterminated rest of the input), into the next line, or
    /// reports the end of input when nothing was read.
    pub fn next_line<'a>(&mut self, buf: &'a mut Vec<u8>) -> (r: Option<&'a [u8]>)
        requires
            old(self).lines_returned() < usize::MAX,
        ensures
            old(buf)@.len() == 0 ==> r is None && *final(self) == *old(self),
            old(buf)@.len() > 0 ==> {
                &&& r matches Some(line)
                &&& line@ == line_of_chunk(old(buf)@, old(self).at_start())
                &&& !final(self).at_start()
                &&& final(self).lines_returned() == old(self).lines_returned() + 1
            },
    {
        if buf.len() == 0 {
            return None;
        }
        if !self.checked_bom {
            self.checked_bom = true;
            if buf.len() >= 3 && buf[0] == 0xEF && buf[1] == 0xBB && buf[2] == 0xBF {
                let rest = buf.split_off(3);
                *buf = rest;
            }
        }
        let n = buf.len();
        if n > 0 && buf[n - 1] == 10u8 {
            buf.pop();
            let m = buf.len();
            if m > 0 && buf[m - 1] == 13u8 {
                buf.pop();
            }
        }
        self.line_number = self.line_number + 1;
        Some(buf.as_slice())
    }
}


/// A chunk read up to the next `\n` gives a line with no `\n` in it, and the
/// line is what the chunk holds once its ending (and, on the first line, a
/// byte order mark) is taken off.
pub proof fn line_has_no_newline(chunk: Seq<u8>, first: bool)
    requires
        forall|i: int| 0 <= i < chunk.len() - 1 ==> chunk[i] != 10u8,
    ensures
        forall|i: int|
            0 <= i < line_of_chunk(chunk, first).len() ==> #[trigger] line_of_chunk(chunk, first)[i]
                != 10u8,
        line_of_chunk(chunk, first).len() <= chunk.len(),
{
    let b = if first && starts_with_bom(chunk) {
        chunk.skip(3)
    } else {
        chunk
    };
    assert forall|i: int| 0 <= i < line_of_chunk(chunk, first).len() implies #[trigger] line_of_chunk(
        chunk,
        first,
    )[i] != 10u8 by {
        if first && starts_with_bom(chunk) {
            assert(b[i] == chunk[i + 3]);
        }
    }
}

/// The first position at or after `k` that holds a `\n`, or the length.
pub open spec fn next_lf(d: Seq<u8>, k: int) -> int
    decreases d.len() - k,
{
    if k < 0 || k >= d.len() || d[k] == 10u8 {
        k
    } else {
        next_lf(d, k + 1)
    }
}

pub proof fn lemma_next_lf(d: Seq<u8>, k: int)
    requires
        0 <= k <= d.len(),
    ensures
        k <= next_lf(d, k) <= d.len(),
        next_lf(d, k) < d.len() ==> d[next_lf(d, k)] == 10u8,
        forall|i: int| k <= i < next_lf(d, k) ==> #[trigger] d[i] != 10u8,
    decreases d.len() - k,
{
    if k < d.len() && d[k] != 10u8 {
        lemma_next_lf(d, k + 1);
    }
}

/// The chunks that reading `d` up to and including each `\n` in turn gives
/// (`BufRead::read_until` with `b'\n'`): the last one holds no `\n` when
/// `d` does not end with one.
pub open spec fn chunks(d: Seq<u8>) -> Seq<Seq<u8>>
    decreases d.len(),
{
    if d.len() == 0 {
        Seq::empty()
    } else {
        let j = next_lf(d, 0);
        proof {
            lemma_next_lf(d, 0);
        }
        if j < d.len() {
            seq![d.take(j + 1)] + chunks(d.skip(j + 1))
        } else {
            seq![d]
        }
    }
}

/// The pieces of `x` between its `\n`s, as splitting at every `\n` gives
/// them: one more than there are `\n`s.
pub open spec fn pieces(x: Seq<u8>) -> Seq<Seq<u8>>
    decreases x.len(),
{
    let j = next_lf(x, 0);
    proof {
        lemma_next_lf(x, 0);
    }
    if j < x.len() {
        seq![x.take(j)] + pieces(x.skip(j + 1))
    } else {
        seq![x]
    }
}

/// A piece without the `\r` it ends with, if any.
pub open spec fn strip_cr(p: Seq<u8>) -> Seq<u8> {
    if p.len() > 0 && p.last() == 13u8 {
        p.drop_last()
    } else {
        p
    }
}

/// The lines of a file whose bytes are `d`: none for an empty file;
/// otherwise, after a leading byte order mark is dropped, the pieces between
/// `\n`s, without the empty piece after a final `\n`, and each piece that a
/// `\n` ends without one `\r` right before it.
pub open spec fn file_lines(d: Seq<u8>) -> Seq<Seq<u8>> {
    if d.len() == 0 {
        Seq::empty()
    } else {
        let x = if starts_with_bom(d) {
            d.skip(3)
        } else {
            d
        };
        let ps = pieces(x);
        let n = if x.len() > 0 && x.last() == 10u8 {
            ps.len() - 1
        } else {
            ps.len() as int
        };
        Seq::new(n as nat, |k: int| if k < ps.len() - 1 { strip_cr(ps[k]) } else { ps[k] })
    }
}

/// What a reader hands back for the chunks of `d`, one line per chunk.
pub open spec fn reader_lines(d: Seq<u8>) -> Seq<Seq<u8>> {
    Seq::new(chunks(d).len(), |k: int| line_of_chunk(chunks(d)[k], k == 0))
}

/// The lines of `x` for a reader past its first line.
spec fn later_lines(x: Seq<u8>) -> Seq<Seq<u8>> {
    Seq::new(chunks(x).len(), |k: int| without_line_ending(chunks(x)[k]))
}

/// The lines of `x` when no byte order mark is looked for.
spec fn plain_file_lines(x: Seq<u8>) -> Seq<Seq<u8>> {
    let ps = pieces(x);
    let n = if x.len() > 0 && x.last() == 10u8 {
        ps.len() - 1
    } else {
        ps.len() as int
    };
    Seq::new(n as nat, |k: int| if k < ps.len() - 1 { strip_cr(ps[k]) } else { ps[k] })
}

proof fn lemma_pieces_len(x: Seq<u8>)
    ensures
        pieces(x).len() >= 1,
    decreases x.len(),
{
    lemma_next_lf(x, 0);
    let j = next_lf(x, 0);
    if j < x.len() {
        lemma_pieces_len(x.skip(j + 1));
    }
}

proof fn lemma_later_lines(x: Seq<u8>)
    requires
        x.len() > 0,
    ensures
        later_lines(x) == plain_file_lines(x),
    decreases x.len(),
{
    lemma_next_lf(x, 0);
    let j = next_lf(x, 0);
    if j < x.len() {
        let r = x.skip(j + 1);
        let c0 = x.take(j + 1);
        assert(c0.drop_last() =~= x.take(j));
        assert(without_line_ending(c0) == strip_cr(x.take(j)));
        lemma_pieces_len(r);
        if r.len() == 0 {
            assert(chunks(r) =~= Seq::<Seq<u8>>::empty());
            assert(next_lf(r, 0) == 0);
            assert(pieces(r) =~= seq![r]);
            assert(x.last() == 10u8);
            assert(later_lines(x) =~= plain_file_lines(x));
        } else {
            lemma_later_lines(r);
            assert(x.last() == r.last());
            assert(later_lines(x) =~= plain_file_lines(x)) by {
                assert(chunks(x) =~= seq![c0] + chunks(r));
                assert(pieces(x) =~= seq![x.take(j)] + pieces(r));
                let psx = pieces(x);
                let psr = pieces(r);
                assert(psx.len() == psr.len() + 1);
                assert(later_lines(x).len() == later_lines(r).len() + 1);
                assert(plain_file_lines(x).len() == plain_file_lines(r).len() + 1);
                assert forall|k: int| 0 <= k < later_lines(x).len() implies #[trigger] later_lines(x)[k]
                    == plain_file_lines(x)[k] by {
                    if k > 0 {
                        assert(later_lines(x)[k] == later_lines(r)[k - 1]);
                        assert(psx[k] == psr[k - 1]);
                        assert(plain_file_lines(x)[k] == plain_file_lines(r)[k - 1]);
                    }
                }
            }
        }
    } else {
        assert(x.last() != 10u8);
        assert(later_lines(x) =~= plain_file_lines(x));
    }
}

proof fn lemma_next_lf_after_bom(d: Seq<u8>, i: int)
    requires
        starts_with_bom(d),
        0 <= i <= d.len() - 3,
    ensures
        next_lf(d, i + 3) == next_lf(d.skip(3), i) + 3,
    decreases d.len() - i,
{
    let x = d.skip(3);
    if i < x.len() {
        assert(d[i + 3] == x[i]);
        if x[i] != 10u8 {
            lemma_next_lf_after_bom(d, i + 1);
        }
    }
}

/// A reader handed the chunks of a file in turn gives back exactly the lines
/// of the file: the byte order mark dropped from the start only, a line per
/// `\n`-ended piece without its `\n` and one `\r` before it, and the
/// unterminated rest, if any, as the last line.
pub proof fn reader_yields_the_file_lines(d: Seq<u8>)
    ensures
        reader_lines(d) == file_lines(d),
{
    if d.len() == 0 {
        assert(reader_lines(d) =~= file_lines(d));
    } else {
        lemma_next_lf(d, 0);
        let j = next_lf(d, 0);
        let c0 = chunks(d)[0];
        if starts_with_bom(d) {
            let x = d.skip(3);
            assert(next_lf(d, 0) == next_lf(d, 3)) by {
                assert(d[0] != 10u8 && d[1] != 10u8 && d[2] != 10u8);
                assert(next_lf(d, 0) == next_lf(d, 1));
                assert(next_lf(d, 1) == next_lf(d, 2));
                assert(next_lf(d, 2) == next_lf(d, 3));
            }
            lemma_next_lf_after_bom(d, 0);
            if x.len() == 0 {
                assert(next_lf(x, 0) == 0);
                assert(pieces(x) =~= seq![x]);
                assert(chunks(d) =~= seq![d]);
                assert(c0.skip(3) =~= x);
                assert(reader_lines(d) =~= file_lines(d));
            } else {
                lemma_next_lf(x, 0);
                let jx = next_lf(x, 0);
                if jx < x.len() {
                    assert(d.skip(j + 1) =~= x.skip(jx + 1));
                    assert(d.take(j + 1).skip(3) =~= x.take(jx + 1));
                } else {
                    assert(d.skip(3) =~= x);
                }
                assert(c0.skip(3) == chunks(x)[0]);
                assert(chunks(d).len() == chunks(x).len());
                assert forall|k: int| 1 <= k < chunks(d).len() implies #[trigger] chunks(d)[k] == chunks(x)[k] by {
                    if jx < x.len() {
                        assert(chunks(d)[k] == chunks(d.skip(j + 1))[k - 1]);
                        assert(chunks(x)[k] == chunks(x.skip(jx + 1))[k - 1]);
                    }
                }
                lemma_later_lines(x);
                assert(reader_lines(d) =~= later_lines(x));
                assert(file_lines(d) =~= plain_file_lines(x));
            }
        } else {
            if c0.len() >= 3 {
                assert(c0[0] == d[0] && c0[1] == d[1] && c0[2] == d[2]);
            }
            lemma_later_lines(d);
            assert(reader_lines(d) =~= later_lines(d));
            assert(file_lines(d) =~= plain_file_lines(d));
        }
    }
}

} // verus!
