//! Parsing for the `--field PATH` syntax used by `stats` to pick a value out
//! of each record: `key` or `.key` selects an object member, `[N]` one array
//! element (negative counts from the end), `[]` every array element. This
//! module only builds the parsed representation; walking a `Value` with it
//! is the job of the `stats` module.

use vstd::prelude::*;
use crate::text::{decimal, decimal_i64, decimal_string, utf8_len, push_str, chars_of, string_from_range, parse_i64};

verus! {

/// The mathematical form of a [`Segment`].
pub enum SegmentModel {
    Key(Seq<char>),
    Index(i64),
    Every,
}

/// One step of a [`FieldPath`]: either an object member or an array index.
#[derive(Debug, PartialEq, Eq)]
pub enum Segment {
    /// `key` or `.key`: selects an object member.
    Key(String),
    /// `[N]`: selects one array element. Negative counts from the end, so
    /// `-1` is the last element.
    Index(i64),
    /// `[]`: selects every array element, fanning the rest of the path out
    /// over each one.
    Every,
}

impl Clone for Segment {
    fn clone(&self) -> (r: Segment)
        ensures
            r == *self,
    {
        match self {
            Segment::Key(k) => Segment::Key(k.clone()),
            Segment::Index(i) => Segment::Index(*i),
            Segment::Every => Segment::Every,
        }
    }
}

impl Segment {
    pub open spec fn model(&self) -> SegmentModel {
        match self {
            Segment::Key(k) => SegmentModel::Key(k@),
            Segment::Index(i) => SegmentModel::Index(*i),
            Segment::Every => SegmentModel::Every,
        }
    }
}

/// The models of a run of segments.
pub open spec fn segment_models(segs: Seq<Segment>) -> Seq<SegmentModel> {
    Seq::new(segs.len(), |i: int| segs[i].model())
}

/// Why a path string failed to parse.
#[derive(Debug, Clone, PartialEq, Eq)]
pub struct PathError {
    pub message: String,
}

impl PathError {
    /// The error as it is displayed: its message.
    pub fn to_string(&self) -> (r: String)
        ensures
            r@ == self.message@,
    {
        let mut r = String::new();
        push_str(&mut r, self.message.as_str());
        r
    }
}

// --- the grammar -------------------------------------------------------------

/// The first position at or after `k` that holds a `]`, or the length.
pub open spec fn next_close(s: Seq<char>, k: int) -> int
    decreases s.len() - k,
{
    if k < 0 || k >= s.len() || s[k] == ']' {
        k
    } else {
        next_close(s, k + 1)
    }
}

pub open spec fn is_path_punct(c: char) -> bool {
    c == '.' || c == '[' || c == ']'
}

/// The end of the key that starts at `k`: the next `.`, `[` or `]`, or the
/// length.
pub open spec fn key_end(s: Seq<char>, k: int) -> int
    decreases s.len() - k,
{
    if k < 0 || k >= s.len() || is_path_punct(s[k]) {
        k
    } else {
        key_end(s, k + 1)
    }
}

/// "`what` at position N in 'input'", N being the byte offset of character
/// `pos`.
pub open spec fn at_position(what: Seq<char>, s: Seq<char>, pos: int) -> Seq<char> {
    what + " at position "@ + decimal(utf8_len(s.take(pos))) + " in '"@ + s + "'"@
}

/// "`what` in 'input'".
pub open spec fn in_input(what: Seq<char>, s: Seq<char>) -> Seq<char> {
    what + " in '"@ + s + "'"@
}

pub proof fn lemma_next_close(s: Seq<char>, k: int)
    requires
        0 <= k <= s.len(),
    ensures
        k <= next_close(s, k) <= s.len(),
        next_close(s, k) < s.len() ==> s[next_close(s, k)] == ']',
        forall|m: int| k <= m < next_close(s, k) ==> s[m] != ']',
    decreases s.len() - k,
{
    if k < s.len() && s[k] != ']' {
        lemma_next_close(s, k + 1);
    }
}

pub proof fn lemma_key_end(s: Seq<char>, k: int)
    requires
        0 <= k <= s.len(),
    ensures
        k <= key_end(s, k) <= s.len(),
        key_end(s, k) < s.len() ==> is_path_punct(s[key_end(s, k)]),
        forall|m: int| k <= m < key_end(s, k) ==> !is_path_punct(#[trigger] s[m]),
    decreases s.len() - k,
{
    if k < s.len() && !is_path_punct(s[k]) {
        lemma_key_end(s, k + 1);
    }
}

/// The segments of the path `s` read from `pos`, where `expect_separator`
/// says a key or index was just read, and `acc` holds the segments so far.
pub open spec fn segments_from(
    s: Seq<char>,
    pos: int,
    expect_separator: bool,
    acc: Seq<SegmentModel>,
) -> Result<Seq<SegmentModel>, Seq<char>>
    decreases s.len() - pos,
{
    if pos < 0 || pos >= s.len() {
        if acc.len() == 0 {
            Err(in_input("no field selected"@, s))
        } else {
            Ok(acc)
        }
    } else {
        let c = s[pos];
        proof {
            lemma_next_close(s, pos);
            lemma_key_end(s, pos);
        }
        if c == '.' {
            if !expect_separator {
                Err(at_position("unexpected '.'"@, s, pos))
            } else if pos + 1 >= s.len() {
                Err(in_input("trailing '.'"@, s))
            } else {
                segments_from(s, pos + 1, false, acc)
            }
        } else if c == '[' {
            let close = next_close(s, pos);
            if close >= s.len() {
                Err(in_input("unterminated '['"@, s))
            } else {
                let inside = s.subrange(pos + 1, close);
                if inside.len() == 0 {
                    segments_from(s, close + 1, true, acc.push(SegmentModel::Every))
                } else {
                    match decimal_i64(inside) {
                        Some(n) => segments_from(s, close + 1, true, acc.push(SegmentModel::Index(n))),
                        None => Err(in_input("invalid array index '"@ + inside + "'"@, s)),
                    }
                }
            }
        } else if c == ']' {
            Err(at_position("unexpected ']'"@, s, pos))
        } else if expect_separator {
            Err(at_position("expected '.' or '['"@, s, pos))
        } else {
            let e = key_end(s, pos);
            segments_from(s, e, true, acc.push(SegmentModel::Key(s.subrange(pos, e))))
        }
    }
}

/// The segments the path `s` stands for, or the message of its error.
pub open spec fn path_model(s: Seq<char>) -> Result<Seq<SegmentModel>, Seq<char>> {
    if s.len() == 0 {
        Err("field path is empty"@)
    } else {
        segments_from(s, 0, false, Seq::empty())
    }
}


// --- the parsed path ---------------------------------------------------------

/// A parsed `--field` path. Its segments are always what its text parses to.
#[derive(Debug, PartialEq, Eq)]
pub struct FieldPath {
    raw: String,
    segments: Vec<Segment>,
}

impl Clone for FieldPath {
    fn clone(&self) -> (r: FieldPath)
        ensures
            r.text() == self.text(),
            r.segs() == self.segs(),
    {
        proof {
            use_type_invariant(self);
        }
        let mut segments: Vec<Segment> = Vec::new();
        let mut i: usize = 0;
        while i < self.segments.len()
            invariant
                i <= self.segments@.len(),
                segments@ == self.segments@.take(i as int),
            decreases self.segments@.len() - i,
        {
            segments.push(self.segments[i].clone());
            assert(self.segments@.take(i + 1) =~= self.segments@.take(i as int).push(self.segments@[i as int]));
            i = i + 1;
        }
        assert(self.segments@.take(self.segments@.len() as int) =~= self.segments@);
        FieldPath { raw: self.raw.clone(), segments }
    }
}

impl FieldPath {
    #[verifier::type_invariant]
    spec fn parsed(&self) -> bool {
        path_model(self.raw@) == Ok::<Seq<SegmentModel>, Seq<char>>(segment_models(self.segments@))
    }

    /// The text the path was parsed from.
    pub closed spec fn text(&self) -> Seq<char> {
        self.raw@
    }

    /// The segments of the path.
    pub closed spec fn segs(&self) -> Seq<SegmentModel> {
        segment_models(self.segments@)
    }
}

fn with_input(what: String, input: &str) -> (r: String)
    ensures
        r@ == in_input(what@, input@),
{
    let mut m = what;
    push_str(&mut m, " in '");
    push_str(&mut m, input);
    push_str(&mut m, "'");
    m
}

fn owned(t: &str) -> (r: String)
    ensures
        r@ == t@,
{
    let mut r = String::new();
    push_str(&mut r, t);
    r
}

fn at(what: &str, input: &str, chars: &Vec<char>, pos: usize) -> (r: String)
    requires
        chars@ == input@,
        pos <= chars@.len(),
        utf8_len(input@) <= usize::MAX,
    ensures
        r@ == at_position(what@, input@, pos as int),
{
    let off = crate::text::utf8_offset(chars, pos);
    let mut m = owned(what);
    push_str(&mut m, " at position ");
    let digits = decimal_string(off as u64);
    push_str(&mut m, digits.as_str());
    push_str(&mut m, " in '");
    push_str(&mut m, input);
    push_str(&mut m, "'");
    assert(m@ =~= at_position(what@, input@, pos as int));
    m
}

fn path_error(message: String) -> (e: PathError)
    ensures
        e.message@ == message@,
{
    PathError { message }
}

impl FieldPath {
    /// Parses a path like `meta.source`, `messages[].role` or `[0].id`.
    pub fn parse(input: &str) -> (r: Result<FieldPath, PathError>)
        ensures
            match r {
                Ok(p) => path_model(input@) == Ok::<Seq<SegmentModel>, Seq<char>>(p.segs())
                    && p.text() == input@,
                Err(e) => path_model(input@) == Err::<Seq<SegmentModel>, Seq<char>>(e.message@),
            },
    {
        let chars = chars_of(input);
        if chars.len() == 0 {
            return Err(path_error(owned("field path is empty")));
        }
        let total = input.as_bytes().len();
        assert(utf8_len(input@) == total);
        let ghost s = input@;
        let mut segments: Vec<Segment> = Vec::new();
        let mut pos: usize = 0;
        // Set once a key or index has been read; cleared by a '.'. A bare
        // key can never follow another bare key without a separator, but a
        // '[' needs no separator of its own (`messages[0]`, not `messages.[0]`).
        let mut expect_separator = false;
        assert(segment_models(segments@) =~= Seq::<SegmentModel>::empty());
        while pos < chars.len()
            invariant
                chars@ == s,
                s == input@,
                s.len() > 0,
                utf8_len(s) <= usize::MAX,
                pos <= s.len(),
                path_model(s) == segments_from(s, pos as int, expect_separator, segment_models(segments@)),
            decreases s.len() - pos,
        {
            let c = chars[pos];
            proof {
                lemma_next_close(s, pos as int);
                lemma_key_end(s, pos as int);
            }
            if c == '.' {
                if !expect_separator {
                    return Err(path_error(at("unexpected '.'", input, &chars, pos)));
                }
                pos = pos + 1;
                if pos >= chars.len() {
                    return Err(path_error(with_input(owned("trailing '.'"), input)));
                }
                expect_separator = false;
            } else if c == '[' {
                let mut close = pos;
                while close < chars.len() && chars[close] != ']'
                    invariant
                        pos <= close <= s.len(),
                        chars@ == s,
                        next_close(s, close as int) == next_close(s, pos as int),
                    decreases s.len() - close,
                {
                    close = close + 1;
                }
                if close >= chars.len() {
                    return Err(path_error(with_input(owned("unterminated '['"), input)));
                }
                let ghost inside = s.subrange(pos + 1, close as int);
                let segment = if pos + 1 == close {
                    Segment::Every
                } else {
                    match parse_i64(chars.as_slice(), pos + 1, close) {
                        Some(n) => Segment::Index(n),
                        None => {
                            let mut what = owned("invalid array index '");
                            let text = string_from_range(chars.as_slice(), pos + 1, close);
                            push_str(&mut what, text.as_str());
                            push_str(&mut what, "'");
                            return Err(path_error(with_input(what, input)));
                        },
                    }
                };
                proof {
                    assert(segment_models(segments@.push(segment)) =~= segment_models(segments@).push(
                        segment.model(),
                    ));
                }
                segments.push(segment);
                pos = close + 1;
                expect_separator = true;
            } else if c == ']' {
                return Err(path_error(at("unexpected ']'", input, &chars, pos)));
            } else {
                if expect_separator {
                    return Err(path_error(at("expected '.' or '['", input, &chars, pos)));
                }
                let start = pos;
                while pos < chars.len() && chars[pos] != '.' && chars[pos] != '[' && chars[pos] != ']'
                    invariant
                        start <= pos <= s.len(),
                        chars@ == s,
                        key_end(s, pos as int) == key_end(s, start as int),
                    decreases s.len() - pos,
                {
                    pos = pos + 1;
                }
                let key = Segment::Key(string_from_range(chars.as_slice(), start, pos));
                proof {
                    assert(segment_models(segments@.push(key)) =~= segment_models(segments@).push(
                        key.model(),
                    ));
                }
                segments.push(key);
                expect_separator = true;
            }
        }
        if segments.len() == 0 {
            return Err(path_error(with_input(owned("no field selected"), input)));
        }
        let mut raw = String::new();
        push_str(&mut raw, input);
        Ok(FieldPath { raw, segments })
    }

    /// The unparsed path string, as it was given.
    pub fn as_str(&self) -> (r: &str)
        ensures
            r@ == self.text(),
    {
        self.raw.as_str()
    }

    /// The path as it is displayed: the text it was parsed from.
    pub fn to_string(&self) -> (r: String)
        ensures
            r@ == self.text(),
    {
        owned(self.raw.as_str())
    }

    /// The segments of the path, in order.
    pub fn segments(&self) -> (r: &[Segment])
        ensures
            segment_models(r@) == self.segs(),
            path_model(self.text()) == Ok::<Seq<SegmentModel>, Seq<char>>(segment_models(r@)),
    {
        proof {
            use_type_invariant(self);
        }
        self.segments.as_slice()
    }
}

} // verus!
