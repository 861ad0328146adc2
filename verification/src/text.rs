//! Small building blocks on characters and strings that the parsers and the
//! report writers share: appending to a `String`, decimal rendering of
//! integers, and the byte length of a character's UTF-8 encoding.

use vstd::prelude::*;
use vstd::utf8::*;
use vstd::string::StringSliceAdditionalSpecFns;

verus! {

/// `c` is one of the ten ASCII decimal digits.
pub open spec fn is_digit(c: char) -> bool {
    '0' <= c <= '9'
}

/// The value of an ASCII decimal digit.
pub open spec fn digit_value(c: char) -> nat {
    (c as nat - '0' as nat) as nat
}

/// The character that writes the single decimal digit `d`.
pub open spec fn digit_char(d: nat) -> char {
    (('0' as nat) + d) as char
}

/// The decimal digits of `n`, most significant first, with no sign and no
/// leading zeros (`0` is written as a single `0`).
pub open spec fn decimal(n: nat) -> Seq<char>
    decreases n,
{
    if n < 10 {
        seq![digit_char(n)]
    } else {
        decimal(n / 10).push(digit_char(n % 10))
    }
}

/// The value of a run of decimal digits, read most significant first.
pub open spec fn digits_value(d: Seq<char>) -> nat
    decreases d.len(),
{
    if d.len() == 0 {
        0
    } else {
        digits_value(d.drop_last()) * 10 + digit_value(d.last())
    }
}

/// Every character of `d` is a decimal digit.
pub open spec fn all_digits(d: Seq<char>) -> bool {
    forall|i: int| 0 <= i < d.len() ==> is_digit(#[trigger] d[i])
}

/// How `i64`'s `FromStr` reads `t`: an optional `+` or `-`, then at least one
/// decimal digit and nothing else, with the value inside the range of `i64`.
pub open spec fn decimal_i64(t: Seq<char>) -> Option<i64> {
    let neg = t.len() > 0 && t[0] == '-';
    let signed = t.len() > 0 && (t[0] == '-' || t[0] == '+');
    let d = if signed { t.drop_first() } else { t };
    if d.len() > 0 && all_digits(d) {
        let v: int = if neg { -(digits_value(d) as int) } else { digits_value(d) as int };
        if i64::MIN <= v <= i64::MAX {
            Some(v as i64)
        } else {
            None
        }
    } else {
        None
    }
}

/// The number of bytes in the UTF-8 encoding of `s`.
pub open spec fn utf8_len(s: Seq<char>) -> nat {
    encode_utf8(s).len()
}

/// Appends one character to a `String` (std's `String::push`).
#[verifier::external_body]
pub(crate) fn push_char(s: &mut String, c: char)
    ensures
        final(s)@ == old(s)@.push(c),
{
    s.push(c);
}

/// Appends a string slice to a `String` (std's `String::push_str`).
#[verifier::external_body]
pub(crate) fn push_str(s: &mut String, t: &str)
    ensures
        final(s)@ == old(s)@ + t@,
{
    s.push_str(t);
}

/// std's `char::from_u32`: the character whose scalar value is `v`, or
/// `None` when `v` is a surrogate or beyond `0x10FFFF`.
#[verifier::external_body]
pub(crate) fn char_from_u32(v: u32) -> (r: Option<char>)
    ensures
        (v < 0xD800 || (0xE000 <= v && v <= 0x10FFFF)) ==> r == Some(v as char),
        !(v < 0xD800 || (0xE000 <= v && v <= 0x10FFFF)) ==> r is None,
{
    char::from_u32(v)
}

/// A `String` holding exactly the characters of `s`.
pub fn string_from_chars(s: &[char]) -> (r: String)
    ensures
        r@ == s@,
{
    let mut r = String::new();
    let mut i: usize = 0;
    while i < s.len()
        invariant
            i <= s.len(),
            r@ == s@.take(i as int),
        decreases s.len() - i,
    {
        push_char(&mut r, s[i]);
        i = i + 1;
        assert(r@ =~= s@.take(i as int));
    }
    assert(s@.take(s.len() as int) =~= s@);
    r
}

/// A `String` holding the characters `s[start..end]`.
pub fn string_from_range(s: &[char], start: usize, end: usize) -> (r: String)
    requires
        start <= end <= s@.len(),
    ensures
        r@ == s@.subrange(start as int, end as int),
{
    let mut r = String::new();
    let mut i: usize = start;
    while i < end
        invariant
            start <= i <= end <= s@.len(),
            r@ == s@.subrange(start as int, i as int),
        decreases end - i,
    {
        push_char(&mut r, s[i]);
        i = i + 1;
        assert(r@ =~= s@.subrange(start as int, i as int));
    }
    r
}

/// The characters of a string slice, in order.
pub fn chars_of(s: &str) -> (v: Vec<char>)
    ensures
        v@ == s@,
{
    let mut v: Vec<char> = Vec::new();
    for c in it: s.chars()
        invariant
            v@ == it.seq().take(it.index() as int),
            it.seq() == s@,
    {
        v.push(c);
    }
    v
}

/// The decimal digits of `n`.
pub fn decimal_string(n: u64) -> (r: String)
    ensures
        r@ == decimal(n as nat),
{
    // Collect the digits least significant first, then write them out.
    let mut digits: Vec<char> = Vec::new();
    let mut m: u64 = n;
    while m >= 10
        invariant
            decimal(n as nat) == decimal(m as nat) + digits@.reverse(),
        decreases m,
    {
        let d: u64 = m % 10;
        assert(d < 10);
        let c = char_from_u32(('0' as u32) + (d as u32)).unwrap();
        proof {
            assert(decimal(m as nat) == decimal((m / 10) as nat).push(digit_char((m % 10) as nat)));
            assert(c == digit_char(d as nat));
            assert(digits@.push(c).reverse() =~= seq![c] + digits@.reverse());
            assert(decimal((m / 10) as nat).push(c) + digits@.reverse() =~= decimal((m / 10) as nat)
                + (seq![c] + digits@.reverse()));
        }
        digits.push(c);
        m = m / 10;
    }
    let mut r = String::new();
    let last = char_from_u32(('0' as u32) + (m as u32)).unwrap();
    push_char(&mut r, last);
    assert(r@ =~= decimal(m as nat));
    let mut i: usize = digits.len();
    while i > 0
        invariant
            i <= digits.len(),
            r@ + digits@.take(i as int).reverse() == decimal(n as nat),
        decreases i,
    {
        i = i - 1;
        let c = digits[i];
        proof {
            assert(digits@.take(i + 1).reverse() =~= seq![c] + digits@.take(i as int).reverse());
            assert(r@ + (seq![c] + digits@.take(i as int).reverse()) =~= r@.push(c) + digits@.take(
                i as int,
            ).reverse());
        }
        push_char(&mut r, c);
    }
    assert(digits@.take(0).reverse() =~= Seq::<char>::empty());
    assert(r@ + Seq::<char>::empty() =~= r@);
    r
}


proof fn lemma_digits_value_prefix(d: Seq<char>, k: int)
    requires
        0 <= k <= d.len(),
        all_digits(d),
    ensures
        digits_value(d.take(k)) <= digits_value(d),
    decreases d.len() - k,
{
    if k < d.len() {
        lemma_digits_value_prefix(d, k + 1);
        assert(d.take(k + 1).drop_last() =~= d.take(k));
    } else {
        assert(d.take(k) =~= d);
    }
}

proof fn lemma_mul10_bound(m: int, dv: int, limit: int)
    requires
        0 <= dv < 10,
        dv <= limit,
        0 <= m,
    ensures
        (m * 10 + dv > limit) <==> (m > (limit - dv) / 10),
{
    assert((m * 10 + dv > limit) <==> (m > (limit - dv) / 10)) by (nonlinear_arith)
        requires
            0 <= dv < 10,
            dv <= limit,
            0 <= m,
    ;
}

/// `s[start..end]` read as an `i64` the way `str::parse::<i64>` reads it.
pub fn parse_i64(s: &[char], start: usize, end: usize) -> (r: Option<i64>)
    requires
        start <= end <= s@.len(),
    ensures
        r == decimal_i64(s@.subrange(start as int, end as int)),
{
    let ghost t = s@.subrange(start as int, end as int);
    if start == end {
        return None;
    }
    let neg = s[start] == '-';
    let signed = neg || s[start] == '+';
    let first: usize = if signed {
        start + 1
    } else {
        start
    };
    let ghost d = s@.subrange(first as int, end as int);
    assert(d =~= (if signed {
        t.drop_first()
    } else {
        t
    }));
    if first == end {
        return None;
    }
    let limit: u64 = if neg {
        0x8000_0000_0000_0000
    } else {
        0x7FFF_FFFF_FFFF_FFFF
    };
    let mut mag: u64 = 0;
    let mut i: usize = first;
    while i < end
        invariant
            first <= i <= end <= s@.len(),
            d == s@.subrange(first as int, end as int),
            t == s@.subrange(start as int, end as int),
            start < end,
            neg == (t[0] == '-'),
            signed == (t[0] == '-' || t[0] == '+'),
            d == (if signed {
                t.drop_first()
            } else {
                t
            }),
            limit == (if neg {
                0x8000_0000_0000_0000u64
            } else {
                0x7FFF_FFFF_FFFF_FFFFu64
            }),
            all_digits(d.take(i - first)),
            mag as nat == digits_value(d.take(i - first)),
            mag <= limit,
        decreases end - i,
    {
        let c = s[i];
        if !('0' <= c && c <= '9') {
            assert(d[i - first] == c);
            assert(!is_digit(d[i - first]));
            assert(!all_digits(d));
            return None;
        }
        let dv: u64 = ((c as u32) - ('0' as u32)) as u64;
        assert(dv < 10);
        assert(limit >= 10);
        assert(is_digit(d[i - first]) && digit_value(d[i - first]) == dv);
        assert(d.take(i - first + 1).drop_last() =~= d.take(i - first));
        proof {
            lemma_mul10_bound(mag as int, dv as int, limit as int);
        }
        if mag > (limit - dv) / 10 {
            proof {
                // The prefix read so far already exceeds the limit; a
                // complete digit run is at least that large.
                if all_digits(d) {
                    lemma_digits_value_prefix(d, i - first + 1);
                }
            }
            return None;
        }
        mag = mag * 10 + dv;
        i = i + 1;
        assert(all_digits(d.take(i - first))) by {
            assert forall|k: int| 0 <= k < d.take(i - first).len() implies is_digit(
                #[trigger] d.take(i - first)[k],
            ) by {
                if k < i - first - 1 {
                    assert(d.take(i - first)[k] == d.take(i - first - 1)[k]);
                }
            }
        }
    }
    assert(d.take(end - first) =~= d);
    if neg {
        if mag == 0x8000_0000_0000_0000 {
            Some(i64::MIN)
        } else {
            Some(-(mag as i64))
        }
    } else {
        Some(mag as i64)
    }
}


pub proof fn lemma_encode_utf8_concat(a: Seq<char>, b: Seq<char>)
    ensures
        encode_utf8(a + b) == encode_utf8(a) + encode_utf8(b),
    decreases a.len(),
{
    if a.len() == 0 {
        assert(a + b =~= b);
        assert(encode_utf8(a) + encode_utf8(b) =~= encode_utf8(b));
    } else {
        lemma_encode_utf8_concat(a.drop_first(), b);
        assert((a + b).drop_first() =~= a.drop_first() + b);
        assert(encode_utf8(a + b) =~= encode_utf8(a) + encode_utf8(b));
    }
}

/// The byte length of the encoding of `s`'s first `i` characters grows by
/// the width of character `i`.
pub proof fn lemma_utf8_len_step(s: Seq<char>, i: int)
    requires
        0 <= i < s.len(),
    ensures
        utf8_len(s.take(i + 1)) == utf8_len(s.take(i)) + encode_scalar(s[i] as u32).len(),
        utf8_len(s.take(i)) <= utf8_len(s),
{
    lemma_encode_utf8_concat(s.take(i), seq![s[i]]);
    assert(s.take(i) + seq![s[i]] =~= s.take(i + 1));
    assert(seq![s[i]].drop_first() =~= Seq::<char>::empty());
    assert(encode_utf8(Seq::<char>::empty()) =~= Seq::<u8>::empty());
    assert(encode_utf8(seq![s[i]]) == encode_scalar(seq![s[i]][0] as u32) + encode_utf8(seq![s[i]].drop_first()));
    assert(encode_utf8(seq![s[i]]) =~= encode_scalar(s[i] as u32));
    lemma_encode_utf8_concat(s.take(i), s.skip(i));
    assert(s.take(i) + s.skip(i) =~= s);
}

/// The number of bytes in the UTF-8 encoding of `c`.
pub fn utf8_width(c: char) -> (r: usize)
    ensures
        r == encode_scalar(c as u32).len(),
{
    proof {
        char_is_scalar(c);
    }
    let v = c as u32;
    if v <= 0x7F {
        1
    } else if v <= 0x7FF {
        2
    } else if v <= 0xFFFF {
        3
    } else {
        4
    }
}

/// The byte offset, in the UTF-8 encoding of `s`, of character `pos`.
pub fn utf8_offset(s: &Vec<char>, pos: usize) -> (r: usize)
    requires
        pos <= s@.len(),
        utf8_len(s@) <= usize::MAX,
    ensures
        r == utf8_len(s@.take(pos as int)),
{
    let mut i: usize = 0;
    let mut off: usize = 0;
    assert(s@.take(0) =~= Seq::<char>::empty());
    while i < pos
        invariant
            i <= pos <= s@.len(),
            utf8_len(s@) <= usize::MAX,
            off == utf8_len(s@.take(i as int)),
        decreases pos - i,
    {
        proof {
            lemma_utf8_len_step(s@, i as int);
            if i + 1 < s@.len() {
                lemma_utf8_len_step(s@, i + 1);
            } else {
                assert(s@.take(i + 1) =~= s@);
            }
        }
        off = off + utf8_width(s[i]);
        i = i + 1;
    }
    off
}

/// The length of the longest prefix of `bytes` that is valid UTF-8.
pub open spec fn valid_up_to(bytes: Seq<u8>) -> int {
    choose|n: int|
        partial_valid_utf8(bytes, n) && forall|j: int| n < j <= bytes.len() ==> !partial_valid_utf8(bytes, j)
}

/// std's `str::from_utf8`: the text that `bytes` encode when they are valid
/// UTF-8, the same bytes read as a `str`; otherwise the error's
/// `valid_up_to`, the length of the longest prefix of `bytes` that is valid.
#[verifier::external_body]
pub(crate) fn utf8_text(bytes: &[u8]) -> (r: Result<&str, usize>)
    ensures
        match r {
            Ok(t) => t.spec_bytes() == bytes@,
            Err(n) => {
                &&& !valid_utf8(bytes@)
                &&& partial_valid_utf8(bytes@, n as int)
                &&& forall|j: int| n < j <= bytes@.len() ==> !partial_valid_utf8(bytes@, j)
            },
        },
{
    match std::str::from_utf8(bytes) {
        Ok(t) => Ok(t),
        Err(e) => Err(e.valid_up_to()),
    }
}

/// The longest valid prefix is the one no longer prefix extends.
pub proof fn lemma_valid_up_to(bytes: Seq<u8>, n: int)
    requires
        partial_valid_utf8(bytes, n),
        forall|j: int| n < j <= bytes.len() ==> !partial_valid_utf8(bytes, j),
    ensures
        valid_up_to(bytes) == n,
        0 <= n <= bytes.len(),
{
    let m = valid_up_to(bytes);
    assert(partial_valid_utf8(bytes, m) && forall|j: int| m < j <= bytes.len() ==> !partial_valid_utf8(bytes, j));
    if m < n {
        assert(!partial_valid_utf8(bytes, n));
    } else if n < m {
        assert(!partial_valid_utf8(bytes, m));
    }
}

/// Encoding never takes fewer bytes than characters.
pub proof fn lemma_encode_utf8_len(s: Seq<char>)
    ensures
        s.len() <= encode_utf8(s).len(),
    decreases s.len(),
{
    if s.len() > 0 {
        lemma_encode_utf8_len(s.drop_first());
    }
}

/// Valid UTF-8 bytes decode to the characters they encode, and to no more
/// characters than there are bytes.
pub proof fn lemma_decoded_text(t: &str, bytes: Seq<u8>)
    requires
        t.spec_bytes() == bytes,
    ensures
        valid_utf8(bytes),
        t@ == decode_utf8(bytes),
        t@.len() <= bytes.len(),
{
    encode_utf8_valid_utf8(t@);
    encode_utf8_decode_utf8(t@);
    lemma_encode_utf8_len(t@);
}

} // verus!
