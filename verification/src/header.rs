use vstd::prelude::*;

use crate::error::{PpmError, Separator};

verus! {

/// ASCII whitespace, as `u8::is_ascii_whitespace` defines it:
/// space, horizontal tab, line feed, form feed, carriage return.
pub open spec fn is_ws(b: u8) -> bool {
    b == 0x20 || b == 0x09 || b == 0x0a || b == 0x0c || b == 0x0d
}

/// Executable mirror of [`is_ws`].
pub fn is_ascii_ws(b: u8) -> (r: bool)
    ensures
        r == is_ws(b),
{
    b == 0x20 || b == 0x09 || b == 0x0a || b == 0x0c || b == 0x0d
}

/// Index of the first non-whitespace byte at or after `i`, or `s.len()`
/// when only whitespace remains.
pub open spec fn skip_ws_from(s: Seq<u8>, i: int) -> int
    decreases s.len() - i,
{
    if i >= s.len() {
        i
    } else if is_ws(s[i]) {
        skip_ws_from(s, i + 1)
    } else {
        i
    }
}

/// Index of the first whitespace byte at or after `i`, or `s.len()` when
/// no whitespace remains: the end of the token that starts at `i`.
pub open spec fn token_end_from(s: Seq<u8>, i: int) -> int
    decreases s.len() - i,
{
    if i >= s.len() {
        i
    } else if !is_ws(s[i]) {
        token_end_from(s, i + 1)
    } else {
        i
    }
}

/// Pins [`skip_ws_from`] down on a known layout: whitespace on `[i, j)`
/// and, unless the input ends there, none at `j`.
pub proof fn lemma_skip_ws_value(s: Seq<u8>, i: int, j: int)
    requires
        0 <= i <= j <= s.len(),
        forall|t: int| i <= t < j ==> is_ws(s[t]),
        j < s.len() ==> !is_ws(s[j]),
    ensures
        skip_ws_from(s, i) == j,
    decreases j - i,
{
    if i < j {
        lemma_skip_ws_value(s, i + 1, j);
    }
}

/// Pins [`token_end_from`] down on a known layout: no whitespace on
/// `[i, j)` and, unless the input ends there, whitespace at `j`.
pub proof fn lemma_token_end_value(s: Seq<u8>, i: int, j: int)
    requires
        0 <= i <= j <= s.len(),
        forall|t: int| i <= t < j ==> !is_ws(s[t]),
        j < s.len() ==> is_ws(s[j]),
    ensures
        token_end_from(s, i) == j,
    decreases j - i,
{
    if i < j {
        lemma_token_end_value(s, i + 1, j);
    }
}

/// ASCII decimal digit.
pub open spec fn is_dec_digit(b: u8) -> bool {
    0x30 <= b <= 0x39
}

pub open spec fn all_dec_digits(s: Seq<u8>) -> bool {
    forall|i: int| 0 <= i < s.len() ==> is_dec_digit(s[i])
}

/// Numeric value of a digit string, most significant digit first.
pub open spec fn dec_value(s: Seq<u8>) -> nat
    decreases s.len(),
{
    if s.len() == 0 {
        0
    } else {
        (dec_value(s.drop_last()) * 10 + (s.last() - 0x30)) as nat
    }
}

/// The digit part of a token: `u32` parsing accepts one leading `+`.
pub open spec fn token_digits(s: Seq<u8>) -> Seq<u8> {
    if s.len() > 0 && s[0] == 0x2b {
        s.skip(1)
    } else {
        s
    }
}

/// Whether a token's text is a valid unsigned decimal integer that fits
/// in a `u32`: an optional leading `+`, then one or more digits, with a
/// value no greater than `u32::MAX`.
pub open spec fn is_u32_token(s: Seq<u8>) -> bool {
    let d = token_digits(s);
    d.len() > 0 && all_dec_digits(d) && dec_value(d) <= u32::MAX
}

/// The value a valid token parses to.
pub open spec fn token_u32(s: Seq<u8>) -> u32
    recommends
        is_u32_token(s),
{
    dec_value(token_digits(s)) as u32
}

/// A digit string's value only grows as more digits follow.
pub proof fn lemma_dec_value_prefix_le(s: Seq<u8>, k: int)
    requires
        all_dec_digits(s),
        0 <= k <= s.len(),
    ensures
        dec_value(s.take(k)) <= dec_value(s),
    decreases s.len(),
{
    if k == s.len() {
        assert(s.take(k) =~= s);
    } else {
        let d = s.drop_last();
        assert(all_dec_digits(d));
        assert(d.take(k) =~= s.take(k));
        lemma_dec_value_prefix_le(d, k);
    }
}

/// UTF-8 continuation byte.
pub open spec fn is_utf8_cont(b: u8) -> bool {
    0x80 <= b <= 0xbf
}

/// UTF-8 validity of a byte sequence, by the shortest-form encoding
/// rules: ASCII, two-, three- and four-byte sequences with the usual
/// restrictions on the first continuation byte (no overlong forms, no
/// surrogates, nothing above U+10FFFF).
pub open spec fn is_valid_utf8(s: Seq<u8>) -> bool
    decreases s.len(),
{
    if s.len() == 0 {
        true
    } else {
        let b0 = s[0];
        if b0 < 0x80 {
            is_valid_utf8(s.skip(1))
        } else if 0xc2 <= b0 <= 0xdf {
            s.len() >= 2 && is_utf8_cont(s[1]) && is_valid_utf8(s.skip(2))
        } else if b0 == 0xe0 {
            s.len() >= 3 && 0xa0 <= s[1] <= 0xbf && is_utf8_cont(s[2]) && is_valid_utf8(s.skip(3))
        } else if 0xe1 <= b0 <= 0xec || b0 == 0xee || b0 == 0xef {
            s.len() >= 3 && is_utf8_cont(s[1]) && is_utf8_cont(s[2]) && is_valid_utf8(s.skip(3))
        } else if b0 == 0xed {
            s.len() >= 3 && 0x80 <= s[1] <= 0x9f && is_utf8_cont(s[2]) && is_valid_utf8(s.skip(3))
        } else if b0 == 0xf0 {
            s.len() >= 4 && 0x90 <= s[1] <= 0xbf && is_utf8_cont(s[2]) && is_utf8_cont(s[3])
                && is_valid_utf8(s.skip(4))
        } else if 0xf1 <= b0 <= 0xf3 {
            s.len() >= 4 && is_utf8_cont(s[1]) && is_utf8_cont(s[2]) && is_utf8_cont(s[3])
                && is_valid_utf8(s.skip(4))
        } else if b0 == 0xf4 {
            s.len() >= 4 && 0x80 <= s[1] <= 0x8f && is_utf8_cont(s[2]) && is_utf8_cont(s[3])
                && is_valid_utf8(s.skip(4))
        } else {
            false
        }
    }
}

/// A sequence of plain ASCII bytes is valid UTF-8.
pub proof fn lemma_ascii_is_valid_utf8(s: Seq<u8>)
    requires
        forall|i: int| 0 <= i < s.len() ==> s[i] < 0x80,
    ensures
        is_valid_utf8(s),
    decreases s.len(),
{
    if s.len() > 0 {
        assert(forall|i: int| 0 <= i < s.skip(1).len() ==> s.skip(1)[i] < 0x80);
        lemma_ascii_is_valid_utf8(s.skip(1));
    }
}

/// Checks whether a token's bytes are valid UTF-8, as decoding them to a
/// string would require.
pub fn utf8_check(tok: &Vec<u8>) -> (r: bool)
    ensures
        r == is_valid_utf8(tok@),
{
    let n = tok.len();
    let mut i: usize = 0;
    proof {
        assert(tok@.skip(0) =~= tok@);
    }
    while i < n
        invariant
            0 <= i <= n,
            n == tok@.len(),
            is_valid_utf8(tok@) == is_valid_utf8(tok@.skip(i as int)),
        decreases n - i,
    {
        let ghost rest = tok@.skip(i as int);
        proof {
            assert(rest.len() == n - i);
            assert(rest[0] == tok@[i as int]);
        }
        let b0 = tok[i];
        if b0 < 0x80 {
            proof {
                assert(rest.skip(1) =~= tok@.skip(i + 1));
            }
            i = i + 1;
        } else if 0xc2 <= b0 && b0 <= 0xdf {
            if n - i < 2 {
                return false;
            }
            let b1 = tok[i + 1];
            proof {
                assert(rest[1] == tok@[i + 1]);
            }
            if !(0x80 <= b1 && b1 <= 0xbf) {
                return false;
            }
            proof {
                assert(rest.skip(2) =~= tok@.skip(i + 2));
            }
            i = i + 2;
        } else if b0 == 0xe0 || (0xe1 <= b0 && b0 <= 0xef) {
            if n - i < 3 {
                return false;
            }
            let b1 = tok[i + 1];
            let b2 = tok[i + 2];
            proof {
                assert(rest[1] == tok@[i + 1]);
                assert(rest[2] == tok@[i + 2]);
            }
            let lo1: u8 = if b0 == 0xe0 {
                0xa0
            } else {
                0x80
            };
            let hi1: u8 = if b0 == 0xed {
                0x9f
            } else {
                0xbf
            };
            if !(lo1 <= b1 && b1 <= hi1) || !(0x80 <= b2 && b2 <= 0xbf) {
                return false;
            }
            proof {
                assert(rest.skip(3) =~= tok@.skip(i + 3));
            }
            i = i + 3;
        } else if 0xf0 <= b0 && b0 <= 0xf4 {
            if n - i < 4 {
                return false;
            }
            let b1 = tok[i + 1];
            let b2 = tok[i + 2];
            let b3 = tok[i + 3];
            proof {
                assert(rest[1] == tok@[i + 1]);
                assert(rest[2] == tok@[i + 2]);
                assert(rest[3] == tok@[i + 3]);
            }
            let lo1: u8 = if b0 == 0xf0 {
                0x90
            } else {
                0x80
            };
            let hi1: u8 = if b0 == 0xf4 {
                0x8f
            } else {
                0xbf
            };
            if !(lo1 <= b1 && b1 <= hi1) || !(0x80 <= b2 && b2 <= 0xbf) || !(0x80 <= b3 && b3
                <= 0xbf) {
                return false;
            }
            proof {
                assert(rest.skip(4) =~= tok@.skip(i + 4));
            }
            i = i + 4;
        } else {
            return false;
        }
    }
    proof {
        assert(tok@.skip(i as int) =~= Seq::<u8>::empty());
    }
    true
}

/// Parses a token as an unsigned base-10 `u32`, the way `str::parse`
/// does: an optional leading `+`, then one or more decimal digits, with
/// a value no greater than `u32::MAX`.
pub fn parse_u32_token(tok: &Vec<u8>) -> (r: Option<u32>)
    ensures
        match r {
            Some(v) => is_u32_token(tok@) && v == token_u32(tok@),
            None => !is_u32_token(tok@),
        },
{
    let n = tok.len();
    let start: usize = if n > 0 && tok[0] == 0x2b {
        1
    } else {
        0
    };
    proof {
        assert(token_digits(tok@) =~= tok@.subrange(start as int, n as int));
    }
    if start >= n {
        return None;
    }
    let ghost d = tok@.subrange(start as int, n as int);
    let mut acc: u32 = 0;
    let mut j: usize = start;
    while j < n
        invariant
            start <= j <= n,
            n == tok@.len(),
            d == tok@.subrange(start as int, n as int),
            d == token_digits(tok@),
            all_dec_digits(tok@.subrange(start as int, j as int)),
            acc == dec_value(tok@.subrange(start as int, j as int)),
        decreases n - j,
    {
        let b = tok[j];
        if !(0x30 <= b && b <= 0x39) {
            proof {
                assert(d[j - start] == tok@[j as int]);
            }
            return None;
        }
        let wide: u64 = (acc as u64) * 10 + ((b - 0x30) as u64);
        proof {
            let pre = tok@.subrange(start as int, j as int);
            let cur = tok@.subrange(start as int, j + 1);
            assert(cur.drop_last() =~= pre);
            assert(cur.last() == tok@[j as int]);
            assert(dec_value(cur) == wide);
        }
        if wide > 0xffff_ffff {
            proof {
                let cur = tok@.subrange(start as int, j + 1);
                if all_dec_digits(d) {
                    assert(cur =~= d.take(j + 1 - start));
                    lemma_dec_value_prefix_le(d, j + 1 - start);
                }
            }
            return None;
        }
        acc = wide as u32;
        j = j + 1;
    }
    proof {
        assert(tok@.subrange(start as int, j as int) == d);
    }
    Some(acc)
}

/// Outcome of parsing one whitespace-delimited decimal header field at
/// position `i`: the parsed value and the cursor after the token, which
/// still points at the token's terminating whitespace byte, or the first
/// error the grammar gives.
pub open spec fn spec_parse_field(s: Seq<u8>, i: int, sep: Separator) -> Result<
    (u32, int),
    PpmError,
> {
    if i >= s.len() {
        Err(PpmError::UnexpectedEOF)
    } else if !is_ws(s[i]) {
        Err(PpmError::IncorrectFormat(sep))
    } else {
        let t0 = skip_ws_from(s, i + 1);
        if t0 >= s.len() {
            Err(PpmError::UnexpectedEOF)
        } else {
            let t1 = token_end_from(s, t0);
            if t1 >= s.len() {
                Err(PpmError::UnexpectedEOF)
            } else {
                let tok = s.subrange(t0, t1);
                if !is_valid_utf8(tok) {
                    Err(PpmError::StringConversion)
                } else if !is_u32_token(tok) {
                    Err(PpmError::Parse)
                } else {
                    Ok((token_u32(tok), t1))
                }
            }
        }
    }
}

/// Parses one header field: a mandatory whitespace byte, an optional run
/// of further whitespace, then a maximal run of non-whitespace bytes
/// read as an unsigned decimal integer.
///
/// On success the returned cursor points at the whitespace byte that
/// terminated the token; it is left unconsumed so that it can serve as
/// the next field's mandatory separator.
pub fn parse_ws_delim_ascii_decimal(bytes: &Vec<u8>, pos: usize, sep: Separator) -> (r: Result<
    (u32, usize),
    PpmError,
>)
    requires
        pos <= bytes@.len(),
    ensures
        match r {
            Ok(p) => {
                &&& spec_parse_field(bytes@, pos as int, sep) == Ok::<(u32, int), PpmError>(
                    (p.0, p.1 as int),
                )
                &&& pos < p.1 < bytes@.len()
                &&& is_ws(bytes@[p.1 as int])
            },
            Err(e) => spec_parse_field(bytes@, pos as int, sep) == Err::<(u32, int), PpmError>(e),
        },
{
    let n = bytes.len();
    if pos >= n {
        return Err(PpmError::UnexpectedEOF);
    }
    if !is_ascii_ws(bytes[pos]) {
        return Err(PpmError::IncorrectFormat(sep));
    }
    let mut i: usize = pos + 1;
    while i < n && is_ascii_ws(bytes[i])
        invariant
            pos + 1 <= i <= n,
            n == bytes@.len(),
            skip_ws_from(bytes@, pos + 1) == skip_ws_from(bytes@, i as int),
        decreases n - i,
    {
        proof {
            assert(skip_ws_from(bytes@, i as int) == skip_ws_from(bytes@, i + 1));
        }
        i = i + 1;
    }
    proof {
        assert(skip_ws_from(bytes@, i as int) == i as int);
    }
    if i >= n {
        return Err(PpmError::UnexpectedEOF);
    }
    let t0 = i;
    while i < n && !is_ascii_ws(bytes[i])
        invariant
            t0 <= i <= n,
            n == bytes@.len(),
            token_end_from(bytes@, t0 as int) == token_end_from(bytes@, i as int),
        decreases n - i,
    {
        proof {
            assert(token_end_from(bytes@, i as int) == token_end_from(bytes@, i + 1));
        }
        i = i + 1;
    }
    proof {
        assert(token_end_from(bytes@, i as int) == i as int);
    }
    if i >= n {
        return Err(PpmError::UnexpectedEOF);
    }
    let t1 = i;
    let mut tok: Vec<u8> = Vec::new();
    let mut k: usize = t0;
    while k < t1
        invariant
            t0 <= k <= t1 < n,
            n == bytes@.len(),
            tok@ == bytes@.subrange(t0 as int, k as int),
        decreases t1 - k,
    {
        tok.push(bytes[k]);
        proof {
            assert(bytes@.subrange(t0 as int, k + 1) =~= bytes@.subrange(t0 as int, k as int).push(
                bytes@[k as int],
            ));
        }
        k = k + 1;
    }
    if !utf8_check(&tok) {
        return Err(PpmError::StringConversion);
    }
    match parse_u32_token(&tok) {
        None => Err(PpmError::Parse),
        Some(v) => Ok((v, t1)),
    }
}

/// Collects the next `n` bytes starting at `pos`, or `None` when fewer
/// than `n` remain.
pub fn next_n(bytes: &Vec<u8>, pos: usize, n: u32) -> (r: Option<Vec<u8>>)
    requires
        pos <= bytes@.len(),
    ensures
        match r {
            Some(v) => pos + n <= bytes@.len() && v@ == bytes@.subrange(pos as int, pos + n),
            None => pos + n > bytes@.len(),
        },
{
    let len = bytes.len();
    let count = n as usize;
    if count > len - pos {
        return None;
    }
    let mut v: Vec<u8> = Vec::new();
    let mut k: usize = 0;
    while k < count
        invariant
            0 <= k <= count,
            pos + count <= bytes@.len(),
            pos + count <= usize::MAX,
            count == n as usize,
            v@ == bytes@.subrange(pos as int, pos + k),
        decreases count - k,
    {
        v.push(bytes[pos + k]);
        proof {
            assert(bytes@.subrange(pos as int, pos + k + 1) =~= bytes@.subrange(
                pos as int,
                pos + k,
            ).push(bytes@[pos + k]));
        }
        k = k + 1;
    }
    Some(v)
}

} // verus!
