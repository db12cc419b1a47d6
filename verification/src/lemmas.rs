use vstd::prelude::*;

use crate::decode::spec_decode;
use crate::error::{PpmError, Separator};
use crate::header::{
    all_dec_digits, dec_value, is_dec_digit, is_ws, lemma_ascii_is_valid_utf8,
    lemma_skip_ws_value, lemma_token_end_value, spec_parse_field, token_digits,
};
use crate::image::ImageView;

verus! {

/// Every byte of `s` is ASCII whitespace.
pub open spec fn all_ws(s: Seq<u8>) -> bool {
    forall|i: int| 0 <= i < s.len() ==> is_ws(s[i])
}

/// A P6 file laid out as the grammar requires: the signature, three
/// whitespace runs each followed by a decimal token, one final
/// whitespace byte, then the raster and whatever trails it.
pub open spec fn ppm_bytes(
    w1: Seq<u8>,
    dw: Seq<u8>,
    w2: Seq<u8>,
    dh: Seq<u8>,
    w3: Seq<u8>,
    dm: Seq<u8>,
    sep: u8,
    rest: Seq<u8>,
) -> Seq<u8> {
    seq![0x50u8, 0x36u8] + w1 + dw + w2 + dh + w3 + dm + seq![sep] + rest
}

/// The shape hypotheses shared by the decode laws: each whitespace run
/// is nonempty and all whitespace, each token is nonempty and all
/// decimal digits, and the final separator is one whitespace byte.
pub open spec fn header_layout(
    w1: Seq<u8>,
    dw: Seq<u8>,
    w2: Seq<u8>,
    dh: Seq<u8>,
    w3: Seq<u8>,
    dm: Seq<u8>,
    sep: u8,
) -> bool {
    &&& w1.len() >= 1 && all_ws(w1)
    &&& dw.len() >= 1 && all_dec_digits(dw)
    &&& w2.len() >= 1 && all_ws(w2)
    &&& dh.len() >= 1 && all_dec_digits(dh)
    &&& w3.len() >= 1 && all_ws(w3)
    &&& dm.len() >= 1 && all_dec_digits(dm)
    &&& is_ws(sep)
}

/// Where each piece of [`ppm_bytes`] lands in the concatenation.
pub proof fn lemma_ppm_bytes_index(
    w1: Seq<u8>,
    dw: Seq<u8>,
    w2: Seq<u8>,
    dh: Seq<u8>,
    w3: Seq<u8>,
    dm: Seq<u8>,
    sep: u8,
    rest: Seq<u8>,
)
    ensures
        ({
            let s = ppm_bytes(w1, dw, w2, dh, w3, dm, sep, rest);
            let p1 = 2 + w1.len() as int;
            let q1 = p1 + dw.len() as int;
            let p2 = q1 + w2.len() as int;
            let q2 = p2 + dh.len() as int;
            let p3 = q2 + w3.len() as int;
            let q3 = p3 + dm.len() as int;
            &&& s.len() == q3 + 1 + rest.len()
            &&& s[0] == 0x50u8
            &&& s[1] == 0x36u8
            &&& forall|t: int| 2 <= t < p1 ==> s[t] == w1[t - 2]
            &&& forall|t: int| p1 <= t < q1 ==> s[t] == dw[t - p1]
            &&& forall|t: int| q1 <= t < p2 ==> s[t] == w2[t - q1]
            &&& forall|t: int| p2 <= t < q2 ==> s[t] == dh[t - p2]
            &&& forall|t: int| q2 <= t < p3 ==> s[t] == w3[t - q2]
            &&& forall|t: int| p3 <= t < q3 ==> s[t] == dm[t - p3]
            &&& s[q3] == sep
            &&& forall|t: int| q3 + 1 <= t < s.len() ==> s[t] == rest[t - (q3 + 1)]
        }),
{
}

/// A field parse on a known layout: whitespace everywhere on `[i, j0)`,
/// a digit token on `[j0, j1)`, whitespace at `j1`. The parse returns
/// the token's value and leaves the cursor at `j1`.
pub proof fn lemma_parse_field_digits(s: Seq<u8>, i: int, j0: int, j1: int, sep: Separator)
    requires
        0 <= i < j0 < j1 < s.len(),
        forall|t: int| i <= t < j0 ==> is_ws(s[t]),
        forall|t: int| j0 <= t < j1 ==> is_dec_digit(s[t]),
        is_ws(s[j1]),
        dec_value(s.subrange(j0, j1)) <= u32::MAX,
    ensures
        spec_parse_field(s, i, sep) == Ok::<(u32, int), PpmError>(
            (dec_value(s.subrange(j0, j1)) as u32, j1),
        ),
{
    let tok = s.subrange(j0, j1);
    assert(forall|t: int| j0 <= t < j1 ==> !is_ws(s[t]));
    lemma_skip_ws_value(s, i + 1, j0);
    lemma_token_end_value(s, j0, j1);
    assert(forall|t: int| 0 <= t < tok.len() ==> tok[t] == s[j0 + t]);
    assert(forall|t: int| 0 <= t < tok.len() ==> is_dec_digit(tok[t]));
    assert(forall|t: int| 0 <= t < tok.len() ==> tok[t] < 0x80);
    lemma_ascii_is_valid_utf8(tok);
    assert(token_digits(tok) == tok);
}

/// A field parse that runs out of input: the separator run starts at
/// `i`, the token would start at `j0`, and the input ends before any
/// whitespace terminates the token.
pub proof fn lemma_parse_field_eof(s: Seq<u8>, i: int, j0: int, sep: Separator)
    requires
        0 <= i <= s.len(),
        i < j0,
        forall|t: int| i <= t < j0 && t < s.len() ==> is_ws(s[t]),
        forall|t: int| j0 <= t < s.len() ==> !is_ws(s[t]),
    ensures
        spec_parse_field(s, i, sep) == Err::<(u32, int), PpmError>(PpmError::UnexpectedEOF),
{
    if i < s.len() {
        if s.len() <= j0 {
            lemma_skip_ws_value(s, i + 1, s.len() as int);
        } else {
            lemma_skip_ws_value(s, i + 1, j0);
            lemma_token_end_value(s, j0, s.len() as int);
        }
    }
}

/// Decoding a well-formed input succeeds and returns exactly the
/// encoded fields: any amount of whitespace may separate the signature
/// and the tokens, exactly one whitespace byte follows the maximum
/// value, and exactly the expected number of raster bytes is taken;
/// bytes trailing the raster are ignored.
pub proof fn lemma_decode_valid_input(
    w1: Seq<u8>,
    dw: Seq<u8>,
    w2: Seq<u8>,
    dh: Seq<u8>,
    w3: Seq<u8>,
    dm: Seq<u8>,
    sep: u8,
    rest: Seq<u8>,
    width: u32,
    height: u32,
    maxval: u32,
)
    requires
        header_layout(w1, dw, w2, dh, w3, dm, sep),
        dec_value(dw) == width as nat,
        dec_value(dh) == height as nat,
        dec_value(dm) == maxval as nat,
        1 <= maxval <= 65535,
        rest.len() >= width * height * 3 * (if maxval < 256 {
            1int
        } else {
            2int
        }),
    ensures
        ({
            let need = width * height * 3 * (if maxval < 256 {
                1int
            } else {
                2int
            });
            &&& spec_decode(ppm_bytes(w1, dw, w2, dh, w3, dm, sep, rest)) == Ok::<
                ImageView,
                PpmError,
            >(ImageView { width, height, max_value: maxval as u16, raster: rest.take(need) })
            &&& (ImageView {
                width,
                height,
                max_value: maxval as u16,
                raster: rest.take(need),
            }).wf()
        }),
{
    let s = ppm_bytes(w1, dw, w2, dh, w3, dm, sep, rest);
    lemma_ppm_bytes_index(w1, dw, w2, dh, w3, dm, sep, rest);
    let p1 = 2 + w1.len() as int;
    let q1 = p1 + dw.len() as int;
    let p2 = q1 + w2.len() as int;
    let q2 = p2 + dh.len() as int;
    let p3 = q2 + w3.len() as int;
    let q3 = p3 + dm.len() as int;
    let need = width * height * 3 * (if maxval < 256 {
        1int
    } else {
        2int
    });
    assert(s.subrange(p1, q1) =~= dw);
    assert(s.subrange(p2, q2) =~= dh);
    assert(s.subrange(p3, q3) =~= dm);
    lemma_parse_field_digits(s, 2, p1, q1, Separator::AfterSignature);
    lemma_parse_field_digits(s, q1, p2, q2, Separator::AfterWidth);
    lemma_parse_field_digits(s, q2, p3, q3, Separator::AfterHeight);
    assert(s.subrange(q3 + 1, q3 + 1 + need) =~= rest.take(need));
}

/// Truncating a well-formed input anywhere strictly before the end of
/// its raster always yields `UnexpectedEOF`: the decoder never returns
/// a silently short image.
pub proof fn lemma_truncated_input_eof(
    w1: Seq<u8>,
    dw: Seq<u8>,
    w2: Seq<u8>,
    dh: Seq<u8>,
    w3: Seq<u8>,
    dm: Seq<u8>,
    sep: u8,
    rest: Seq<u8>,
    width: u32,
    height: u32,
    maxval: u32,
    j: int,
)
    requires
        header_layout(w1, dw, w2, dh, w3, dm, sep),
        dec_value(dw) == width as nat,
        dec_value(dh) == height as nat,
        dec_value(dm) == maxval as nat,
        1 <= maxval <= 65535,
        rest.len() >= width * height * 3 * (if maxval < 256 {
            1int
        } else {
            2int
        }),
        0 <= j < 2 + w1.len() + dw.len() + w2.len() + dh.len() + w3.len() + dm.len() + 1 + width
            * height * 3 * (if maxval < 256 {
            1int
        } else {
            2int
        }),
    ensures
        spec_decode(ppm_bytes(w1, dw, w2, dh, w3, dm, sep, rest).take(j)) == Err::<
            ImageView,
            PpmError,
        >(PpmError::UnexpectedEOF),
{
    let s = ppm_bytes(w1, dw, w2, dh, w3, dm, sep, rest);
    lemma_ppm_bytes_index(w1, dw, w2, dh, w3, dm, sep, rest);
    let p = s.take(j);
    let p1 = 2 + w1.len() as int;
    let q1 = p1 + dw.len() as int;
    let p2 = q1 + w2.len() as int;
    let q2 = p2 + dh.len() as int;
    let p3 = q2 + w3.len() as int;
    let q3 = p3 + dm.len() as int;
    let need = width * height * 3 * (if maxval < 256 {
        1int
    } else {
        2int
    });
    if j < 2 {
    } else if j <= q1 {
        lemma_parse_field_eof(p, 2, p1, Separator::AfterSignature);
    } else {
        assert(p.subrange(p1, q1) =~= dw);
        lemma_parse_field_digits(p, 2, p1, q1, Separator::AfterSignature);
        if j <= q2 {
            lemma_parse_field_eof(p, q1, p2, Separator::AfterWidth);
        } else {
            assert(p.subrange(p2, q2) =~= dh);
            lemma_parse_field_digits(p, q1, p2, q2, Separator::AfterWidth);
            if j <= q3 {
                lemma_parse_field_eof(p, q2, p3, Separator::AfterHeight);
            } else {
                assert(p.subrange(p3, q3) =~= dm);
                lemma_parse_field_digits(p, q2, p3, q3, Separator::AfterHeight);
                assert(p.len() - (q3 + 1) < need);
            }
        }
    }
}

/// Inserting extra whitespace between a mandatory separator and a
/// header token never changes the decoded result: two inputs that
/// differ only in their whitespace runs decode to the same image.
pub proof fn lemma_extra_whitespace_irrelevant(
    w1: Seq<u8>,
    v1: Seq<u8>,
    dw: Seq<u8>,
    w2: Seq<u8>,
    v2: Seq<u8>,
    dh: Seq<u8>,
    w3: Seq<u8>,
    v3: Seq<u8>,
    dm: Seq<u8>,
    sep: u8,
    rest: Seq<u8>,
    width: u32,
    height: u32,
    maxval: u32,
)
    requires
        header_layout(w1, dw, w2, dh, w3, dm, sep),
        header_layout(v1, dw, v2, dh, v3, dm, sep),
        dec_value(dw) == width as nat,
        dec_value(dh) == height as nat,
        dec_value(dm) == maxval as nat,
        1 <= maxval <= 65535,
        rest.len() >= width * height * 3 * (if maxval < 256 {
            1int
        } else {
            2int
        }),
    ensures
        spec_decode(ppm_bytes(w1, dw, w2, dh, w3, dm, sep, rest)) == spec_decode(
            ppm_bytes(v1, dw, v2, dh, v3, dm, sep, rest),
        ),
{
    lemma_decode_valid_input(w1, dw, w2, dh, w3, dm, sep, rest, width, height, maxval);
    lemma_decode_valid_input(v1, dw, v2, dh, v3, dm, sep, rest, width, height, maxval);
}

/// Whenever the first two bytes are not the `P6` marker, the decode
/// fails with `IncorrectSignature`, whatever the remainder holds.
pub proof fn lemma_incorrect_signature(s: Seq<u8>)
    requires
        s.len() >= 2,
        s[0] != 0x50 || s[1] != 0x36,
    ensures
        spec_decode(s) == Err::<ImageView, PpmError>(PpmError::IncorrectSignature),
{
}

/// A maximum value of zero, or above 65535, fails with `IllegalValue`
/// carrying the offending value, however much raster data follows.
pub proof fn lemma_illegal_max_value(
    w1: Seq<u8>,
    dw: Seq<u8>,
    w2: Seq<u8>,
    dh: Seq<u8>,
    w3: Seq<u8>,
    dm: Seq<u8>,
    sep: u8,
    rest: Seq<u8>,
    width: u32,
    height: u32,
    maxval: u32,
)
    requires
        header_layout(w1, dw, w2, dh, w3, dm, sep),
        dec_value(dw) == width as nat,
        dec_value(dh) == height as nat,
        dec_value(dm) == maxval as nat,
        maxval == 0 || maxval > 65535,
    ensures
        spec_decode(ppm_bytes(w1, dw, w2, dh, w3, dm, sep, rest)) == Err::<ImageView, PpmError>(
            PpmError::IllegalValue { value: maxval, min: 1, max: 65535 },
        ),
{
    let s = ppm_bytes(w1, dw, w2, dh, w3, dm, sep, rest);
    lemma_ppm_bytes_index(w1, dw, w2, dh, w3, dm, sep, rest);
    let p1 = 2 + w1.len() as int;
    let q1 = p1 + dw.len() as int;
    let p2 = q1 + w2.len() as int;
    let q2 = p2 + dh.len() as int;
    let p3 = q2 + w3.len() as int;
    let q3 = p3 + dm.len() as int;
    assert(s.subrange(p1, q1) =~= dw);
    assert(s.subrange(p2, q2) =~= dh);
    assert(s.subrange(p3, q3) =~= dm);
    lemma_parse_field_digits(s, 2, p1, q1, Separator::AfterSignature);
    lemma_parse_field_digits(s, q1, p2, q2, Separator::AfterWidth);
    lemma_parse_field_digits(s, q2, p3, q3, Separator::AfterHeight);
}

/// Removing the mandatory whitespace after the signature, so that a
/// non-whitespace byte follows `P6` directly, fails with
/// `IncorrectFormat` naming that separator.
pub proof fn lemma_missing_separator_after_signature(s: Seq<u8>)
    requires
        s.len() > 2,
        s[0] == 0x50,
        s[1] == 0x36,
        !is_ws(s[2]),
    ensures
        spec_decode(s) == Err::<ImageView, PpmError>(
            PpmError::IncorrectFormat(Separator::AfterSignature),
        ),
{
}

/// Decoding is pure: the result is a function of the input bytes alone,
/// so two decodes of equal byte sequences agree exactly.
pub proof fn lemma_decode_pure(
    bytes: Seq<u8>,
    r1: Result<ImageView, PpmError>,
    r2: Result<ImageView, PpmError>,
)
    requires
        r1 == spec_decode(bytes),
        r2 == spec_decode(bytes),
    ensures
        r1 == r2,
{
}

} // verus!
