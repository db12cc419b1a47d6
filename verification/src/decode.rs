use vstd::prelude::*;

use crate::error::{PpmError, Separator};
use crate::header::{
    is_ascii_ws, is_ws, next_n, parse_ws_delim_ascii_decimal, spec_parse_field,
};
use crate::image::{ImageView, PpmImage};

verus! {

/// What follows the header: the maximum-value range check, the single
/// mandatory whitespace byte before the raster, and the raster itself.
/// `i3` is the cursor returned by the third field parse; it points at
/// the whitespace byte that terminated the max-value token.
pub open spec fn spec_finish(s: Seq<u8>, width: u32, height: u32, maxval: u32, i3: int) -> Result<
    ImageView,
    PpmError,
> {
    if maxval < 1 || maxval > 65535 {
        Err(PpmError::IllegalValue { value: maxval, min: 1, max: 65535 })
    } else if i3 >= s.len() {
        Err(PpmError::UnexpectedEOF)
    } else if !is_ws(s[i3]) {
        Err(PpmError::IncorrectFormat(Separator::AfterMaxValue))
    } else {
        let start = i3 + 1;
        let need = width * height * 3 * (if maxval < 256 {
            1int
        } else {
            2int
        });
        if s.len() - start < need {
            Err(PpmError::UnexpectedEOF)
        } else {
            Ok(
                ImageView {
                    width,
                    height,
                    max_value: maxval as u16,
                    raster: s.subrange(start, start + need),
                },
            )
        }
    }
}

/// The whole decode as a function of the input bytes: the `P6`
/// signature, three whitespace-delimited decimal fields, the range
/// check on the maximum value, one mandatory whitespace byte, then
/// exactly the expected number of raster bytes. Trailing bytes beyond
/// the raster are ignored.
pub open spec fn spec_decode(s: Seq<u8>) -> Result<ImageView, PpmError> {
    if s.len() < 2 {
        Err(PpmError::UnexpectedEOF)
    } else if s[0] != 0x50 || s[1] != 0x36 {
        Err(PpmError::IncorrectSignature)
    } else {
        match spec_parse_field(s, 2, Separator::AfterSignature) {
            Err(e) => Err(e),
            Ok((width, i1)) => match spec_parse_field(s, i1, Separator::AfterWidth) {
                Err(e) => Err(e),
                Ok((height, i2)) => match spec_parse_field(s, i2, Separator::AfterHeight) {
                    Err(e) => Err(e),
                    Ok((maxval, i3)) => spec_finish(s, width, height, maxval, i3),
                },
            },
        }
    }
}

/// Decodes a P6 image from an in-memory byte sequence.
///
/// This is the sole entry point of the decoder: it performs no I/O and
/// its result is exactly [`spec_decode`] of the input bytes.
pub fn decode(bytes: &Vec<u8>) -> (r: Result<PpmImage, PpmError>)
    ensures
        match r {
            Ok(img) => spec_decode(bytes@) == Ok::<ImageView, PpmError>(img@) && img@.wf(),
            Err(e) => spec_decode(bytes@) == Err::<ImageView, PpmError>(e),
        },
{
    let signature = match next_n(bytes, 0, 2) {
        None => {
            return Err(PpmError::UnexpectedEOF);
        },
        Some(v) => v,
    };
    if !(signature[0] == 0x50 && signature[1] == 0x36) {
        return Err(PpmError::IncorrectSignature);
    }
    let (width, i1) = match parse_ws_delim_ascii_decimal(bytes, 2, Separator::AfterSignature) {
        Err(e) => {
            return Err(e);
        },
        Ok(p) => p,
    };
    let (height, i2) = match parse_ws_delim_ascii_decimal(bytes, i1, Separator::AfterWidth) {
        Err(e) => {
            return Err(e);
        },
        Ok(p) => p,
    };
    let (maxval, i3) = match parse_ws_delim_ascii_decimal(bytes, i2, Separator::AfterHeight) {
        Err(e) => {
            return Err(e);
        },
        Ok(p) => p,
    };
    if maxval < 1 || maxval > 65535 {
        return Err(PpmError::IllegalValue { value: maxval, min: 1, max: 65535 });
    }
    if i3 >= bytes.len() {
        return Err(PpmError::UnexpectedEOF);
    }
    if !is_ascii_ws(bytes[i3]) {
        return Err(PpmError::IncorrectFormat(Separator::AfterMaxValue));
    }
    let start = i3 + 1;
    let sample_width: u32 = if maxval < 256 {
        1
    } else {
        2
    };
    proof {
        assert((width as int) * (height as int) <= 0xffff_ffff * 0xffff_ffff)
            by (nonlinear_arith)
            requires
                width <= 0xffff_ffffu32,
                height <= 0xffff_ffffu32,
        ;
    }
    let need: u128 = (width as u128) * (height as u128) * 3 * (sample_width as u128);
    let avail: u128 = (bytes.len() - start) as u128;
    if avail < need {
        return Err(PpmError::UnexpectedEOF);
    }
    let need_len: usize = need as usize;
    let mut raster: Vec<u8> = Vec::new();
    let mut k: usize = 0;
    while k < need_len
        invariant
            0 <= k <= need_len,
            start + need_len <= bytes@.len(),
            start + need_len <= usize::MAX,
            raster@ == bytes@.subrange(start as int, start + k),
        decreases need_len - k,
    {
        raster.push(bytes[start + k]);
        proof {
            assert(bytes@.subrange(start as int, start + k + 1) =~= bytes@.subrange(
                start as int,
                start + k,
            ).push(bytes@[start + k]));
        }
        k = k + 1;
    }
    let img = PpmImage::new(width, height, maxval as u16, raster);
    proof {
        assert(spec_decode(bytes@) == Ok::<ImageView, PpmError>(img@));
    }
    Ok(img)
}

} // verus!
