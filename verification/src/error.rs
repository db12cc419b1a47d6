use vstd::prelude::*;

verus! {

/// Position of a mandatory whitespace separator in the header grammar.
///
/// Each header token must be preceded by at least one ASCII whitespace
/// byte; when that byte is missing, the decoder reports which separator
/// was expected.
#[derive(Clone, Copy, Debug, PartialEq, Eq, Structural)]
pub enum Separator {
    AfterSignature,
    AfterWidth,
    AfterHeight,
    AfterMaxValue,
}

/// Everything that can go wrong while decoding a P6 image.
///
/// The first failure aborts the whole decode; no partial image is ever
/// returned alongside an error.
#[derive(Clone, Copy, Debug, PartialEq, Eq, Structural)]
pub enum PpmError {
    /// The first two bytes are not the `P6` magic marker.
    IncorrectSignature,
    /// A required whitespace separator is missing at the named position.
    IncorrectFormat(Separator),
    /// The maximum sample value lies outside the accepted range.
    IllegalValue { value: u32, min: u32, max: u32 },
    /// The byte-source collaborator failed while materializing the input;
    /// never produced by the decoder itself, which works on bytes already
    /// in memory.
    Io,
    /// A header token's bytes are not valid UTF-8.
    StringConversion,
    /// A header token's text is not a valid unsigned decimal integer.
    Parse,
    /// The input ended before a required token or byte could be read.
    UnexpectedEOF,
}

} // verus!
