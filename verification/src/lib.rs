//! A decoder for the binary PPM (`P6`) image format.
//!
//! The decoder consumes a byte sequence with a single forward-only
//! cursor: first the textual header (magic signature and three
//! whitespace-delimited decimal fields), then a raster whose per-channel
//! byte width depends on the header's maximum sample value.

pub mod decode;
pub mod error;
pub mod header;
pub mod image;
pub mod lemmas;
