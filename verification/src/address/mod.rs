use vstd::prelude::*;

pub mod c32;
pub mod c32_lemmas;
pub mod c32_spec;
pub mod hash;
pub mod stream_lemmas;

verus! {

/// Errors of c32 encoding and decoding.
#[derive(Debug, PartialEq, Eq, Structural, Clone, Copy)]
pub enum Error {
    /// The text is not well-formed c32, or too short for its format.
    InvalidCrockford32,
    /// A version byte that does not fit in one c32 digit.
    InvalidVersion(u8),
    /// The checksum computed over the payload (first) differs from the one
    /// carried by the text (second), each read as a little-endian `u32`.
    BadChecksum(u32, u32),
}

} // verus!
