//! Decode failures.
use vstd::prelude::*;

verus! {

/// Why a decode failed.
#[derive(Debug, Clone, Copy, PartialEq, Eq, Structural)]
pub enum Error {
    /// A sum-type discriminant matched no declared alternative; holds the byte read.
    DecodingEnumVariant(u8),
    /// A boolean byte was neither 0x00 nor 0x01.
    InvalidBool,
    /// An optional-value tag was neither 0x00 nor 0x01.
    InvalidOptionFlag,
    /// A read asked for more bytes than remain in the buffer.
    Truncated,
}

} // verus!
