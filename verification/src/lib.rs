//! A dictionary-substitution lossless codec for byte streams.
//!
//! The compressor discovers repeated byte sequences and replaces every
//! occurrence with a single reserved control byte (a token).  A
//! self-describing header binds each token to the sequence it stands for;
//! the decompressor parses the header and expands the body back to the
//! original bytes.

use vstd::prelude::*;

pub mod compress;
pub mod decompress;
pub mod laws;
pub mod lemmas;
pub mod model;
pub mod order;

verus! {

/// Why a compression attempt was rejected.
#[derive(Clone, Copy, Debug, PartialEq, Eq, Structural)]
pub enum CompressError {
    /// No repeated sequence yields a positive net byte reduction.
    NoBeneficialPattern,
    /// Every value in the reserved token range already occurs in the input.
    TokenPoolExhausted,
    /// The encoded form would not be strictly smaller than the input.
    NoSizeReduction,
}

/// Why a compressed buffer was rejected.
#[derive(Clone, Copy, Debug, PartialEq, Eq, Structural)]
pub enum DecompressError {
    /// The header terminator byte never appears.
    MalformedHeader,
    /// A reserved-range byte appears in the body with no header binding.
    UnboundToken,
}

} // verus!
