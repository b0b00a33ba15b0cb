//! Huffman coding over weighted sliding-window symbol frequencies.
//!
//! The library counts overlapping subsequences of a text up to a bounded
//! length, builds a deterministic prefix code over the resulting alphabet,
//! and encodes the text with either an exact minimum-length segmentation
//! or a greedy heuristic.  A bitstream can be decoded back to text with
//! the code tree.

use vstd::prelude::*;

pub mod codec;
pub mod freq;
pub mod huffman;
pub mod segment;
pub mod table;
pub mod tree;

verus! {

/// Failures that the coding operations surface to the caller.
#[derive(Clone, Copy, Debug, PartialEq, Eq, Structural)]
pub enum CodeError {
    /// The optimal segmentation cannot cover the whole text with the
    /// codewords available in the table.
    SegmentationFailure,
    /// A bit sequence has no corresponding path in the code tree.
    DecodeFailure,
    /// Encoding was requested for a unit that has no codeword.
    MissingSymbol,
}

} // verus!
