//! A static Huffman codec: frequency analysis, deterministic bottom-up tree
//! construction with a fixed tie-break policy, prefix-free code assignment,
//! and a bit-exact encode/decode round trip.

use vstd::prelude::*;

pub mod bst;
pub mod codec;
pub mod compress;
pub mod props;
pub mod tree;

verus! {

/// The errors the codec can report.
///
/// `EmptyInput`: there are no symbols to build a frequency table or tree from.
/// `UnknownSymbol`: encoding was requested for a symbol absent from the code table.
/// `CorruptStream`: decoding ran out of bits mid-traversal, or the bit stream
/// does not match the requested symbol count, or the supplied tree is malformed.
#[derive(Clone, Copy, PartialEq, Eq, Debug)]
pub enum CodecError {
    EmptyInput,
    UnknownSymbol,
    CorruptStream,
}

} // verus!
