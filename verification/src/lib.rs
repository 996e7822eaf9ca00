//! Byte-pair-encoding (BPE) subword tokenizer core.
//!
//! The crate learns a vocabulary of variable-length byte sequences from a
//! training corpus and then maps arbitrary byte sequences to sequences of
//! integer token ids and back.  A small independent utility compresses flat
//! byte buffers by assigning unused byte values to frequent adjacent pairs.

use vstd::prelude::*;

pub mod bpe;
pub mod codec;
pub mod merge;
pub mod pack;
pub mod vocab;

pub use bpe::BpeCore;
pub use codec::decode;
pub use codec::pair_encode;
pub use codec::pair_split;
pub use pack::compress;
pub use pack::decompress;
pub use vocab::Vocab;

verus! {

/// The ways an operation of this crate can fail.
#[derive(Clone, Copy, Debug, PartialEq, Eq, Structural)]
pub enum BpeError {
    /// The requested vocabulary size is below the 256 singleton tokens.
    InvalidVocabSize,
    /// The pre-tokenizer pattern does not compile.
    InvalidPattern,
    /// A token id with no vocabulary entry was handed to `decode`.
    InvalidToken,
}

} // verus!
