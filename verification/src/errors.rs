//! The error surface: every failure is a tagged value that the caller can
//! tell apart. No partial results accompany an error.
use vstd::prelude::*;

verus! {

#[derive(PartialEq, Eq, Structural, Clone, Copy, Debug)]
pub enum TokenizeError {
    /// The tokenizer name matches none of the recognized set.
    UnknownTokenizer,
    /// The vocabulary artifact for a recognized name could not be loaded.
    /// The artifacts ship embedded and well-formed, so the tokenizing
    /// functions promise never to return this.
    Load,
    /// A final symbol of the merge is absent from the vocabulary: the
    /// vocabulary and merge rules are mismatched or corrupt.
    Encoding,
    /// An id handed to the decoder is absent from the vocabulary.
    DecodeUnknownId,
    /// Decoded bytes do not form well-formed text.
    DecodeInvalidUtf8,
}

} // verus!
