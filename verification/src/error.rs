//! Why a construction request can be turned down.

use vstd::prelude::*;

verus! {

/// The reasons for which a suffix array is not built.
#[derive(Clone, Copy, Debug, PartialEq, Eq, Structural)]
pub enum ConstructionError {
    /// The output buffer is shorter than the text.
    InsufficientOutputSpace,
    /// The alphabet size is not positive, or a symbol lies outside `[0, alphabet_size)`.
    InvalidAlphabetSize,
    /// The text is longer than the index type of the output can count.
    LengthOverflow,
    /// The induced-sorting machinery broke one of its own invariants. The
    /// machinery is proved to keep them, and no construction returns this.
    InternalConstructionFailure,
}

} // verus!
