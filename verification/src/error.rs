//! The ways in which a transposition cipher refuses its input.

use vstd::prelude::*;

verus! {

/// Why a transposition cipher could not be built or applied.
#[derive(Debug, Clone, Copy, PartialEq, Eq, Structural)]
pub enum Error {
    /// The key is zero.
    InvalidKey,
    /// The key is not smaller than the number of characters in the text.
    KeyTooLarge,
}

} // verus!
