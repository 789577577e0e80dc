//! The one error of this crate: a character that is not a symbol.

use vstd::prelude::*;

verus! {

/// A character outside the alphabet, and where it stood in the input.
#[derive(Debug, Clone, Copy, PartialEq, Eq, Structural)]
pub struct CrockfordDecodeError {
    /// The offending character.
    pub character: char,
    /// Its index, counted from the start of the input.
    pub slice_position: usize,
}

} // verus!
