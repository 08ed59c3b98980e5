//! Errors reported by the engine core.

use vstd::prelude::*;

verus! {

/// Errors that can occur in the engine core.
#[derive(Debug)]
pub enum EngineError {
    /// Layer byte length exceeds maximum allowed layer bytes.
    InvalidLayerSize { expected: usize, actual: usize },
    /// A memory footprint exceeds its budget: `expected` is the budget,
    /// `actual` the footprint.
    InvalidSize { expected: usize, actual: usize },
    /// A request or configuration violates a validity rule; the text says which.
    Validation(String),
    /// The input text holds a non-ASCII byte at this byte offset.
    NonAsciiInput(usize),
    /// A token id outside the vocabulary.
    UnknownToken(u32),
    /// Decoded token bytes are not valid UTF-8.
    InvalidUtf8,
}

} // verus!
