//! What the parser reports when the brackets of a source do not fit.

use vstd::prelude::*;

verus! {

/// A structural error in a source. Every error names the byte offset at
/// which it was found.
#[derive(Debug, Clone, Copy, PartialEq, Eq)]
pub enum ParserError {
    /// An opening bracket at `position` would nest deeper than `max_depth`
    /// frames allow.
    LoopStackOverflow { position: usize, max_depth: usize },
    /// A closing bracket at `position` with no loop open.
    BadlyClosedLoop { position: usize },
    /// The source ended while the loop opened at `position` was still open.
    UnclosedLoop { position: usize },
}

impl ParserError {
    /// The byte offset that the error points at.
    pub open spec fn position(self) -> usize {
        match self {
            ParserError::LoopStackOverflow { position, .. } => position,
            ParserError::BadlyClosedLoop { position } => position,
            ParserError::UnclosedLoop { position } => position,
        }
    }
}

} // verus!
