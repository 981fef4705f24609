//! The unit whose occurrences are counted.
use vstd::prelude::*;

verus! {

/// The unit of frequency of occurrence.
#[derive(Debug, Clone, Copy, PartialEq, Eq, Structural)]
pub enum CountUnit {
    /// one entry per Unicode scalar value
    Char,
    /// one entry per run of non-whitespace characters
    Word,
    /// one entry per line, without its terminator
    Line,
}

} // verus!
