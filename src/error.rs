//! The ways a run can fail.
use vstd::prelude::*;

verus! {

/// Why filtering an alignment failed. Every failure is fatal for the run.
#[derive(Clone, Copy, Debug, PartialEq, Eq, Structural)]
pub enum FilterError {
    /// The input held no record, so no alignment length exists.
    EmptyInput,
    /// A record has `found` columns where `expected` were set by the first record.
    LengthMismatch { expected: usize, found: usize },
    /// The input could not be read as FASTA.
    MalformedRecord,
    /// The core threshold is not a number between 0 and 1.
    InvalidThreshold,
    /// The alignment has more columns than a column mask can hold.
    TooManyColumns { found: usize },
    /// The input file does not exist.
    MissingFile,
}

} // verus!
