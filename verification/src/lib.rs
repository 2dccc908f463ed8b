//! Convert pairwise alignment records (PAF) into genome-browser chain blocks.
//!
//! The library interprets one alignment record's edit script (CIGAR) as a
//! trimmed, gap-annotated chain, and interns sequence names into a catalog
//! that places every sequence on one shared linear axis.

use vstd::prelude::*;

pub mod numbers;
pub mod catalog;
pub mod chain;
pub mod cigar;
pub mod paf;

verus! {

/// How the conversion of one record, or of a whole stream, can fail.
/// Every failure is fatal for the run: there is no per-record recovery.
#[derive(Clone, Copy, PartialEq, Eq, Structural, Debug)]
pub enum PafError {
    /// A line has fewer than nine tab-separated fields, a non-integer in a
    /// numeric field, an unrecognized strand symbol, or an alignment
    /// interval whose end precedes its begin.
    MalformedRecord,
    /// An edit script holds an operation with no run length, or a run
    /// length that does not fit in a machine word.
    MalformedScript,
    /// A computed length or coordinate falls outside the machine-word
    /// range.
    OutOfRange,
}

} // verus!
