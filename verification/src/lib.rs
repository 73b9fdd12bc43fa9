//! Positional UMI aggregation and edit-distance statistics.
//!
//! The library collects UMI barcodes keyed by the reference position of the
//! read they came from, optionally subsamples each group with a fixed seed,
//! computes all pairwise Hamming distances within a group, reduces them to
//! one of three per-position statistics (raw barcodes, mean distance, or a
//! 13-bucket distance histogram), and assembles the per-position columns
//! into one aligned report. Reading alignment records and writing the
//! report file are left to the caller.

use vstd::prelude::*;

pub mod distance;
pub mod pickers;
pub mod records;
pub mod report;
pub mod sample;
pub mod store;

verus! {

/// The unrecoverable faults of a run: a read name without the barcode
/// separator, a mapped read without alignment geometry, and a distance
/// computation over barcodes of unequal length.
#[derive(Clone, Copy, Debug, PartialEq, Eq, Structural)]
pub enum UmiError {
    MalformedIdentifier,
    MissingCigar,
    LengthMismatch,
}

} // verus!
