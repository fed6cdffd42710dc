//! Consolidation of per-run sequencing demultiplexing statistics: cross-lane
//! read-count aggregation, Hamming-distance matching of undetermined barcodes
//! against the known samples, descending-count ranking, and bounded-size
//! report rows. Every function is verified against the contracts stated here;
//! reading the input document and writing the rows out belong to the
//! surrounding application.

use vstd::prelude::*;

pub mod aggregate;
pub mod cli;
pub mod distance;
pub mod matcher;
pub mod models;
pub mod report;
pub mod utils;

verus! {

/// Errors surfaced by the report pipeline.
#[derive(Debug, Clone, PartialEq, Eq)]
pub enum StatsError {
    /// Two sequences of unequal length were handed to the distance function.
    LengthMismatch,
    /// A sample id present in the count aggregate has no recorded barcode.
    MissingBarcodeForSample(String),
}

} // verus!
