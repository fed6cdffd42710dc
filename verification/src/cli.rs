//! Configuration consumed by the report pipeline. Parsing command-line
//! arguments into this shape is the concern of the surrounding application.

use vstd::prelude::*;

verus! {

#[derive(Debug, Clone)]
pub struct Command {
    /// Path to the statistics document to read.
    pub json_file: String,
    /// Mismatch tolerance when matching undetermined barcodes to known ones.
    pub max_distance: u8,
}

} // verus!
