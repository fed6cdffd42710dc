//! In-memory record model for a demultiplexing statistics document.
//!
//! These are plain data shapes: decoding them from a source document is the
//! concern of the surrounding application, which hands the core exactly these
//! values.

use vstd::prelude::*;

verus! {

#[allow(non_snake_case)]
#[derive(Debug, Clone)]
pub struct ReadInfo {
    pub Number: u8,
    pub NumCycles: u32,
    pub IsIndexedRead: bool,
}

#[allow(non_snake_case)]
#[derive(Debug, Clone)]
pub struct ReadInfosForLane {
    pub LaneNumber: u8,
    pub ReadInfos: Vec<ReadInfo>,
}

/// Index metric for one demultiplexed sample; the core reads only the
/// barcode sequence itself.
#[allow(non_snake_case)]
#[derive(Debug, Clone)]
pub struct IndexMetric {
    pub IndexSequence: String,
}

#[allow(non_snake_case)]
#[derive(Debug, Clone)]
pub struct ReadMetric {
    pub ReadNumber: u8,
    pub Yield: u64,
    pub YieldQ30: u64,
    pub QualityScoreSum: u64,
    pub TrimmedBases: u32,
}

#[allow(non_snake_case)]
#[derive(Debug, Clone)]
pub struct DemuxResult {
    pub SampleId: String,
    pub SampleName: String,
    pub IndexMetrics: Vec<IndexMetric>,
    pub NumberReads: u64,
    pub Yield: u64,
    pub ReadMetrics: Vec<ReadMetric>,
}

#[allow(non_snake_case)]
#[derive(Debug, Clone)]
pub struct ConversionResult {
    pub LaneNumber: u8,
    pub TotalClustersRaw: u64,
    pub TotalClustersPF: u64,
    pub Yield: u64,
    pub DemuxResults: Vec<DemuxResult>,
}

/// Per-lane mapping from an undetermined barcode string to its read count,
/// kept as an association list with a deterministic order.
#[allow(non_snake_case)]
#[derive(Debug, Clone)]
pub struct UnknownBarcode {
    pub Lane: u8,
    pub Barcodes: Vec<(String, u64)>,
}

#[allow(non_snake_case)]
#[derive(Debug, Clone)]
pub struct Bcl2FqStats {
    pub Flowcell: String,
    pub RunNumber: u8,
    pub RunId: String,
    pub ReadInfosForLanes: Vec<ReadInfosForLane>,
    pub ConversionResults: Vec<ConversionResult>,
    pub UnknownBarcodes: Vec<UnknownBarcode>,
}

} // verus!
