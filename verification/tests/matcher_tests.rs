use bcl2fq_stats::aggregate::{BarcodeTable, CountTable, collect_lane_barcode_count};
use bcl2fq_stats::matcher::find_origins;
use bcl2fq_stats::models::{ConversionResult, DemuxResult, IndexMetric};

fn known(pairs: &[(&str, &str)]) -> BarcodeTable {
    let records = pairs
        .iter()
        .map(|(id, bc)| DemuxResult {
            SampleId: id.to_string(),
            SampleName: id.to_string(),
            IndexMetrics: vec![IndexMetric { IndexSequence: bc.to_string() }],
            NumberReads: 1,
            Yield: 0,
            ReadMetrics: Vec::new(),
        })
        .collect();
    let lane = ConversionResult {
        LaneNumber: 1,
        TotalClustersRaw: 0,
        TotalClustersPF: 0,
        Yield: 0,
        DemuxResults: records,
    };
    let mut counter = CountTable::new();
    let mut list = BarcodeTable::new();
    collect_lane_barcode_count(&lane, &mut counter, &mut list).unwrap();
    list
}

#[test]
fn test_find_origins_strict_threshold() {
    let list = known(&[("S1", "ACTG"), ("S2", "ATTG")]);
    let target = "ACTT".to_string();
    // distances: 1 to S1's barcode, 2 to S2's barcode
    assert_eq!(find_origins(&target, &list, 1), Vec::<String>::new());
    assert_eq!(find_origins(&target, &list, 2), vec!["S1".to_string()]);
    assert_eq!(
        find_origins(&target, &list, 3),
        vec!["S1".to_string(), "S2".to_string()]
    );
}

#[test]
fn test_find_origins_exact_match_and_order() {
    let list = known(&[("S2", "ATTG"), ("S1", "ACTG")]);
    let target = "ACTG".to_string();
    // distance 0 to S1's barcode, 1 to S2's barcode; table order is kept
    assert_eq!(
        find_origins(&target, &list, 2),
        vec!["S2".to_string(), "S1".to_string()]
    );
}

#[test]
fn test_find_origins_length_mismatch_never_matches() {
    let list = known(&[("S1", "ACT"), ("S2", "ACTGG")]);
    let target = "ACTT".to_string();
    assert_eq!(find_origins(&target, &list, 200), Vec::<String>::new());
}
