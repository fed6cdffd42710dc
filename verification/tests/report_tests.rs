use bcl2fq_stats::StatsError;
use bcl2fq_stats::aggregate::{BarcodeTable, CountTable};
use bcl2fq_stats::models::{
    Bcl2FqStats, ConversionResult, DemuxResult, IndexMetric, UnknownBarcode,
};
use bcl2fq_stats::report::{build_report, report_inputs_ok, sample_report_rows};

fn demux(id: &str, barcode: &str, reads: u64) -> DemuxResult {
    DemuxResult {
        SampleId: id.to_string(),
        SampleName: id.to_string(),
        IndexMetrics: vec![IndexMetric { IndexSequence: barcode.to_string() }],
        NumberReads: reads,
        Yield: 0,
        ReadMetrics: Vec::new(),
    }
}

fn lane(number: u8, records: Vec<DemuxResult>) -> ConversionResult {
    ConversionResult {
        LaneNumber: number,
        TotalClustersRaw: 0,
        TotalClustersPF: 0,
        Yield: 0,
        DemuxResults: records,
    }
}

fn stats(lanes: Vec<ConversionResult>, unknowns: Vec<UnknownBarcode>) -> Bcl2FqStats {
    Bcl2FqStats {
        Flowcell: "FC1".to_string(),
        RunNumber: 1,
        RunId: "RUN1".to_string(),
        ReadInfosForLanes: Vec::new(),
        ConversionResults: lanes,
        UnknownBarcodes: unknowns,
    }
}

fn two_lane_stats() -> Bcl2FqStats {
    stats(
        vec![
            lane(1, vec![demux("S1", "ACTG", 60), demux("S2", "ATTG", 20)]),
            lane(2, vec![demux("S1", "ACTG", 40), demux("S2", "ATTG", 30)]),
        ],
        vec![UnknownBarcode { Lane: 1, Barcodes: vec![("ACTT".to_string(), 5)] }],
    )
}

#[test]
fn test_report_strict_threshold_boundary() {
    let stats = two_lane_stats();
    assert!(report_inputs_ok(&stats));
    let report = build_report(&stats, 1).unwrap();

    assert_eq!(report.sample_rows.len(), 2);
    assert_eq!(report.sample_rows[0].sample_id, "S1");
    assert_eq!(report.sample_rows[0].barcode, "ACTG");
    assert_eq!(report.sample_rows[0].read_count, 100);
    assert_eq!(report.sample_rows[1].sample_id, "S2");
    assert_eq!(report.sample_rows[1].barcode, "ATTG");
    assert_eq!(report.sample_rows[1].read_count, 50);

    // distance(ACTT, ACTG) = 1, not < 1; distance(ACTT, ATTG) = 2: no origin
    assert_eq!(report.undetermined_rows.len(), 1);
    assert_eq!(report.undetermined_rows[0].barcode, "ACTT");
    assert_eq!(report.undetermined_rows[0].read_count, 5);
    assert_eq!(report.undetermined_rows[0].origins, Vec::<String>::new());
}

#[test]
fn test_report_distance_two_matches_nearest() {
    let stats = two_lane_stats();
    assert!(report_inputs_ok(&stats));
    let report = build_report(&stats, 2).unwrap();

    // distance(ACTT, ACTG) = 1 < 2; distance(ACTT, ATTG) = 2, not < 2
    assert_eq!(report.undetermined_rows.len(), 1);
    assert_eq!(report.undetermined_rows[0].barcode, "ACTT");
    assert_eq!(report.undetermined_rows[0].read_count, 5);
    assert_eq!(report.undetermined_rows[0].origins, vec!["S1".to_string()]);
}

#[test]
fn test_report_truncates_to_ten_highest() {
    let mut entries: Vec<(String, u64)> = Vec::new();
    for i in 1..=15u64 {
        entries.push((format!("BC{:02}", i), i));
    }
    let stats = stats(
        vec![lane(1, vec![demux("S1", "AAAAAAAA", 1)])],
        vec![UnknownBarcode { Lane: 1, Barcodes: entries }],
    );
    assert!(report_inputs_ok(&stats));
    let report = build_report(&stats, 0).unwrap();

    assert_eq!(report.undetermined_rows.len(), 10);
    for (pos, row) in report.undetermined_rows.iter().enumerate() {
        let expected_count = 15 - pos as u64;
        assert_eq!(row.read_count, expected_count);
        assert_eq!(row.barcode, format!("BC{:02}", expected_count));
    }
}

#[test]
fn test_report_fewer_than_ten_keeps_all() {
    let stats = two_lane_stats();
    let report = build_report(&stats, 4).unwrap();
    assert_eq!(report.undetermined_rows.len(), 1);
}

#[test]
fn test_missing_barcode_for_sample() {
    let mut counter = CountTable::new();
    counter.add(&"S9".to_string(), 5);
    let list = BarcodeTable::new();
    let result = sample_report_rows(&counter, &list);
    assert_eq!(
        result.unwrap_err(),
        StatsError::MissingBarcodeForSample("S9".to_string())
    );
}

#[test]
fn test_report_inputs_ok_rejects_record_without_index() {
    let mut record = demux("S1", "ACTG", 10);
    record.IndexMetrics = Vec::new();
    let stats = stats(vec![lane(1, vec![record])], Vec::new());
    assert!(!report_inputs_ok(&stats));
}

#[test]
fn test_report_empty_run() {
    let stats = stats(Vec::new(), Vec::new());
    assert!(report_inputs_ok(&stats));
    let report = build_report(&stats, 4).unwrap();
    assert_eq!(report.sample_rows.len(), 0);
    assert_eq!(report.undetermined_rows.len(), 0);
}
