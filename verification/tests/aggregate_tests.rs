use bcl2fq_stats::aggregate::{
    BarcodeTable, CountTable, collect_lane_barcode_count, collect_lane_undetermined_barcode,
};
use bcl2fq_stats::models::{ConversionResult, DemuxResult, IndexMetric, UnknownBarcode};

fn demux(id: &str, barcode: &str, reads: u64) -> DemuxResult {
    DemuxResult {
        SampleId: id.to_string(),
        SampleName: id.to_string(),
        IndexMetrics: vec![IndexMetric { IndexSequence: barcode.to_string() }],
        NumberReads: reads,
        Yield: 0,
        ReadMetrics: Vec::new(),
    }
}

fn lane(number: u8, records: Vec<DemuxResult>) -> ConversionResult {
    ConversionResult {
        LaneNumber: number,
        TotalClustersRaw: 0,
        TotalClustersPF: 0,
        Yield: 0,
        DemuxResults: records,
    }
}

fn unknown_lane(number: u8, entries: &[(&str, u64)]) -> UnknownBarcode {
    UnknownBarcode {
        Lane: number,
        Barcodes: entries.iter().map(|(k, v)| (k.to_string(), *v)).collect(),
    }
}

#[test]
fn test_collect_lane_barcode_count_totals() {
    let mut counter = CountTable::new();
    let mut list = BarcodeTable::new();
    let l1 = lane(1, vec![demux("S1", "ACTG", 60), demux("S2", "ATTG", 20)]);
    let l2 = lane(2, vec![demux("S1", "ACTG", 40), demux("S2", "ATTG", 30)]);
    collect_lane_barcode_count(&l1, &mut counter, &mut list).unwrap();
    collect_lane_barcode_count(&l2, &mut counter, &mut list).unwrap();
    assert_eq!(counter.get(&"S1".to_string()), Some(100));
    assert_eq!(counter.get(&"S2".to_string()), Some(50));
    assert_eq!(counter.get(&"S3".to_string()), None);
    assert_eq!(counter.len(), 2);
    assert_eq!(list.get(&"S1".to_string()), Some(&"ACTG".to_string()));
    assert_eq!(list.get(&"S2".to_string()), Some(&"ATTG".to_string()));
}

#[test]
fn test_fold_lanes_order_independent() {
    let l1 = lane(1, vec![demux("S1", "ACTG", 60), demux("S2", "ATTG", 20)]);
    let l2 = lane(
        2,
        vec![demux("S2", "ATTG", 30), demux("S1", "ACTG", 40), demux("S3", "GGGG", 5)],
    );

    let mut c12 = CountTable::new();
    let mut b12 = BarcodeTable::new();
    collect_lane_barcode_count(&l1, &mut c12, &mut b12).unwrap();
    collect_lane_barcode_count(&l2, &mut c12, &mut b12).unwrap();

    let mut c21 = CountTable::new();
    let mut b21 = BarcodeTable::new();
    collect_lane_barcode_count(&l2, &mut c21, &mut b21).unwrap();
    collect_lane_barcode_count(&l1, &mut c21, &mut b21).unwrap();

    for id in ["S1", "S2", "S3"] {
        assert_eq!(c12.get(&id.to_string()), c21.get(&id.to_string()));
        assert_eq!(b12.get(&id.to_string()), b21.get(&id.to_string()));
    }
    assert_eq!(c12.len(), c21.len());
}

#[test]
fn test_fold_lanes_additive() {
    let lanes = [
        lane(1, vec![demux("S1", "ACTG", 7), demux("S2", "ATTG", 1)]),
        lane(2, vec![demux("S1", "ACTG", 11)]),
        lane(3, vec![demux("S1", "ACTG", 13), demux("S2", "ATTG", 2)]),
    ];
    let mut counter = CountTable::new();
    let mut list = BarcodeTable::new();
    for l in &lanes {
        collect_lane_barcode_count(l, &mut counter, &mut list).unwrap();
    }
    assert_eq!(counter.get(&"S1".to_string()), Some(7 + 11 + 13));
    assert_eq!(counter.get(&"S2".to_string()), Some(1 + 0 + 2));
}

#[test]
fn test_barcode_last_write_wins() {
    let l1 = lane(1, vec![demux("S1", "ACTG", 10)]);
    let l2 = lane(2, vec![demux("S1", "TTTT", 10)]);
    let mut counter = CountTable::new();
    let mut list = BarcodeTable::new();
    collect_lane_barcode_count(&l1, &mut counter, &mut list).unwrap();
    collect_lane_barcode_count(&l2, &mut counter, &mut list).unwrap();
    assert_eq!(list.get(&"S1".to_string()), Some(&"TTTT".to_string()));
    assert_eq!(counter.get(&"S1".to_string()), Some(20));
}

#[test]
fn test_collect_lane_undetermined_barcode() {
    let mut counter = CountTable::new();
    collect_lane_undetermined_barcode(&unknown_lane(1, &[("AAAA", 5), ("CCCC", 3)]), &mut counter);
    collect_lane_undetermined_barcode(&unknown_lane(2, &[("AAAA", 2)]), &mut counter);
    assert_eq!(counter.get(&"AAAA".to_string()), Some(7));
    assert_eq!(counter.get(&"CCCC".to_string()), Some(3));
    assert_eq!(counter.len(), 2);
}

#[test]
fn test_undetermined_fold_order_independent() {
    let la = unknown_lane(1, &[("AAAA", 5), ("CCCC", 3)]);
    let lb = unknown_lane(2, &[("CCCC", 4), ("GGGG", 1)]);

    let mut cab = CountTable::new();
    collect_lane_undetermined_barcode(&la, &mut cab);
    collect_lane_undetermined_barcode(&lb, &mut cab);

    let mut cba = CountTable::new();
    collect_lane_undetermined_barcode(&lb, &mut cba);
    collect_lane_undetermined_barcode(&la, &mut cba);

    for k in ["AAAA", "CCCC", "GGGG"] {
        assert_eq!(cab.get(&k.to_string()), cba.get(&k.to_string()));
    }
    assert_eq!(cab.len(), cba.len());
}
