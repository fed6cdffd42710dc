//! Report building: the ranked known-sample section, and the ranked,
//! truncated, origin-matched undetermined section.
//!
//! The rows carry plain values in their final order; writing them out as
//! tab-separated text is the concern of the surrounding application.

use vstd::prelude::*;

verus! {

use crate::StatsError;
use crate::aggregate::{
    BarcodeTable, CountTable, collect_lane_barcode_count, collect_lane_undetermined_barcode,
    count_of, counts_nonneg, fold_barcodes, fold_counts, has_key, key_total,
    lemma_fold_counts_count_of, lemma_fold_pairs_concat, lemma_fold_pairs_has_key,
    lemma_key_total_concat, lemma_key_total_le_sum, lemma_key_total_nonneg,
    lemma_pairs_sum_concat, lemma_pairs_sum_nonneg, lemma_pairs_sum_take_le,
    lemma_value_of_has_key, pairs_of, pairs_sum,
    sample_barcode_pairs, sample_count_pairs, strings_view, value_of, add_values, replace_value,
};
use crate::matcher::{find_origins, origin_ids};
use crate::models::{Bcl2FqStats, ConversionResult, UnknownBarcode};
use crate::utils::{lemma_sort_desc_has_key, sort_desc, sort_hashmap, truncate};

/// At most this many undetermined-barcode rows are emitted.
pub const MAX_COUNT_UNDETERMINED: usize = 10;

/// One emitted row for a known sample.
#[derive(Debug, Clone)]
pub struct SampleRow {
    pub sample_id: String,
    pub barcode: String,
    pub read_count: u64,
}

/// One emitted row for an undetermined barcode, with the known samples
/// whose barcode lies within the tolerance.
#[derive(Debug, Clone)]
pub struct UndeterminedRow {
    pub barcode: String,
    pub read_count: u64,
    pub origins: Vec<String>,
}

/// The consolidated report: known-sample rows, then undetermined rows.
#[derive(Debug, Clone)]
pub struct Report {
    pub sample_rows: Vec<SampleRow>,
    pub undetermined_rows: Vec<UndeterminedRow>,
}

/// The known-sample section: one row per aggregated sample, ranked by
/// descending count with ties in first-seen order, each row carrying the
/// barcode recorded for its sample.
pub open spec fn sample_rows_match(
    rows: Seq<SampleRow>,
    counter: Seq<(Seq<char>, int)>,
    list: Seq<(Seq<char>, Seq<char>)>,
) -> bool {
    let ranked = sort_desc(counter);
    &&& rows.len() == ranked.len()
    &&& forall|i: int|
        0 <= i < rows.len() ==> {
            &&& (#[trigger] rows[i]).sample_id@ == ranked[i].0
            &&& rows[i].read_count as int == ranked[i].1
            &&& value_of(list, ranked[i].0) == Some(rows[i].barcode@)
        }
}

/// The undetermined section: the ranked counts cut to the row limit, each
/// surviving row carrying its possible origins in table order.
pub open spec fn undetermined_rows_match(
    rows: Seq<UndeterminedRow>,
    counter: Seq<(Seq<char>, int)>,
    list: Seq<(Seq<char>, Seq<char>)>,
    max_distance: int,
) -> bool {
    let ranked = sort_desc(counter);
    &&& rows.len() == if ranked.len() <= MAX_COUNT_UNDETERMINED {
        ranked.len() as int
    } else {
        MAX_COUNT_UNDETERMINED as int
    }
    &&& forall|i: int|
        0 <= i < rows.len() ==> {
            &&& (#[trigger] rows[i]).barcode@ == ranked[i].0
            &&& rows[i].read_count as int == ranked[i].1
            &&& strings_view(rows[i].origins@) == origin_ids(list, ranked[i].0, max_distance)
        }
}

/// Build the known-sample rows: rank the count table and pair each sample
/// with its recorded barcode. Fails, naming the sample, exactly when some
/// counted sample has no recorded barcode.
pub fn sample_report_rows(barcode_counter: &CountTable, barcode_list: &BarcodeTable) -> (r: Result<
    Vec<SampleRow>,
    StatsError,
>)
    ensures
        r is Ok <==> (forall|k: Seq<char>| #[trigger]
            has_key(barcode_counter@, k) ==> has_key(barcode_list@, k)),
        r matches Ok(rows) ==> sample_rows_match(rows@, barcode_counter@, barcode_list@),
        r matches Err(e) ==> (e matches StatsError::MissingBarcodeForSample(id) && has_key(
            barcode_counter@,
            id@,
        ) && !has_key(barcode_list@, id@) && exists|m: int|
            0 <= m < sort_desc(barcode_counter@).len() && (#[trigger] sort_desc(
                barcode_counter@,
            )[m]).0 == id@ && (forall|j: int|
                0 <= j < m ==> has_key(barcode_list@, #[trigger] sort_desc(barcode_counter@)[j].0))),
{
    let sorted = match sort_hashmap(barcode_counter) {
        Ok(v) => v,
        Err(e) => {
            proof {
                assert(false);
            }
            return Err(e);
        },
    };
    let ghost ranked = sort_desc(barcode_counter@);
    let mut rows: Vec<SampleRow> = Vec::new();
    let n = sorted.len();
    let mut i: usize = 0;
    while i < n
        invariant
            n == sorted@.len(),
            i <= n,
            pairs_of(sorted@) == ranked,
            ranked == sort_desc(barcode_counter@),
            ranked.len() == n,
            rows@.len() == i,
            forall|m: int|
                0 <= m < i ==> {
                    &&& (#[trigger] rows@[m]).sample_id@ == ranked[m].0
                    &&& rows@[m].read_count as int == ranked[m].1
                    &&& value_of(barcode_list@, ranked[m].0) == Some(rows@[m].barcode@)
                },
        decreases n - i,
    {
        let p = &sorted[i];
        proof {
            assert(ranked[i as int] == (p.0@, p.1 as int));
        }
        match barcode_list.get(&p.0) {
            Some(bc) => {
                let row = SampleRow { sample_id: p.0.clone(), barcode: bc.clone(), read_count: p.1 };
                rows.push(row);
            },
            None => {
                proof {
                    lemma_sort_desc_has_key(barcode_counter@, p.0@);
                    assert(ranked[i as int].0 == p.0@);
                    assert(has_key(ranked, p.0@));
                    lemma_value_of_has_key(barcode_list@, p.0@);
                    assert(!has_key(barcode_list@, p.0@));
                    assert forall|j: int| 0 <= j < i implies has_key(
                        barcode_list@,
                        #[trigger] sort_desc(barcode_counter@)[j].0,
                    ) by {
                        assert(value_of(barcode_list@, ranked[j].0) == Some(rows@[j].barcode@));
                        lemma_value_of_has_key(barcode_list@, ranked[j].0);
                    }
                }
                return Err(StatsError::MissingBarcodeForSample(p.0.clone()));
            },
        }
        i += 1;
    }
    proof {
        assert forall|k: Seq<char>| #[trigger]
            has_key(barcode_counter@, k) implies has_key(barcode_list@, k) by {
            lemma_sort_desc_has_key(barcode_counter@, k);
            let m = choose|m: int| 0 <= m < ranked.len() && ranked[m].0 == k;
            assert(value_of(barcode_list@, ranked[m].0) == Some(rows@[m].barcode@));
            lemma_value_of_has_key(barcode_list@, k);
        }
    }
    Ok(rows)
}

/// Build the undetermined rows: rank the counts, keep the highest rows up
/// to the limit, and attach each surviving barcode's possible origins.
pub fn undetermined_report_rows(
    undetermined_barcode_counter: &CountTable,
    barcode_list: &BarcodeTable,
    max_distance: u8,
) -> (r: Vec<UndeterminedRow>)
    ensures
        undetermined_rows_match(
            r@,
            undetermined_barcode_counter@,
            barcode_list@,
            max_distance as int,
        ),
{
    let sorted = match sort_hashmap(undetermined_barcode_counter) {
        Ok(v) => v,
        Err(_) => {
            proof {
                assert(false);
            }
            return Vec::new();
        },
    };
    let ghost ranked = sort_desc(undetermined_barcode_counter@);
    let truncated = truncate(sorted, MAX_COUNT_UNDETERMINED);
    let n = truncated.len();
    proof {
        if ranked.len() <= MAX_COUNT_UNDETERMINED {
            assert(pairs_of(truncated@) == ranked);
        } else {
            assert(forall|m: int|
                0 <= m < truncated@.len() ==> #[trigger] pairs_of(truncated@)[m] == ranked[m]);
        }
        assert(forall|m: int| 0 <= m < n ==> #[trigger] pairs_of(truncated@)[m] == ranked[m]);
    }
    let mut rows: Vec<UndeterminedRow> = Vec::new();
    let mut i: usize = 0;
    while i < n
        invariant
            n == truncated@.len(),
            i <= n,
            ranked == sort_desc(undetermined_barcode_counter@),
            n == if ranked.len() <= MAX_COUNT_UNDETERMINED {
                ranked.len() as int
            } else {
                MAX_COUNT_UNDETERMINED as int
            },
            forall|m: int| 0 <= m < n ==> #[trigger] pairs_of(truncated@)[m] == ranked[m],
            rows@.len() == i,
            forall|m: int|
                0 <= m < i ==> {
                    &&& (#[trigger] rows@[m]).barcode@ == ranked[m].0
                    &&& rows@[m].read_count as int == ranked[m].1
                    &&& strings_view(rows@[m].origins@) == origin_ids(
                        barcode_list@,
                        ranked[m].0,
                        max_distance as int,
                    )
                },
        decreases n - i,
    {
        let p = &truncated[i];
        proof {
            assert(pairs_of(truncated@)[i as int] == (p.0@, p.1 as int));
            assert(ranked[i as int] == (p.0@, p.1 as int));
        }
        let origins = find_origins(&p.0, barcode_list, max_distance);
        let row = UndeterminedRow { barcode: p.0.clone(), read_count: p.1, origins };
        rows.push(row);
        i += 1;
    }
    rows
}

// ---------------------------------------------------------------------------
// The whole run
// ---------------------------------------------------------------------------

/// All lanes' sample count pairs, in lane order.
pub open spec fn run_sample_count_pairs(lanes: Seq<ConversionResult>) -> Seq<(Seq<char>, int)>
    decreases lanes.len(),
{
    if lanes.len() == 0 {
        Seq::empty()
    } else {
        run_sample_count_pairs(lanes.drop_last()) + sample_count_pairs(lanes.last().DemuxResults@)
    }
}

/// All lanes' sample barcode pairs, in lane order.
pub open spec fn run_sample_barcode_pairs(lanes: Seq<ConversionResult>) -> Seq<
    (Seq<char>, Seq<char>),
>
    decreases lanes.len(),
{
    if lanes.len() == 0 {
        Seq::empty()
    } else {
        run_sample_barcode_pairs(lanes.drop_last()) + sample_barcode_pairs(
            lanes.last().DemuxResults@,
        )
    }
}

/// All lanes' undetermined-barcode count pairs, in lane order.
pub open spec fn run_undetermined_pairs(lanes: Seq<UnknownBarcode>) -> Seq<(Seq<char>, int)>
    decreases lanes.len(),
{
    if lanes.len() == 0 {
        Seq::empty()
    } else {
        run_undetermined_pairs(lanes.drop_last()) + pairs_of(lanes.last().Barcodes@)
    }
}

/// Every record of every lane carries at least one index barcode.
pub open spec fn records_have_index(lanes: Seq<ConversionResult>) -> bool {
    forall|l: int, m: int|
        0 <= l < lanes.len() && 0 <= m < lanes[l].DemuxResults@.len() ==> (
        #[trigger] lanes[l].DemuxResults@[m]).IndexMetrics@.len() >= 1
}

/// What the report pipeline asks of its input: every sample record carries
/// at least one index barcode, and no run-wide total overflows the count
/// type.
pub open spec fn report_inputs_wf(stats: Bcl2FqStats) -> bool {
    &&& records_have_index(stats.ConversionResults@)
    &&& forall|k: Seq<char>| #[trigger]
        key_total(run_sample_count_pairs(stats.ConversionResults@), k) <= u64::MAX
    &&& forall|k: Seq<char>| #[trigger]
        key_total(run_undetermined_pairs(stats.UnknownBarcodes@), k) <= u64::MAX
}

proof fn lemma_run_sample_counts_nonneg(lanes: Seq<ConversionResult>)
    ensures
        counts_nonneg(run_sample_count_pairs(lanes)),
    decreases lanes.len(),
{
    if lanes.len() > 0 {
        lemma_run_sample_counts_nonneg(lanes.drop_last());
        assert(counts_nonneg(sample_count_pairs(lanes.last().DemuxResults@)));
    }
}

proof fn lemma_run_undetermined_counts_nonneg(lanes: Seq<UnknownBarcode>)
    ensures
        counts_nonneg(run_undetermined_pairs(lanes)),
    decreases lanes.len(),
{
    if lanes.len() > 0 {
        lemma_run_undetermined_counts_nonneg(lanes.drop_last());
        assert(counts_nonneg(pairs_of(lanes.last().Barcodes@)));
    }
}

/// A prefix of the run never carries more than the whole run.
proof fn lemma_run_sample_prefix_le(lanes: Seq<ConversionResult>, m: int, k: Seq<char>)
    requires
        0 <= m <= lanes.len(),
    ensures
        key_total(run_sample_count_pairs(lanes.take(m)), k) <= key_total(
            run_sample_count_pairs(lanes),
            k,
        ),
    decreases lanes.len() - m,
{
    if m == lanes.len() {
        assert(lanes.take(m) =~= lanes);
    } else {
        lemma_run_sample_prefix_le(lanes, m + 1, k);
        assert(lanes.take(m + 1).drop_last() =~= lanes.take(m));
        assert(lanes.take(m + 1).last() == lanes[m]);
        lemma_key_total_concat(
            run_sample_count_pairs(lanes.take(m)),
            sample_count_pairs(lanes[m].DemuxResults@),
            k,
        );
        assert(counts_nonneg(sample_count_pairs(lanes[m].DemuxResults@)));
        lemma_key_total_nonneg(sample_count_pairs(lanes[m].DemuxResults@), k);
    }
}

/// A prefix of the run never carries more than the whole run.
proof fn lemma_run_undetermined_prefix_le(lanes: Seq<UnknownBarcode>, m: int, k: Seq<char>)
    requires
        0 <= m <= lanes.len(),
    ensures
        key_total(run_undetermined_pairs(lanes.take(m)), k) <= key_total(
            run_undetermined_pairs(lanes),
            k,
        ),
    decreases lanes.len() - m,
{
    if m == lanes.len() {
        assert(lanes.take(m) =~= lanes);
    } else {
        lemma_run_undetermined_prefix_le(lanes, m + 1, k);
        assert(lanes.take(m + 1).drop_last() =~= lanes.take(m));
        assert(lanes.take(m + 1).last() == lanes[m]);
        lemma_key_total_concat(
            run_undetermined_pairs(lanes.take(m)),
            pairs_of(lanes[m].Barcodes@),
            k,
        );
        assert(counts_nonneg(pairs_of(lanes[m].Barcodes@)));
        lemma_key_total_nonneg(pairs_of(lanes[m].Barcodes@), k);
    }
}

/// Lane by lane and record by record, the count pairs and the barcode
/// pairs carry the same keys in the same positions.
proof fn lemma_run_pairs_same_keys(lanes: Seq<ConversionResult>)
    ensures
        run_sample_count_pairs(lanes).len() == run_sample_barcode_pairs(lanes).len(),
        forall|i: int|
            0 <= i < run_sample_count_pairs(lanes).len() ==> (
            #[trigger] run_sample_count_pairs(lanes)[i]).0 == run_sample_barcode_pairs(lanes)[i].0,
    decreases lanes.len(),
{
    if lanes.len() > 0 {
        lemma_run_pairs_same_keys(lanes.drop_last());
        let recs = lanes.last().DemuxResults@;
        assert(sample_count_pairs(recs).len() == sample_barcode_pairs(recs).len());
        assert(forall|i: int|
            0 <= i < sample_count_pairs(recs).len() ==> (#[trigger] sample_count_pairs(recs)[i]).0
                == sample_barcode_pairs(recs)[i].0);
    }
}

/// Produce the whole report for one run: aggregate every lane, rank both
/// mappings, truncate the undetermined section, and match origins. Never
/// fails: aggregation records a barcode for every counted sample.
pub fn build_report(stats: &Bcl2FqStats, max_distance: u8) -> (r: Result<Report, StatsError>)
    requires
        report_inputs_wf(*stats),
    ensures
        r is Ok,
        r matches Ok(report) ==> sample_rows_match(
            report.sample_rows@,
            fold_counts(Seq::empty(), run_sample_count_pairs(stats.ConversionResults@)),
            fold_barcodes(Seq::empty(), run_sample_barcode_pairs(stats.ConversionResults@)),
        ),
        r matches Ok(report) ==> undetermined_rows_match(
            report.undetermined_rows@,
            fold_counts(Seq::empty(), run_undetermined_pairs(stats.UnknownBarcodes@)),
            fold_barcodes(Seq::empty(), run_sample_barcode_pairs(stats.ConversionResults@)),
            max_distance as int,
        ),
{
    let ghost empty_counts = Seq::<(Seq<char>, int)>::empty();
    let ghost empty_barcodes = Seq::<(Seq<char>, Seq<char>)>::empty();
    let lanes = &stats.ConversionResults;
    let ghost run_scp = run_sample_count_pairs(lanes@);
    let ghost run_sbp = run_sample_barcode_pairs(lanes@);
    let mut barcode_counter = CountTable::new();
    let mut barcode_list = BarcodeTable::new();
    proof {
        assert(run_sample_count_pairs(lanes@.take(0)) =~= empty_counts);
        assert(run_sample_barcode_pairs(lanes@.take(0)) =~= empty_barcodes);
        assert(fold_counts(empty_counts, run_sample_count_pairs(lanes@.take(0)))
            == barcode_counter@);
        assert(fold_barcodes(empty_barcodes, run_sample_barcode_pairs(lanes@.take(0)))
            == barcode_list@);
        lemma_run_sample_counts_nonneg(lanes@);
    }
    let n = lanes.len();
    let mut l: usize = 0;
    while l < n
        invariant
            lanes == &stats.ConversionResults,
            run_scp == run_sample_count_pairs(lanes@),
            run_sbp == run_sample_barcode_pairs(lanes@),
            empty_counts == Seq::<(Seq<char>, int)>::empty(),
            empty_barcodes == Seq::<(Seq<char>, Seq<char>)>::empty(),
            report_inputs_wf(*stats),
            counts_nonneg(run_scp),
            n == lanes@.len(),
            l <= n,
            barcode_counter@ == fold_counts(
                empty_counts,
                run_sample_count_pairs(lanes@.take(l as int)),
            ),
            barcode_list@ == fold_barcodes(
                empty_barcodes,
                run_sample_barcode_pairs(lanes@.take(l as int)),
            ),
        decreases n - l,
    {
        let lane = &lanes[l];
        let ghost prefix = run_sample_count_pairs(lanes@.take(l as int));
        let ghost lane_scp = sample_count_pairs(lane.DemuxResults@);
        proof {
            assert(forall|m: int|
                0 <= m < lane.DemuxResults@.len() ==> (
                #[trigger] lane.DemuxResults@[m]).IndexMetrics@.len() >= 1);
            assert(lanes@.take(l + 1).drop_last() =~= lanes@.take(l as int));
            assert(lanes@.take(l + 1).last() == lanes@[l as int]);
            assert(run_sample_count_pairs(lanes@.take(l + 1)) == prefix + lane_scp);
            assert(run_sample_barcode_pairs(lanes@.take(l + 1)) == run_sample_barcode_pairs(
                lanes@.take(l as int),
            ) + sample_barcode_pairs(lane.DemuxResults@));
            assert forall|k: Seq<char>|
                count_of(barcode_counter@, k) + #[trigger] key_total(lane_scp, k)
                    <= u64::MAX by {
                lemma_fold_counts_count_of(empty_counts, prefix, k);
                lemma_key_total_concat(prefix, lane_scp, k);
                lemma_run_sample_prefix_le(lanes@, l + 1, k);
                assert(key_total(run_sample_count_pairs(lanes@.take(l + 1)), k) <= key_total(
                    run_scp,
                    k,
                ));
            }
        }
        let folded = collect_lane_barcode_count(lane, &mut barcode_counter, &mut barcode_list);
        proof {
            lemma_fold_pairs_concat(empty_counts, prefix, lane_scp, add_values());
            lemma_fold_pairs_concat(
                empty_barcodes,
                run_sample_barcode_pairs(lanes@.take(l as int)),
                sample_barcode_pairs(lane.DemuxResults@),
                replace_value(),
            );
        }
        let _ = folded;
        l += 1;
    }
    proof {
        assert(lanes@.take(n as int) =~= lanes@);
    }
    let unknowns = &stats.UnknownBarcodes;
    let ghost run_ubp = run_undetermined_pairs(unknowns@);
    let mut undetermined_barcode_counter = CountTable::new();
    proof {
        assert(run_undetermined_pairs(unknowns@.take(0)) =~= empty_counts);
        assert(fold_counts(empty_counts, run_undetermined_pairs(unknowns@.take(0)))
            == undetermined_barcode_counter@);
        lemma_run_undetermined_counts_nonneg(unknowns@);
    }
    let un = unknowns.len();
    let mut u: usize = 0;
    while u < un
        invariant
            unknowns == &stats.UnknownBarcodes,
            run_ubp == run_undetermined_pairs(unknowns@),
            empty_counts == Seq::<(Seq<char>, int)>::empty(),
            report_inputs_wf(*stats),
            counts_nonneg(run_ubp),
            un == unknowns@.len(),
            u <= un,
            undetermined_barcode_counter@ == fold_counts(
                empty_counts,
                run_undetermined_pairs(unknowns@.take(u as int)),
            ),
        decreases un - u,
    {
        let lane = &unknowns[u];
        let ghost prefix = run_undetermined_pairs(unknowns@.take(u as int));
        let ghost lane_ubp = pairs_of(lane.Barcodes@);
        proof {
            assert(unknowns@.take(u + 1).drop_last() =~= unknowns@.take(u as int));
            assert(unknowns@.take(u + 1).last() == unknowns@[u as int]);
            assert(run_undetermined_pairs(unknowns@.take(u + 1)) == prefix + lane_ubp);
            assert forall|k: Seq<char>|
                count_of(undetermined_barcode_counter@, k) + #[trigger] key_total(lane_ubp, k)
                    <= u64::MAX by {
                lemma_fold_counts_count_of(empty_counts, prefix, k);
                lemma_key_total_concat(prefix, lane_ubp, k);
                lemma_run_undetermined_prefix_le(unknowns@, u + 1, k);
                assert(key_total(run_undetermined_pairs(unknowns@.take(u + 1)), k) <= key_total(
                    run_ubp,
                    k,
                ));
            }
        }
        collect_lane_undetermined_barcode(lane, &mut undetermined_barcode_counter);
        proof {
            lemma_fold_pairs_concat(empty_counts, prefix, lane_ubp, add_values());
        }
        u += 1;
    }
    proof {
        assert(unknowns@.take(un as int) =~= unknowns@);
        assert forall|k: Seq<char>| #[trigger]
            has_key(barcode_counter@, k) implies has_key(barcode_list@, k) by {
            lemma_fold_pairs_has_key(empty_counts, run_scp, add_values(), k);
            lemma_fold_pairs_has_key(empty_barcodes, run_sbp, replace_value(), k);
            if has_key(empty_counts, k) {
                let i = choose|i: int| 0 <= i < empty_counts.len() && empty_counts[i].0 == k;
                assert(false);
            }
            lemma_run_pairs_same_keys(lanes@);
            if has_key(run_scp, k) {
                let i = choose|i: int| 0 <= i < run_scp.len() && run_scp[i].0 == k;
                assert(run_sbp[i].0 == k);
                assert(has_key(run_sbp, k));
            }
        }
    }
    let sample_rows = match sample_report_rows(&barcode_counter, &barcode_list) {
        Ok(rows) => rows,
        Err(e) => {
            proof {
                assert(false);
            }
            return Err(e);
        },
    };
    let undetermined_rows = undetermined_report_rows(
        &undetermined_barcode_counter,
        &barcode_list,
        max_distance,
    );
    Ok(Report { sample_rows, undetermined_rows })
}

// ---------------------------------------------------------------------------
// Checking the pipeline's demands at run time
// ---------------------------------------------------------------------------

/// A prefix of the run never sums to more than the whole run.
proof fn lemma_run_sample_sum_prefix_le(lanes: Seq<ConversionResult>, m: int)
    requires
        0 <= m <= lanes.len(),
    ensures
        pairs_sum(run_sample_count_pairs(lanes.take(m))) <= pairs_sum(
            run_sample_count_pairs(lanes),
        ),
    decreases lanes.len() - m,
{
    if m == lanes.len() {
        assert(lanes.take(m) =~= lanes);
    } else {
        lemma_run_sample_sum_prefix_le(lanes, m + 1);
        assert(lanes.take(m + 1).drop_last() =~= lanes.take(m));
        assert(lanes.take(m + 1).last() == lanes[m]);
        lemma_pairs_sum_concat(
            run_sample_count_pairs(lanes.take(m)),
            sample_count_pairs(lanes[m].DemuxResults@),
        );
        assert(counts_nonneg(sample_count_pairs(lanes[m].DemuxResults@)));
        lemma_pairs_sum_nonneg(sample_count_pairs(lanes[m].DemuxResults@));
    }
}

/// A prefix of the run never sums to more than the whole run.
proof fn lemma_run_undetermined_sum_prefix_le(lanes: Seq<UnknownBarcode>, m: int)
    requires
        0 <= m <= lanes.len(),
    ensures
        pairs_sum(run_undetermined_pairs(lanes.take(m))) <= pairs_sum(
            run_undetermined_pairs(lanes),
        ),
    decreases lanes.len() - m,
{
    if m == lanes.len() {
        assert(lanes.take(m) =~= lanes);
    } else {
        lemma_run_undetermined_sum_prefix_le(lanes, m + 1);
        assert(lanes.take(m + 1).drop_last() =~= lanes.take(m));
        assert(lanes.take(m + 1).last() == lanes[m]);
        lemma_pairs_sum_concat(
            run_undetermined_pairs(lanes.take(m)),
            pairs_of(lanes[m].Barcodes@),
        );
        assert(counts_nonneg(pairs_of(lanes[m].Barcodes@)));
        lemma_pairs_sum_nonneg(pairs_of(lanes[m].Barcodes@));
    }
}

/// One pass over the sample section: report whether every record carries
/// at least one index barcode and the run-wide sum of sample read counts
/// fits the count type.
fn sample_section_ok(lanes: &Vec<ConversionResult>) -> (b: bool)
    ensures
        b == (records_have_index(lanes@) && pairs_sum(run_sample_count_pairs(lanes@))
            <= u64::MAX),
{
    let mut sum: u64 = 0;
    let n = lanes.len();
    let mut l: usize = 0;
    while l < n
        invariant
            n == lanes@.len(),
            l <= n,
            sum as int == pairs_sum(run_sample_count_pairs(lanes@.take(l as int))),
            forall|a: int, m: int|
                0 <= a < l && 0 <= m < lanes@[a].DemuxResults@.len() ==> (
                #[trigger] lanes@[a].DemuxResults@[m]).IndexMetrics@.len() >= 1,
        decreases n - l,
    {
        let recs = &lanes[l].DemuxResults;
        let ghost base = run_sample_count_pairs(lanes@.take(l as int));
        let ghost scp = sample_count_pairs(recs@);
        let rn = recs.len();
        let mut m: usize = 0;
        while m < rn
            invariant
                n == lanes@.len(),
                l < n,
                recs@ == lanes@[l as int].DemuxResults@,
                rn == recs@.len(),
                m <= rn,
                scp == sample_count_pairs(recs@),
                base == run_sample_count_pairs(lanes@.take(l as int)),
                sum as int == pairs_sum(base) + pairs_sum(scp.take(m as int)),
                forall|j: int| 0 <= j < m ==> (#[trigger] recs@[j]).IndexMetrics@.len() >= 1,
            decreases rn - m,
        {
            let rec = &recs[m];
            if rec.IndexMetrics.len() == 0 {
                proof {
                    assert(!records_have_index(lanes@)) by {
                        if records_have_index(lanes@) {
                            assert(lanes@[l as int].DemuxResults@[m as int].IndexMetrics@.len()
                                >= 1);
                        }
                    }
                }
                return false;
            }
            let c = rec.NumberReads;
            proof {
                assert(scp[m as int] == (rec.SampleId@, c as int));
                assert(scp.take(m + 1).drop_last() =~= scp.take(m as int));
                assert(scp.take(m + 1).last() == scp[m as int]);
            }
            if c > u64::MAX - sum {
                proof {
                    assert(counts_nonneg(scp));
                    lemma_pairs_sum_take_le(scp, m + 1);
                    assert(lanes@.take(l + 1).drop_last() =~= lanes@.take(l as int));
                    assert(lanes@.take(l + 1).last() == lanes@[l as int]);
                    assert(run_sample_count_pairs(lanes@.take(l + 1)) == base + scp);
                    lemma_pairs_sum_concat(base, scp);
                    lemma_run_sample_sum_prefix_le(lanes@, l + 1);
                    assert(pairs_sum(run_sample_count_pairs(lanes@)) > u64::MAX);
                }
                return false;
            }
            sum = sum + c;
            m += 1;
        }
        proof {
            assert(scp.take(rn as int) =~= scp);
            assert(lanes@.take(l + 1).drop_last() =~= lanes@.take(l as int));
            assert(lanes@.take(l + 1).last() == lanes@[l as int]);
            lemma_pairs_sum_concat(base, scp);
            assert(run_sample_count_pairs(lanes@.take(l + 1)) == base + scp);
        }
        l += 1;
    }
    proof {
        assert(lanes@.take(n as int) =~= lanes@);
    }
    true
}

/// One pass over the undetermined section: report whether the run-wide sum
/// of undetermined read counts fits the count type.
fn undetermined_section_ok(lanes: &Vec<UnknownBarcode>) -> (b: bool)
    ensures
        b == (pairs_sum(run_undetermined_pairs(lanes@)) <= u64::MAX),
{
    let mut sum: u64 = 0;
    let n = lanes.len();
    let mut l: usize = 0;
    while l < n
        invariant
            n == lanes@.len(),
            l <= n,
            sum as int == pairs_sum(run_undetermined_pairs(lanes@.take(l as int))),
        decreases n - l,
    {
        let bcs = &lanes[l].Barcodes;
        let ghost base = run_undetermined_pairs(lanes@.take(l as int));
        let ghost ps = pairs_of(bcs@);
        let rn = bcs.len();
        let mut m: usize = 0;
        while m < rn
            invariant
                n == lanes@.len(),
                l < n,
                bcs@ == lanes@[l as int].Barcodes@,
                rn == bcs@.len(),
                m <= rn,
                ps == pairs_of(bcs@),
                base == run_undetermined_pairs(lanes@.take(l as int)),
                sum as int == pairs_sum(base) + pairs_sum(ps.take(m as int)),
            decreases rn - m,
        {
            let c = bcs[m].1;
            proof {
                assert(ps[m as int] == (bcs@[m as int].0@, c as int));
                assert(ps.take(m + 1).drop_last() =~= ps.take(m as int));
                assert(ps.take(m + 1).last() == ps[m as int]);
            }
            if c > u64::MAX - sum {
                proof {
                    assert(counts_nonneg(ps));
                    lemma_pairs_sum_take_le(ps, m + 1);
                    assert(lanes@.take(l + 1).drop_last() =~= lanes@.take(l as int));
                    assert(lanes@.take(l + 1).last() == lanes@[l as int]);
                    assert(run_undetermined_pairs(lanes@.take(l + 1)) == base + ps);
                    lemma_pairs_sum_concat(base, ps);
                    lemma_run_undetermined_sum_prefix_le(lanes@, l + 1);
                    assert(pairs_sum(run_undetermined_pairs(lanes@)) > u64::MAX);
                }
                return false;
            }
            sum = sum + c;
            m += 1;
        }
        proof {
            assert(ps.take(rn as int) =~= ps);
            assert(lanes@.take(l + 1).drop_last() =~= lanes@.take(l as int));
            assert(lanes@.take(l + 1).last() == lanes@[l as int]);
            lemma_pairs_sum_concat(base, ps);
            assert(run_undetermined_pairs(lanes@.take(l + 1)) == base + ps);
        }
        l += 1;
    }
    proof {
        assert(lanes@.take(n as int) =~= lanes@);
    }
    true
}

/// Test at run time everything `build_report` asks of its input: it holds
/// exactly when every record carries an index barcode and both run-wide
/// read-count sums fit the count type, and those sums bound every per-key
/// total.
pub fn report_inputs_ok(stats: &Bcl2FqStats) -> (b: bool)
    ensures
        b == (records_have_index(stats.ConversionResults@) && pairs_sum(
            run_sample_count_pairs(stats.ConversionResults@),
        ) <= u64::MAX && pairs_sum(run_undetermined_pairs(stats.UnknownBarcodes@)) <= u64::MAX),
        b ==> report_inputs_wf(*stats),
{
    let sok = sample_section_ok(&stats.ConversionResults);
    let uok = undetermined_section_ok(&stats.UnknownBarcodes);
    if sok && uok {
        proof {
            lemma_run_sample_counts_nonneg(stats.ConversionResults@);
            lemma_run_undetermined_counts_nonneg(stats.UnknownBarcodes@);
            assert forall|k: Seq<char>| #[trigger]
                key_total(run_sample_count_pairs(stats.ConversionResults@), k)
                    <= u64::MAX by {
                lemma_key_total_le_sum(run_sample_count_pairs(stats.ConversionResults@), k);
            }
            assert forall|k: Seq<char>| #[trigger]
                key_total(run_undetermined_pairs(stats.UnknownBarcodes@), k) <= u64::MAX by {
                lemma_key_total_le_sum(run_undetermined_pairs(stats.UnknownBarcodes@), k);
            }
        }
        true
    } else {
        false
    }
}

} // verus!
