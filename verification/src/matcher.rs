//! Candidate-origin resolution: for one undetermined barcode, the known
//! samples whose barcode lies within the mismatch tolerance.

use vstd::prelude::*;

verus! {

use vstd::utf8::encode_utf8;

use crate::aggregate::{BarcodeTable, has_key, keys_unique, strings_view};
use crate::distance::{hamming, mismatch_count};

/// A known sample's entry matches the target when the byte encodings of the
/// two barcodes have the same length and strictly fewer than `max_distance`
/// of their positions disagree. Barcodes of a different length never match.
pub open spec fn is_origin(
    entry: (Seq<char>, Seq<char>),
    target: Seq<char>,
    max_distance: int,
) -> bool {
    let eb = encode_utf8(entry.1);
    let tb = encode_utf8(target);
    eb.len() == tb.len() && hamming(eb, tb) < max_distance
}

/// The sample ids whose barcode matches the target, in table order.
pub open spec fn origin_ids(
    t: Seq<(Seq<char>, Seq<char>)>,
    target: Seq<char>,
    max_distance: int,
) -> Seq<Seq<char>> {
    t.filter(|p: (Seq<char>, Seq<char>)| is_origin(p, target, max_distance)).map(
        |i: int, p: (Seq<char>, Seq<char>)| p.0,
    )
}

/// Every element of `s.filter(pred)` occurs in `s`.
proof fn lemma_filter_elements(
    s: Seq<(Seq<char>, Seq<char>)>,
    pred: spec_fn((Seq<char>, Seq<char>)) -> bool,
)
    ensures
        forall|m: int|
            0 <= m < s.filter(pred).len() ==> s.contains(#[trigger] s.filter(pred)[m]),
    decreases s.len(),
{
    reveal_with_fuel(Seq::<(Seq<char>, Seq<char>)>::filter, 2);
    if s.len() > 0 {
        lemma_filter_elements(s.drop_last(), pred);
        let f = s.filter(pred);
        let fd = s.drop_last().filter(pred);
        assert forall|m: int| 0 <= m < f.len() implies s.contains(f[m]) by {
            if m < fd.len() {
                assert(s.drop_last().contains(fd[m]));
                let j = choose|j: int| 0 <= j < s.drop_last().len() && s.drop_last()[j] == fd[m];
                assert(s[j] == f[m]);
            } else {
                assert(f[m] == s.last());
                assert(s[s.len() - 1] == f[m]);
            }
        }
    }
}

/// The matcher is sound and complete: every id it returns is a known
/// sample id, and — the table carrying each id once, as the aggregator
/// builds it — an id is returned exactly when its entry lies within the
/// tolerance.
pub proof fn lemma_origin_ids_membership(
    t: Seq<(Seq<char>, Seq<char>)>,
    target: Seq<char>,
    max_distance: int,
)
    ensures
        forall|m: int|
            0 <= m < origin_ids(t, target, max_distance).len() ==> has_key(
                t,
                #[trigger] origin_ids(t, target, max_distance)[m],
            ),
        keys_unique(t) ==> forall|j: int|
            0 <= j < t.len() ==> (origin_ids(t, target, max_distance).contains(
                (#[trigger] t[j]).0,
            ) <==> is_origin(t[j], target, max_distance)),
{
    broadcast use vstd::seq_lib::group_filter_ensures;

    let pred = |p: (Seq<char>, Seq<char>)| is_origin(p, target, max_distance);
    let ids = origin_ids(t, target, max_distance);
    let f = t.filter(pred);
    lemma_filter_elements(t, pred);
    assert forall|m: int| 0 <= m < origin_ids(t, target, max_distance).len() implies has_key(
        t,
        #[trigger] origin_ids(t, target, max_distance)[m],
    ) by {
        assert(t.contains(f[m]));
        let j = choose|j: int| 0 <= j < t.len() && t[j] == f[m];
        assert(t[j].0 == ids[m]);
    }
    if keys_unique(t) {
        assert forall|j: int| 0 <= j < t.len() implies (origin_ids(
            t,
            target,
            max_distance,
        ).contains((#[trigger] t[j]).0) <==> is_origin(t[j], target, max_distance)) by {
            if is_origin(t[j], target, max_distance) {
                assert(f.contains(t[j]));
                let m = choose|m: int| 0 <= m < f.len() && f[m] == t[j];
                assert(ids[m] == t[j].0);
                assert(ids.contains(t[j].0));
            }
            if ids.contains(t[j].0) {
                let m = choose|m: int| 0 <= m < ids.len() && ids[m] == t[j].0;
                assert(pred(f[m]));
                assert(t.contains(f[m]));
                let j2 = choose|j2: int| 0 <= j2 < t.len() && t[j2] == f[m];
                assert(t[j2].0 == t[j].0);
                if j2 != j {
                    assert(false);
                }
                assert(is_origin(t[j], target, max_distance));
            }
        }
    }
}

/// Scan the known samples and return the ids whose barcode lies within the
/// tolerance, in the deterministic first-seen order of the table.
pub fn find_origins(target: &String, barcode_list: &BarcodeTable, max_distance: u8) -> (r: Vec<
    String,
>)
    ensures
        strings_view(r@) == origin_ids(barcode_list@, target@, max_distance as int),
{
    broadcast use vstd::seq_lib::group_filter_ensures;

    let target_bytes = target.as_str().as_bytes();
    let n = barcode_list.len();
    let mut out: Vec<String> = Vec::new();
    let mut i: usize = 0;
    proof {
        reveal_with_fuel(Seq::<(Seq<char>, Seq<char>)>::filter, 1);
        assert(strings_view(out@) =~= origin_ids(
            barcode_list@.take(0),
            target@,
            max_distance as int,
        ));
    }
    while i < n
        invariant
            n == barcode_list@.len(),
            i <= n,
            target_bytes@ == encode_utf8(target@),
            strings_view(out@) == origin_ids(
                barcode_list@.take(i as int),
                target@,
                max_distance as int,
            ),
        decreases n - i,
    {
        let (sample_id, barcode) = barcode_list.entry_at(i);
        let barcode_bytes = barcode.as_str().as_bytes();
        let ghost entry = barcode_list@[i as int];
        let matched: bool = if barcode_bytes.len() == target_bytes.len() {
            let d = mismatch_count(barcode_bytes, target_bytes);
            d < max_distance as usize
        } else {
            false
        };
        proof {
            assert(barcode_bytes@ == encode_utf8(entry.1));
            assert(matched == is_origin(entry, target@, max_distance as int));
        }
        let ghost prev_out = out@;
        if matched {
            out.push(sample_id.clone());
        }
        proof {
            reveal_with_fuel(Seq::<(Seq<char>, Seq<char>)>::filter, 2);
            let pred = |p: (Seq<char>, Seq<char>)| is_origin(p, target@, max_distance as int);
            let prev = barcode_list@.take(i as int);
            let cur = barcode_list@.take(i + 1);
            assert(cur.drop_last() =~= prev);
            assert(cur.last() == entry);
            if matched {
                assert(cur.filter(pred) == prev.filter(pred).push(entry));
                assert(strings_view(out@) =~= strings_view(prev_out).push(entry.0));
                let lhs = origin_ids(cur, target@, max_distance as int);
                let rhs = origin_ids(prev, target@, max_distance as int).push(entry.0);
                assert forall|m: int| 0 <= m < lhs.len() implies lhs[m] == rhs[m] by {
                    if m < prev.filter(pred).len() {
                        assert(cur.filter(pred)[m] == prev.filter(pred)[m]);
                    } else {
                        assert(cur.filter(pred)[m] == entry);
                    }
                }
                assert(lhs =~= rhs);
                assert(strings_view(out@) =~= origin_ids(cur, target@, max_distance as int));
            } else {
                assert(cur.filter(pred) == prev.filter(pred));
                let lhs = origin_ids(cur, target@, max_distance as int);
                let rhs = origin_ids(prev, target@, max_distance as int);
                assert forall|m: int| 0 <= m < lhs.len() implies lhs[m] == rhs[m] by {
                    assert(cur.filter(pred)[m] == prev.filter(pred)[m]);
                }
                assert(lhs =~= rhs);
                assert(strings_view(out@) =~= origin_ids(cur, target@, max_distance as int));
            }
        }
        i += 1;
    }
    proof {
        assert(barcode_list@.take(n as int) =~= barcode_list@);
    }
    out
}

} // verus!
