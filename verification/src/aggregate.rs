//! Cross-lane aggregation: folding per-lane records into run-wide tables.
//!
//! The tables are association sequences keyed by strings, kept in first-seen
//! order so that every later step of the pipeline is deterministic. Their
//! mathematical model is a sequence of `(Seq<char>, value)` pairs together
//! with a small theory of insert-or-combine folds.

use vstd::prelude::*;

verus! {

use crate::StatsError;
use crate::models::{ConversionResult, DemuxResult, UnknownBarcode};

/// Key/count pairs carried by a list of string/count entries.
pub open spec fn pairs_of(s: Seq<(String, u64)>) -> Seq<(Seq<char>, int)> {
    s.map(|i: int, p: (String, u64)| (p.0@, p.1 as int))
}

/// Key/count pairs carried by one lane's demultiplexed sample records.
pub open spec fn sample_count_pairs(recs: Seq<DemuxResult>) -> Seq<(Seq<char>, int)> {
    recs.map(|i: int, r: DemuxResult| (r.SampleId@, r.NumberReads as int))
}

/// Key/barcode pairs carried by one lane's demultiplexed sample records.
pub open spec fn sample_barcode_pairs(recs: Seq<DemuxResult>) -> Seq<(Seq<char>, Seq<char>)> {
    recs.map(|i: int, r: DemuxResult| (r.SampleId@, r.IndexMetrics@[0].IndexSequence@))
}

// ---------------------------------------------------------------------------
// Spec model: association sequences of key/value pairs
// ---------------------------------------------------------------------------

/// Some entry of `t` carries key `k`.
pub open spec fn has_key<V>(t: Seq<(Seq<char>, V)>, k: Seq<char>) -> bool {
    exists|i: int| 0 <= i < t.len() && t[i].0 == k
}

/// No key occurs in two entries of `t`.
pub open spec fn keys_unique<V>(t: Seq<(Seq<char>, V)>) -> bool {
    forall|i: int, j: int| 0 <= i < j < t.len() ==> t[i].0 != t[j].0
}

/// Value of the first entry for `k`, if any.
pub open spec fn value_of<V>(t: Seq<(Seq<char>, V)>, k: Seq<char>) -> Option<V>
    decreases t.len(),
{
    if t.len() == 0 {
        None
    } else if t[0].0 == k {
        Some(t[0].1)
    } else {
        value_of(t.drop_first(), k)
    }
}

/// Combine `v` into the first entry for `k`, or append a fresh entry at the
/// end when `k` is absent.
pub open spec fn upsert<V>(
    t: Seq<(Seq<char>, V)>,
    k: Seq<char>,
    v: V,
    combine: spec_fn(V, V) -> V,
) -> Seq<(Seq<char>, V)>
    decreases t.len(),
{
    if t.len() == 0 {
        seq![(k, v)]
    } else if t[0].0 == k {
        seq![(k, combine(t[0].1, v))] + t.drop_first()
    } else {
        seq![t[0]] + upsert(t.drop_first(), k, v, combine)
    }
}

/// Fold a sequence of key/value pairs into a table, first pair first.
pub open spec fn fold_pairs<V>(
    t: Seq<(Seq<char>, V)>,
    pairs: Seq<(Seq<char>, V)>,
    combine: spec_fn(V, V) -> V,
) -> Seq<(Seq<char>, V)>
    decreases pairs.len(),
{
    if pairs.len() == 0 {
        t
    } else {
        upsert(fold_pairs(t, pairs.drop_last(), combine), pairs.last().0, pairs.last().1, combine)
    }
}

// ---------------------------------------------------------------------------
// The two folds the pipeline uses
// ---------------------------------------------------------------------------

/// Counts are combined by addition.
pub open spec fn add_values() -> spec_fn(int, int) -> int {
    |a: int, b: int| a + b
}

/// Barcodes are combined by replacement: a later record wins.
pub open spec fn replace_value() -> spec_fn(Seq<char>, Seq<char>) -> Seq<char> {
    |a: Seq<char>, b: Seq<char>| b
}

/// Add `c` to the count recorded for `k`.
pub open spec fn bump(t: Seq<(Seq<char>, int)>, k: Seq<char>, c: int) -> Seq<(Seq<char>, int)> {
    upsert(t, k, c, add_values())
}

/// Fold key/count pairs into a count table.
pub open spec fn fold_counts(
    t: Seq<(Seq<char>, int)>,
    pairs: Seq<(Seq<char>, int)>,
) -> Seq<(Seq<char>, int)> {
    fold_pairs(t, pairs, add_values())
}

/// Fold key/barcode pairs into a barcode table; the last pair for a key wins.
pub open spec fn fold_barcodes(
    t: Seq<(Seq<char>, Seq<char>)>,
    pairs: Seq<(Seq<char>, Seq<char>)>,
) -> Seq<(Seq<char>, Seq<char>)> {
    fold_pairs(t, pairs, replace_value())
}

/// Count recorded for `k`, zero when absent.
pub open spec fn count_of(t: Seq<(Seq<char>, int)>, k: Seq<char>) -> int {
    match value_of(t, k) {
        Some(c) => c,
        None => 0,
    }
}

/// Total count that `pairs` carries for key `k`.
pub open spec fn key_total(pairs: Seq<(Seq<char>, int)>, k: Seq<char>) -> int
    decreases pairs.len(),
{
    if pairs.len() == 0 {
        0
    } else {
        key_total(pairs.drop_last(), k) + if pairs.last().0 == k {
            pairs.last().1
        } else {
            0
        }
    }
}

/// Barcode carried by the last pair for `k`, if any.
pub open spec fn last_of(pairs: Seq<(Seq<char>, Seq<char>)>, k: Seq<char>) -> Option<Seq<char>>
    decreases pairs.len(),
{
    if pairs.len() == 0 {
        None
    } else if pairs.last().0 == k {
        Some(pairs.last().1)
    } else {
        last_of(pairs.drop_last(), k)
    }
}

/// Every count in `pairs` is non-negative.
pub open spec fn counts_nonneg(pairs: Seq<(Seq<char>, int)>) -> bool {
    forall|i: int| 0 <= i < pairs.len() ==> 0 <= #[trigger] pairs[i].1
}

// ---------------------------------------------------------------------------
// Lemmas about single upserts
// ---------------------------------------------------------------------------

proof fn lemma_has_key_cons<V>(x: (Seq<char>, V), s: Seq<(Seq<char>, V)>, q: Seq<char>)
    ensures
        has_key(seq![x] + s, q) <==> (x.0 == q || has_key(s, q)),
{
    let t = seq![x] + s;
    if has_key(t, q) {
        let i = choose|i: int| 0 <= i < t.len() && t[i].0 == q;
        if i > 0 {
            assert(s[i - 1].0 == q);
            assert(has_key(s, q));
        }
    }
    if x.0 == q {
        assert(t[0].0 == q);
    }
    if has_key(s, q) {
        let i = choose|i: int| 0 <= i < s.len() && s[i].0 == q;
        assert(t[i + 1].0 == q);
    }
}

proof fn lemma_has_key_unfold<V>(t: Seq<(Seq<char>, V)>, q: Seq<char>)
    requires
        t.len() > 0,
    ensures
        has_key(t, q) <==> (t[0].0 == q || has_key(t.drop_first(), q)),
{
    assert(t =~= seq![t[0]] + t.drop_first());
    lemma_has_key_cons(t[0], t.drop_first(), q);
}

/// After an upsert, exactly the old keys and `k` are present.
pub proof fn lemma_upsert_has_key<V>(
    t: Seq<(Seq<char>, V)>,
    k: Seq<char>,
    v: V,
    combine: spec_fn(V, V) -> V,
    q: Seq<char>,
)
    ensures
        has_key(upsert(t, k, v, combine), q) <==> (has_key(t, q) || q == k),
    decreases t.len(),
{
    let u = upsert(t, k, v, combine);
    if t.len() == 0 {
        if q == k {
            assert(u[0].0 == q);
        }
        if has_key(u, q) {
            let i = choose|i: int| 0 <= i < u.len() && u[i].0 == q;
            assert(i == 0);
        }
        if has_key(t, q) {
            let i = choose|i: int| 0 <= i < t.len() && t[i].0 == q;
            assert(false);
        }
    } else if t[0].0 == k {
        lemma_has_key_cons((k, combine(t[0].1, v)), t.drop_first(), q);
        lemma_has_key_unfold(t, q);
    } else {
        lemma_upsert_has_key(t.drop_first(), k, v, combine, q);
        lemma_has_key_cons(t[0], upsert(t.drop_first(), k, v, combine), q);
        lemma_has_key_unfold(t, q);
    }
}

/// An upsert rewrites the value recorded for `k` and nothing else.
pub proof fn lemma_upsert_value_of<V>(
    t: Seq<(Seq<char>, V)>,
    k: Seq<char>,
    v: V,
    combine: spec_fn(V, V) -> V,
    q: Seq<char>,
)
    ensures
        q == k ==> value_of(upsert(t, k, v, combine), q) == match value_of(t, k) {
            Some(a) => Some(combine(a, v)),
            None => Some(v),
        },
        q != k ==> value_of(upsert(t, k, v, combine), q) == value_of(t, q),
    decreases t.len(),
{
    let u = upsert(t, k, v, combine);
    if t.len() == 0 {
        assert(u == seq![(k, v)]);
        assert(u.len() == 1 && u[0] == (k, v));
        assert(u.drop_first() =~= Seq::<(Seq<char>, V)>::empty());
        if q != k {
            assert(value_of(u, q) == value_of(u.drop_first(), q));
            assert(value_of(u, q) == None::<V>);
        }
    } else if t[0].0 == k {
        assert(u == seq![(k, combine(t[0].1, v))] + t.drop_first());
        assert(u.len() == t.len());
        assert(u[0] == (k, combine(t[0].1, v)));
        assert(u.drop_first() =~= t.drop_first());
        if q == k {
            assert(value_of(u, q) == Some(combine(t[0].1, v)));
            assert(value_of(t, k) == Some(t[0].1));
        } else {
            assert(value_of(u, q) == value_of(t.drop_first(), q));
            assert(value_of(t, q) == value_of(t.drop_first(), q));
        }
    } else {
        lemma_upsert_value_of(t.drop_first(), k, v, combine, q);
        let rest = upsert(t.drop_first(), k, v, combine);
        assert(u == seq![t[0]] + rest);
        assert(u.len() == 1 + rest.len());
        assert(u[0] == t[0]);
        assert(u.drop_first() =~= rest);
        if u[0].0 == q {
            assert(value_of(u, q) == Some(t[0].1));
            assert(value_of(t, q) == Some(t[0].1));
        } else {
            assert(value_of(u, q) == value_of(rest, q));
            assert(value_of(t, q) == value_of(t.drop_first(), q));
        }
    }
}

/// An upsert keeps keys unique.
pub proof fn lemma_upsert_keys_unique<V>(
    t: Seq<(Seq<char>, V)>,
    k: Seq<char>,
    v: V,
    combine: spec_fn(V, V) -> V,
)
    requires
        keys_unique(t),
    ensures
        keys_unique(upsert(t, k, v, combine)),
    decreases t.len(),
{
    let u = upsert(t, k, v, combine);
    if t.len() == 0 {
    } else if t[0].0 == k {
        assert(forall|i: int| 0 <= i < t.len() ==> u[i].0 == t[i].0);
        assert(keys_unique(u));
    } else {
        let rest = upsert(t.drop_first(), k, v, combine);
        assert(keys_unique(t.drop_first()));
        lemma_upsert_keys_unique(t.drop_first(), k, v, combine);
        assert(!has_key(t.drop_first(), t[0].0)) by {
            if has_key(t.drop_first(), t[0].0) {
                let i = choose|i: int| 0 <= i < t.drop_first().len() && t.drop_first()[i].0 == t[0].0;
                assert(t[i + 1].0 == t[0].0);
            }
        }
        lemma_upsert_has_key(t.drop_first(), k, v, combine, t[0].0);
        assert(!has_key(rest, t[0].0));
        assert(forall|i: int| 0 <= i < rest.len() ==> u[i + 1] == rest[i]);
        assert forall|i: int, j: int| 0 <= i < j < u.len() implies u[i].0 != u[j].0 by {
            if i == 0 {
                assert(rest[j - 1].0 != t[0].0);
            }
        }
    }
}

/// When `k` already stands at position `j`, an upsert is an update in place.
pub proof fn lemma_upsert_found<V>(
    t: Seq<(Seq<char>, V)>,
    k: Seq<char>,
    v: V,
    combine: spec_fn(V, V) -> V,
    j: int,
)
    requires
        0 <= j < t.len(),
        t[j].0 == k,
        forall|m: int| 0 <= m < j ==> t[m].0 != k,
    ensures
        upsert(t, k, v, combine) == t.update(j, (k, combine(t[j].1, v))),
    decreases t.len(),
{
    if j == 0 {
        assert(upsert(t, k, v, combine) =~= t.update(0, (k, combine(t[0].1, v))));
    } else {
        assert(forall|m: int| 0 <= m < j - 1 ==> t.drop_first()[m].0 != k);
        lemma_upsert_found(t.drop_first(), k, v, combine, j - 1);
        assert(upsert(t, k, v, combine) =~= t.update(j, (k, combine(t[j].1, v))));
    }
}

/// When `k` is absent, an upsert appends the fresh entry.
pub proof fn lemma_upsert_absent<V>(
    t: Seq<(Seq<char>, V)>,
    k: Seq<char>,
    v: V,
    combine: spec_fn(V, V) -> V,
)
    requires
        forall|m: int| 0 <= m < t.len() ==> t[m].0 != k,
    ensures
        upsert(t, k, v, combine) == t.push((k, v)),
    decreases t.len(),
{
    if t.len() == 0 {
        assert(upsert(t, k, v, combine) =~= t.push((k, v)));
    } else {
        assert(forall|m: int| 0 <= m < t.drop_first().len() ==> t.drop_first()[m].0 != k);
        lemma_upsert_absent(t.drop_first(), k, v, combine);
        assert(upsert(t, k, v, combine) =~= t.push((k, v)));
    }
}

/// The value at the first entry for a key is the value recorded for it.
pub proof fn lemma_value_of_first<V>(t: Seq<(Seq<char>, V)>, k: Seq<char>, j: int)
    requires
        0 <= j < t.len(),
        t[j].0 == k,
        forall|m: int| 0 <= m < j ==> t[m].0 != k,
    ensures
        value_of(t, k) == Some(t[j].1),
    decreases j,
{
    if j > 0 {
        assert(forall|m: int| 0 <= m < j - 1 ==> t.drop_first()[m].0 != k);
        lemma_value_of_first(t.drop_first(), k, j - 1);
    }
}

/// A key carried by no entry has no value recorded.
pub proof fn lemma_value_of_absent<V>(t: Seq<(Seq<char>, V)>, k: Seq<char>)
    requires
        forall|m: int| 0 <= m < t.len() ==> t[m].0 != k,
    ensures
        value_of(t, k) == None::<V>,
    decreases t.len(),
{
    if t.len() > 0 {
        assert(forall|m: int| 0 <= m < t.drop_first().len() ==> t.drop_first()[m].0 != k);
        lemma_value_of_absent(t.drop_first(), k);
    }
}

// ---------------------------------------------------------------------------
// Lemmas about folds
// ---------------------------------------------------------------------------

proof fn lemma_has_key_drop_last<V>(s: Seq<(Seq<char>, V)>, q: Seq<char>)
    requires
        s.len() > 0,
    ensures
        has_key(s, q) <==> (has_key(s.drop_last(), q) || s.last().0 == q),
{
    if has_key(s, q) {
        let i = choose|i: int| 0 <= i < s.len() && s[i].0 == q;
        if i < s.len() - 1 {
            assert(s.drop_last()[i].0 == q);
            assert(has_key(s.drop_last(), q));
        }
    }
    if has_key(s.drop_last(), q) {
        let i = choose|i: int| 0 <= i < s.drop_last().len() && s.drop_last()[i].0 == q;
        assert(s[i].0 == q);
    }
    if s.last().0 == q {
        assert(s[s.len() - 1].0 == q);
    }
}

/// Folding pairs one sequence after the other is folding their concatenation.
pub proof fn lemma_fold_pairs_concat<V>(
    t: Seq<(Seq<char>, V)>,
    a: Seq<(Seq<char>, V)>,
    b: Seq<(Seq<char>, V)>,
    combine: spec_fn(V, V) -> V,
)
    ensures
        fold_pairs(t, a + b, combine) == fold_pairs(fold_pairs(t, a, combine), b, combine),
    decreases b.len(),
{
    if b.len() == 0 {
        assert(a + b =~= a);
    } else {
        lemma_fold_pairs_concat(t, a, b.drop_last(), combine);
        assert((a + b).drop_last() =~= a + b.drop_last());
        assert((a + b).last() == b.last());
    }
}

/// After a fold, exactly the old keys and the folded keys are present.
pub proof fn lemma_fold_pairs_has_key<V>(
    t: Seq<(Seq<char>, V)>,
    pairs: Seq<(Seq<char>, V)>,
    combine: spec_fn(V, V) -> V,
    q: Seq<char>,
)
    ensures
        has_key(fold_pairs(t, pairs, combine), q) <==> (has_key(t, q) || has_key(pairs, q)),
    decreases pairs.len(),
{
    if pairs.len() == 0 {
        if has_key(pairs, q) {
            let i = choose|i: int| 0 <= i < pairs.len() && pairs[i].0 == q;
            assert(false);
        }
    } else {
        lemma_fold_pairs_has_key(t, pairs.drop_last(), combine, q);
        lemma_upsert_has_key(
            fold_pairs(t, pairs.drop_last(), combine),
            pairs.last().0,
            pairs.last().1,
            combine,
            q,
        );
        lemma_has_key_drop_last(pairs, q);
    }
}

/// A fold keeps keys unique.
pub proof fn lemma_fold_pairs_keys_unique<V>(
    t: Seq<(Seq<char>, V)>,
    pairs: Seq<(Seq<char>, V)>,
    combine: spec_fn(V, V) -> V,
)
    requires
        keys_unique(t),
    ensures
        keys_unique(fold_pairs(t, pairs, combine)),
    decreases pairs.len(),
{
    if pairs.len() > 0 {
        lemma_fold_pairs_keys_unique(t, pairs.drop_last(), combine);
        lemma_upsert_keys_unique(
            fold_pairs(t, pairs.drop_last(), combine),
            pairs.last().0,
            pairs.last().1,
            combine,
        );
    }
}

/// Aggregation is additive: after a fold, the count recorded for a key is
/// its old count plus the total the folded pairs carry for it.
pub proof fn lemma_fold_counts_count_of(
    t: Seq<(Seq<char>, int)>,
    pairs: Seq<(Seq<char>, int)>,
    q: Seq<char>,
)
    ensures
        count_of(fold_counts(t, pairs), q) == count_of(t, q) + key_total(pairs, q),
    decreases pairs.len(),
{
    if pairs.len() > 0 {
        let prev = fold_pairs(t, pairs.drop_last(), add_values());
        lemma_fold_counts_count_of(t, pairs.drop_last(), q);
        lemma_upsert_value_of(prev, pairs.last().0, pairs.last().1, add_values(), q);
        assert(forall|a: int, b: int| #[trigger] add_values()(a, b) == a + b);
    }
}

/// After a fold of key/barcode pairs, a key is bound to the barcode of the
/// last pair that carried it, or keeps its old binding.
pub proof fn lemma_fold_barcodes_value_of(
    t: Seq<(Seq<char>, Seq<char>)>,
    pairs: Seq<(Seq<char>, Seq<char>)>,
    q: Seq<char>,
)
    ensures
        value_of(fold_barcodes(t, pairs), q) == match last_of(pairs, q) {
            Some(b) => Some(b),
            None => value_of(t, q),
        },
    decreases pairs.len(),
{
    if pairs.len() > 0 {
        let prev = fold_pairs(t, pairs.drop_last(), replace_value());
        lemma_fold_barcodes_value_of(t, pairs.drop_last(), q);
        lemma_upsert_value_of(prev, pairs.last().0, pairs.last().1, replace_value(), q);
        assert(forall|a: Seq<char>, b: Seq<char>| #[trigger] replace_value()(a, b) == b);
    }
}

/// A key total splits over concatenation.
pub proof fn lemma_key_total_concat(
    a: Seq<(Seq<char>, int)>,
    b: Seq<(Seq<char>, int)>,
    q: Seq<char>,
)
    ensures
        key_total(a + b, q) == key_total(a, q) + key_total(b, q),
    decreases b.len(),
{
    if b.len() == 0 {
        assert(a + b =~= a);
    } else {
        lemma_key_total_concat(a, b.drop_last(), q);
        assert((a + b).drop_last() =~= a + b.drop_last());
        assert((a + b).last() == b.last());
    }
}

/// Non-negative counts make every key total non-negative.
pub proof fn lemma_key_total_nonneg(pairs: Seq<(Seq<char>, int)>, q: Seq<char>)
    requires
        counts_nonneg(pairs),
    ensures
        key_total(pairs, q) >= 0,
    decreases pairs.len(),
{
    if pairs.len() > 0 {
        assert(counts_nonneg(pairs.drop_last()));
        lemma_key_total_nonneg(pairs.drop_last(), q);
        assert(pairs[pairs.len() - 1].1 >= 0);
    }
}

/// With non-negative counts, a prefix never carries more than the whole.
pub proof fn lemma_key_total_take_le(pairs: Seq<(Seq<char>, int)>, m: int, q: Seq<char>)
    requires
        counts_nonneg(pairs),
        0 <= m <= pairs.len(),
    ensures
        key_total(pairs.take(m), q) <= key_total(pairs, q),
{
    assert(pairs =~= pairs.take(m) + pairs.skip(m));
    lemma_key_total_concat(pairs.take(m), pairs.skip(m), q);
    assert(counts_nonneg(pairs.skip(m))) by {
        assert(forall|i: int|
            0 <= i < pairs.skip(m).len() ==> #[trigger] pairs.skip(m)[i] == pairs[i + m]);
    }
    lemma_key_total_nonneg(pairs.skip(m), q);
}

// ---------------------------------------------------------------------------
// Executable accumulators
// ---------------------------------------------------------------------------

/// Run-wide mapping from a key (sample id or undetermined barcode) to its
/// accumulated read count, in first-seen order.
pub struct CountTable {
    entries: Vec<(String, u64)>,
}

impl View for CountTable {
    type V = Seq<(Seq<char>, int)>;

    closed spec fn view(&self) -> Seq<(Seq<char>, int)> {
        pairs_of(self.entries@)
    }
}

impl CountTable {
    /// Keys never repeat.
    pub open spec fn wf(&self) -> bool {
        keys_unique(self@)
    }

    pub fn new() -> (r: CountTable)
        ensures
            r@ == Seq::<(Seq<char>, int)>::empty(),
            r.wf(),
    {
        let r = CountTable { entries: Vec::new() };
        proof {
            assert(r@ =~= Seq::<(Seq<char>, int)>::empty());
        }
        r
    }

    /// Number of distinct keys recorded.
    pub fn len(&self) -> (n: usize)
        ensures
            n == self@.len(),
    {
        self.entries.len()
    }

    /// The key and count stored at position `i`.
    pub fn entry_at(&self, i: usize) -> (r: (&String, u64))
        requires
            i < self@.len(),
        ensures
            r.0@ == self@[i as int].0,
            r.1 as int == self@[i as int].1,
    {
        let p = &self.entries[i];
        (&p.0, p.1)
    }

    /// Count accumulated for `key`, if the key was ever recorded.
    pub fn get(&self, key: &String) -> (r: Option<u64>)
        ensures
            match r {
                Some(c) => has_key(self@, key@) && c as int == count_of(self@, key@),
                None => !has_key(self@, key@),
            },
    {
        let n = self.entries.len();
        let mut j: usize = 0;
        while j < n
            invariant
                n == self.entries@.len(),
                j <= n,
                forall|m: int| 0 <= m < j ==> self@[m].0 != key@,
            decreases n - j,
        {
            if self.entries[j].0 == *key {
                proof {
                    assert(self@[j as int].0 == key@);
                    lemma_value_of_first(self@, key@, j as int);
                }
                return Some(self.entries[j].1);
            }
            j += 1;
        }
        proof {
            if has_key(self@, key@) {
                let i = choose|i: int| 0 <= i < self@.len() && self@[i].0 == key@;
                assert(false);
            }
        }
        None
    }

    /// Add `read_count` to the count recorded for `key`, starting from
    /// `read_count` itself when the key is new.
    pub fn add(&mut self, key: &String, read_count: u64)
        requires
            count_of(old(self)@, key@) + read_count <= u64::MAX,
        ensures
            final(self)@ == bump(old(self)@, key@, read_count as int),
    {
        let ghost t0 = self@;
        let n = self.entries.len();
        let mut j: usize = 0;
        while j < n
            invariant
                t0 == old(self)@,
                n == self.entries@.len(),
                self@ == t0,
                j <= n,
                forall|m: int| 0 <= m < j ==> t0[m].0 != key@,
                count_of(t0, key@) + read_count <= u64::MAX,
            decreases n - j,
        {
            if self.entries[j].0 == *key {
                proof {
                    assert(t0[j as int].0 == key@);
                    lemma_value_of_first(t0, key@, j as int);
                }
                let c = self.entries[j].1;
                self.entries[j] = (key.clone(), c + read_count);
                proof {
                    lemma_upsert_found(t0, key@, read_count as int, add_values(), j as int);
                    assert(add_values()(t0[j as int].1, read_count as int) == t0[j as int].1
                        + read_count);
                    assert(self@ =~= t0.update(j as int, (key@, t0[j as int].1 + read_count)));
                }
                return ;
            }
            j += 1;
        }
        self.entries.push((key.clone(), read_count));
        proof {
            lemma_upsert_absent(t0, key@, read_count as int, add_values());
            assert(self@ =~= t0.push((key@, read_count as int)));
        }
    }
}

/// Run-wide mapping from a sample id to the barcode last reported for it,
/// in first-seen order.
pub struct BarcodeTable {
    entries: Vec<(String, String)>,
}

impl View for BarcodeTable {
    type V = Seq<(Seq<char>, Seq<char>)>;

    closed spec fn view(&self) -> Seq<(Seq<char>, Seq<char>)> {
        self.entries@.map(|i: int, p: (String, String)| (p.0@, p.1@))
    }
}

impl BarcodeTable {
    /// Keys never repeat.
    pub open spec fn wf(&self) -> bool {
        keys_unique(self@)
    }

    pub fn new() -> (r: BarcodeTable)
        ensures
            r@ == Seq::<(Seq<char>, Seq<char>)>::empty(),
            r.wf(),
    {
        let r = BarcodeTable { entries: Vec::new() };
        proof {
            assert(r@ =~= Seq::<(Seq<char>, Seq<char>)>::empty());
        }
        r
    }

    /// Number of distinct sample ids recorded.
    pub fn len(&self) -> (n: usize)
        ensures
            n == self@.len(),
    {
        self.entries.len()
    }

    /// The sample id and barcode stored at position `i`.
    pub fn entry_at(&self, i: usize) -> (r: (&String, &String))
        requires
            i < self@.len(),
        ensures
            r.0@ == self@[i as int].0,
            r.1@ == self@[i as int].1,
    {
        let p = &self.entries[i];
        (&p.0, &p.1)
    }

    /// Barcode recorded for `key`, if any.
    pub fn get(&self, key: &String) -> (r: Option<&String>)
        ensures
            match r {
                Some(b) => value_of(self@, key@) == Some(b@),
                None => value_of(self@, key@) == None::<Seq<char>>,
            },
    {
        let n = self.entries.len();
        let mut j: usize = 0;
        while j < n
            invariant
                n == self.entries@.len(),
                j <= n,
                forall|m: int| 0 <= m < j ==> self@[m].0 != key@,
            decreases n - j,
        {
            if self.entries[j].0 == *key {
                proof {
                    assert(self@[j as int].0 == key@);
                    lemma_value_of_first(self@, key@, j as int);
                }
                return Some(&self.entries[j].1);
            }
            j += 1;
        }
        proof {
            lemma_value_of_absent(self@, key@);
        }
        None
    }

    /// Bind `key` to `barcode`; a later binding for the same key wins.
    pub fn set(&mut self, key: &String, barcode: &String)
        ensures
            final(self)@ == upsert(old(self)@, key@, barcode@, replace_value()),
    {
        let ghost t0 = self@;
        let n = self.entries.len();
        let mut j: usize = 0;
        while j < n
            invariant
                t0 == old(self)@,
                n == self.entries@.len(),
                self@ == t0,
                j <= n,
                forall|m: int| 0 <= m < j ==> t0[m].0 != key@,
            decreases n - j,
        {
            if self.entries[j].0 == *key {
                proof {
                    assert(t0[j as int].0 == key@);
                }
                self.entries[j] = (key.clone(), barcode.clone());
                proof {
                    lemma_upsert_found(t0, key@, barcode@, replace_value(), j as int);
                    assert(replace_value()(t0[j as int].1, barcode@) == barcode@);
                    assert(self@ =~= t0.update(j as int, (key@, barcode@)));
                }
                return ;
            }
            j += 1;
        }
        self.entries.push((key.clone(), barcode.clone()));
        proof {
            lemma_upsert_absent(t0, key@, barcode@, replace_value());
            assert(self@ =~= t0.push((key@, barcode@)));
        }
    }
}

// ---------------------------------------------------------------------------
// Folding one lane into the run-wide tables
// ---------------------------------------------------------------------------

/// Fold one lane's demultiplexed sample records into the run-wide tables:
/// each record adds its read count to its sample's total and binds the
/// sample id to the record's first index barcode, a later record winning.
/// Cannot fail; the `Result` mirrors the shape of the report pipeline.
pub fn collect_lane_barcode_count(
    conversion_result: &ConversionResult,
    barcode_counter: &mut CountTable,
    barcode_list: &mut BarcodeTable,
) -> (r: Result<(), StatsError>)
    requires
        forall|m: int|
            0 <= m < conversion_result.DemuxResults@.len()
                ==> #[trigger] conversion_result.DemuxResults@[m].IndexMetrics@.len() >= 1,
        forall|k: Seq<char>|
            count_of(old(barcode_counter)@, k) + #[trigger] key_total(
                sample_count_pairs(conversion_result.DemuxResults@),
                k,
            ) <= u64::MAX,
    ensures
        final(barcode_counter)@ == fold_counts(
            old(barcode_counter)@,
            sample_count_pairs(conversion_result.DemuxResults@),
        ),
        final(barcode_list)@ == fold_barcodes(
            old(barcode_list)@,
            sample_barcode_pairs(conversion_result.DemuxResults@),
        ),
        old(barcode_counter).wf() ==> final(barcode_counter).wf(),
        old(barcode_list).wf() ==> final(barcode_list).wf(),
        r == Ok::<(), StatsError>(()),
{
    let recs = &conversion_result.DemuxResults;
    let ghost scp = sample_count_pairs(recs@);
    let ghost sbp = sample_barcode_pairs(recs@);
    let ghost c0 = barcode_counter@;
    let ghost l0 = barcode_list@;
    proof {
        assert(forall|m: int| 0 <= m < scp.len() ==> 0 <= #[trigger] scp[m].1);
    }
    let n = recs.len();
    let mut i: usize = 0;
    while i < n
        invariant
            c0 == old(barcode_counter)@,
            l0 == old(barcode_list)@,
            recs == &conversion_result.DemuxResults,
            n == recs@.len(),
            i <= n,
            scp == sample_count_pairs(recs@),
            sbp == sample_barcode_pairs(recs@),
            counts_nonneg(scp),
            forall|m: int| 0 <= m < n ==> #[trigger] recs@[m].IndexMetrics@.len() >= 1,
            forall|k: Seq<char>|
                count_of(c0, k) + #[trigger] key_total(scp, k) <= u64::MAX,
            barcode_counter@ == fold_counts(c0, scp.take(i as int)),
            barcode_list@ == fold_barcodes(l0, sbp.take(i as int)),
        decreases n - i,
    {
        let rec = &recs[i];
        let sample_id = &rec.SampleId;
        let barcode = &rec.IndexMetrics[0].IndexSequence;
        let read_count = rec.NumberReads;
        proof {
            assert(scp[i as int] == (sample_id@, read_count as int));
            assert(sbp[i as int] == (sample_id@, barcode@));
            assert(scp.take(i + 1).drop_last() =~= scp.take(i as int));
            assert(scp.take(i + 1).last() == scp[i as int]);
            assert(sbp.take(i + 1).drop_last() =~= sbp.take(i as int));
            assert(sbp.take(i + 1).last() == sbp[i as int]);
            lemma_fold_counts_count_of(c0, scp.take(i as int), sample_id@);
            lemma_key_total_take_le(scp, i + 1, sample_id@);
            assert(count_of(c0, sample_id@) + key_total(scp, sample_id@) <= u64::MAX);
        }
        barcode_counter.add(sample_id, read_count);
        barcode_list.set(sample_id, barcode);
        proof {
            assert(barcode_counter@ == fold_counts(c0, scp.take(i + 1)));
            assert(barcode_list@ == fold_barcodes(l0, sbp.take(i + 1)));
        }
        i += 1;
    }
    proof {
        assert(scp.take(n as int) =~= scp);
        assert(sbp.take(n as int) =~= sbp);
        if keys_unique(c0) {
            lemma_fold_pairs_keys_unique(c0, scp, add_values());
        }
        if keys_unique(l0) {
            lemma_fold_pairs_keys_unique(l0, sbp, replace_value());
        }
    }
    Ok(())
}

/// Fold one lane's undetermined-barcode counts into the run-wide table:
/// each entry adds its read count to the total for that exact barcode
/// string.
pub fn collect_lane_undetermined_barcode(
    unknown_barcode_lane: &UnknownBarcode,
    undetermined_barcode_counter: &mut CountTable,
)
    requires
        forall|k: Seq<char>|
            count_of(old(undetermined_barcode_counter)@, k) + #[trigger] key_total(
                pairs_of(unknown_barcode_lane.Barcodes@),
                k,
            ) <= u64::MAX,
    ensures
        final(undetermined_barcode_counter)@ == fold_counts(
            old(undetermined_barcode_counter)@,
            pairs_of(unknown_barcode_lane.Barcodes@),
        ),
        old(undetermined_barcode_counter).wf() ==> final(undetermined_barcode_counter).wf(),
{
    let bcs = &unknown_barcode_lane.Barcodes;
    let ghost ps = pairs_of(bcs@);
    let ghost c0 = undetermined_barcode_counter@;
    proof {
        assert(forall|m: int| 0 <= m < ps.len() ==> 0 <= #[trigger] ps[m].1);
    }
    let n = bcs.len();
    let mut i: usize = 0;
    while i < n
        invariant
            c0 == old(undetermined_barcode_counter)@,
            bcs == &unknown_barcode_lane.Barcodes,
            n == bcs@.len(),
            i <= n,
            ps == pairs_of(bcs@),
            counts_nonneg(ps),
            forall|k: Seq<char>| count_of(c0, k) + #[trigger] key_total(ps, k) <= u64::MAX,
            undetermined_barcode_counter@ == fold_counts(c0, ps.take(i as int)),
        decreases n - i,
    {
        let entry = &bcs[i];
        proof {
            assert(ps[i as int] == (entry.0@, entry.1 as int));
            assert(ps.take(i + 1).drop_last() =~= ps.take(i as int));
            assert(ps.take(i + 1).last() == ps[i as int]);
            lemma_fold_counts_count_of(c0, ps.take(i as int), entry.0@);
            lemma_key_total_take_le(ps, i + 1, entry.0@);
            assert(count_of(c0, entry.0@) + key_total(ps, entry.0@) <= u64::MAX);
        }
        undetermined_barcode_counter.add(&entry.0, entry.1);
        proof {
            assert(undetermined_barcode_counter@ == fold_counts(c0, ps.take(i + 1)));
        }
        i += 1;
    }
    proof {
        assert(ps.take(n as int) =~= ps);
        if keys_unique(c0) {
            lemma_fold_pairs_keys_unique(c0, ps, add_values());
        }
    }
}

// ---------------------------------------------------------------------------
// Laws of aggregation
// ---------------------------------------------------------------------------

/// The view of a sequence of strings.
pub open spec fn strings_view(s: Seq<String>) -> Seq<Seq<char>> {
    s.map(|i: int, x: String| x@)
}

/// A key has a value recorded exactly when it is present.
pub proof fn lemma_value_of_has_key<V>(t: Seq<(Seq<char>, V)>, k: Seq<char>)
    ensures
        value_of(t, k) is Some <==> has_key(t, k),
    decreases t.len(),
{
    if t.len() == 0 {
        if has_key(t, k) {
            let i = choose|i: int| 0 <= i < t.len() && t[i].0 == k;
            assert(false);
        }
    } else if t[0].0 == k {
        assert(t[0].0 == k);
    } else {
        lemma_value_of_has_key(t.drop_first(), k);
        lemma_has_key_unfold(t, k);
    }
}

/// Count aggregation is order-independent: folding two lanes' pairs in
/// either order yields the same counts and the same keys.
pub proof fn lemma_fold_counts_commute(
    t: Seq<(Seq<char>, int)>,
    a: Seq<(Seq<char>, int)>,
    b: Seq<(Seq<char>, int)>,
    q: Seq<char>,
)
    ensures
        count_of(fold_counts(fold_counts(t, a), b), q) == count_of(
            fold_counts(fold_counts(t, b), a),
            q,
        ),
        has_key(fold_counts(fold_counts(t, a), b), q) <==> has_key(
            fold_counts(fold_counts(t, b), a),
            q,
        ),
{
    lemma_fold_counts_count_of(t, a, q);
    lemma_fold_counts_count_of(fold_counts(t, a), b, q);
    lemma_fold_counts_count_of(t, b, q);
    lemma_fold_counts_count_of(fold_counts(t, b), a, q);
    lemma_fold_pairs_has_key(t, a, add_values(), q);
    lemma_fold_pairs_has_key(fold_counts(t, a), b, add_values(), q);
    lemma_fold_pairs_has_key(t, b, add_values(), q);
    lemma_fold_pairs_has_key(fold_counts(t, b), a, add_values(), q);
}

/// Two pair sequences agree when they never carry different barcodes for
/// one key.
pub open spec fn pairs_agree(
    a: Seq<(Seq<char>, Seq<char>)>,
    b: Seq<(Seq<char>, Seq<char>)>,
) -> bool {
    forall|i: int, j: int|
        0 <= i < a.len() && 0 <= j < b.len() && (#[trigger] a[i]).0 == (#[trigger] b[j]).0
            ==> a[i].1 == b[j].1
}

/// A last-recorded barcode is carried by some pair for that key.
proof fn lemma_last_of_index(pairs: Seq<(Seq<char>, Seq<char>)>, k: Seq<char>)
    ensures
        last_of(pairs, k) matches Some(v) ==> exists|i: int|
            0 <= i < pairs.len() && (#[trigger] pairs[i]).0 == k && pairs[i].1 == v,
    decreases pairs.len(),
{
    if pairs.len() > 0 {
        if pairs.last().0 == k {
            assert(pairs[pairs.len() - 1].0 == k);
        } else {
            lemma_last_of_index(pairs.drop_last(), k);
            match last_of(pairs, k) {
                Some(v) => {
                    let i = choose|i: int|
                        0 <= i < pairs.drop_last().len() && (#[trigger] pairs.drop_last()[i]).0
                            == k && pairs.drop_last()[i].1 == v;
                    assert(pairs[i].0 == k && pairs[i].1 == v);
                },
                None => {},
            }
        }
    }
}

/// Barcode aggregation is order-independent whenever the lanes agree on
/// each sample's barcode, as one run's lanes do.
pub proof fn lemma_fold_barcodes_commute(
    t: Seq<(Seq<char>, Seq<char>)>,
    a: Seq<(Seq<char>, Seq<char>)>,
    b: Seq<(Seq<char>, Seq<char>)>,
    q: Seq<char>,
)
    requires
        pairs_agree(a, b),
    ensures
        value_of(fold_barcodes(fold_barcodes(t, a), b), q) == value_of(
            fold_barcodes(fold_barcodes(t, b), a),
            q,
        ),
{
    lemma_fold_barcodes_value_of(t, a, q);
    lemma_fold_barcodes_value_of(fold_barcodes(t, a), b, q);
    lemma_fold_barcodes_value_of(t, b, q);
    lemma_fold_barcodes_value_of(fold_barcodes(t, b), a, q);
    lemma_last_of_index(a, q);
    lemma_last_of_index(b, q);
}

/// Folding two whole lanes in either order yields the same mappings:
/// the same counts and keys always, and the same barcode bindings whenever
/// the two lanes agree on each sample's barcode, as one run's lanes do.
pub proof fn lemma_lanes_order_independent(
    counts: Seq<(Seq<char>, int)>,
    barcodes: Seq<(Seq<char>, Seq<char>)>,
    lane_a: ConversionResult,
    lane_b: ConversionResult,
    q: Seq<char>,
)
    requires
        pairs_agree(
            sample_barcode_pairs(lane_a.DemuxResults@),
            sample_barcode_pairs(lane_b.DemuxResults@),
        ),
    ensures
        count_of(
            fold_counts(
                fold_counts(counts, sample_count_pairs(lane_a.DemuxResults@)),
                sample_count_pairs(lane_b.DemuxResults@),
            ),
            q,
        ) == count_of(
            fold_counts(
                fold_counts(counts, sample_count_pairs(lane_b.DemuxResults@)),
                sample_count_pairs(lane_a.DemuxResults@),
            ),
            q,
        ),
        has_key(
            fold_counts(
                fold_counts(counts, sample_count_pairs(lane_a.DemuxResults@)),
                sample_count_pairs(lane_b.DemuxResults@),
            ),
            q,
        ) <==> has_key(
            fold_counts(
                fold_counts(counts, sample_count_pairs(lane_b.DemuxResults@)),
                sample_count_pairs(lane_a.DemuxResults@),
            ),
            q,
        ),
        value_of(
            fold_barcodes(
                fold_barcodes(barcodes, sample_barcode_pairs(lane_a.DemuxResults@)),
                sample_barcode_pairs(lane_b.DemuxResults@),
            ),
            q,
        ) == value_of(
            fold_barcodes(
                fold_barcodes(barcodes, sample_barcode_pairs(lane_b.DemuxResults@)),
                sample_barcode_pairs(lane_a.DemuxResults@),
            ),
            q,
        ),
{
    lemma_fold_counts_commute(
        counts,
        sample_count_pairs(lane_a.DemuxResults@),
        sample_count_pairs(lane_b.DemuxResults@),
        q,
    );
    lemma_fold_barcodes_commute(
        barcodes,
        sample_barcode_pairs(lane_a.DemuxResults@),
        sample_barcode_pairs(lane_b.DemuxResults@),
        q,
    );
}

/// Fold one run's lanes into a count table, lane by lane.
pub open spec fn fold_lanes(
    t: Seq<(Seq<char>, int)>,
    lanes: Seq<Seq<(Seq<char>, int)>>,
) -> Seq<(Seq<char>, int)>
    decreases lanes.len(),
{
    if lanes.len() == 0 {
        t
    } else {
        fold_counts(fold_lanes(t, lanes.drop_last()), lanes.last())
    }
}

/// Sum over the lanes of the count each lane carries for `k`.
pub open spec fn lanes_key_total(lanes: Seq<Seq<(Seq<char>, int)>>, k: Seq<char>) -> int
    decreases lanes.len(),
{
    if lanes.len() == 0 {
        0
    } else {
        lanes_key_total(lanes.drop_last(), k) + key_total(lanes.last(), k)
    }
}

/// Aggregation is additive across a whole run: after folding any number of
/// lanes, the count recorded for a key is its starting count plus the sum
/// of that key's per-lane totals.
pub proof fn lemma_fold_lanes_additive(
    t: Seq<(Seq<char>, int)>,
    lanes: Seq<Seq<(Seq<char>, int)>>,
    k: Seq<char>,
)
    ensures
        count_of(fold_lanes(t, lanes), k) == count_of(t, k) + lanes_key_total(lanes, k),
    decreases lanes.len(),
{
    if lanes.len() > 0 {
        lemma_fold_lanes_additive(t, lanes.drop_last(), k);
        lemma_fold_counts_count_of(fold_lanes(t, lanes.drop_last()), lanes.last(), k);
    }
}

/// Sum of every count that `pairs` carries.
pub open spec fn pairs_sum(pairs: Seq<(Seq<char>, int)>) -> int
    decreases pairs.len(),
{
    if pairs.len() == 0 {
        0
    } else {
        pairs_sum(pairs.drop_last()) + pairs.last().1
    }
}

/// A pairs sum splits over concatenation.
pub proof fn lemma_pairs_sum_concat(
    a: Seq<(Seq<char>, int)>,
    b: Seq<(Seq<char>, int)>,
)
    ensures
        pairs_sum(a + b) == pairs_sum(a) + pairs_sum(b),
    decreases b.len(),
{
    if b.len() == 0 {
        assert(a + b =~= a);
    } else {
        lemma_pairs_sum_concat(a, b.drop_last());
        assert((a + b).drop_last() =~= a + b.drop_last());
        assert((a + b).last() == b.last());
    }
}

/// With non-negative counts, no key's total exceeds the sum of all counts.
pub proof fn lemma_key_total_le_sum(pairs: Seq<(Seq<char>, int)>, k: Seq<char>)
    requires
        counts_nonneg(pairs),
    ensures
        key_total(pairs, k) <= pairs_sum(pairs),
    decreases pairs.len(),
{
    if pairs.len() > 0 {
        assert(counts_nonneg(pairs.drop_last()));
        lemma_key_total_le_sum(pairs.drop_last(), k);
        assert(pairs[pairs.len() - 1].1 >= 0);
    }
}

/// Non-negative counts make every pairs sum non-negative.
pub proof fn lemma_pairs_sum_nonneg(pairs: Seq<(Seq<char>, int)>)
    requires
        counts_nonneg(pairs),
    ensures
        pairs_sum(pairs) >= 0,
    decreases pairs.len(),
{
    if pairs.len() > 0 {
        assert(counts_nonneg(pairs.drop_last()));
        lemma_pairs_sum_nonneg(pairs.drop_last());
        assert(pairs[pairs.len() - 1].1 >= 0);
    }
}

/// With non-negative counts, a prefix never sums to more than the whole.
pub proof fn lemma_pairs_sum_take_le(pairs: Seq<(Seq<char>, int)>, m: int)
    requires
        counts_nonneg(pairs),
        0 <= m <= pairs.len(),
    ensures
        pairs_sum(pairs.take(m)) <= pairs_sum(pairs),
{
    assert(pairs =~= pairs.take(m) + pairs.skip(m));
    lemma_pairs_sum_concat(pairs.take(m), pairs.skip(m));
    assert(counts_nonneg(pairs.skip(m))) by {
        assert(forall|i: int|
            0 <= i < pairs.skip(m).len() ==> #[trigger] pairs.skip(m)[i] == pairs[i + m]);
    }
    lemma_pairs_sum_nonneg(pairs.skip(m));
}

} // verus!
