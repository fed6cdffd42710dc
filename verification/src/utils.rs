//! Ranking: sorting an aggregate table by descending count, and truncating
//! a ranked sequence to a fixed number of rows.
//!
//! The sort is stable — entries with equal counts keep the order they had in
//! the table, which is first-seen order — so the ranked output is a total,
//! deterministic order for any given input.

use vstd::prelude::*;

verus! {

use crate::StatsError;
use crate::aggregate::{CountTable, has_key, pairs_of};

/// Place `x` after every entry whose count is at least as large.
pub open spec fn insert_desc(t: Seq<(Seq<char>, int)>, x: (Seq<char>, int)) -> Seq<
    (Seq<char>, int),
>
    decreases t.len(),
{
    if t.len() == 0 {
        seq![x]
    } else if t[0].1 >= x.1 {
        seq![t[0]] + insert_desc(t.drop_first(), x)
    } else {
        seq![x] + t
    }
}

/// Stable insertion sort by descending count, earliest entry first.
pub open spec fn sort_desc(s: Seq<(Seq<char>, int)>) -> Seq<(Seq<char>, int)>
    decreases s.len(),
{
    if s.len() == 0 {
        s
    } else {
        insert_desc(sort_desc(s.drop_last()), s.last())
    }
}

/// Counts never increase along the sequence.
pub open spec fn sorted_desc(s: Seq<(Seq<char>, int)>) -> bool {
    forall|i: int, j: int| 0 <= i < j < s.len() ==> s[i].1 >= s[j].1
}

/// The entries carrying count `c`, in order.
pub open spec fn entries_with_count(s: Seq<(Seq<char>, int)>, c: int) -> Seq<(Seq<char>, int)> {
    s.filter(|p: (Seq<char>, int)| p.1 == c)
}

/// Inserting at the boundary position is what `insert_desc` does.
proof fn lemma_insert_desc_at(t: Seq<(Seq<char>, int)>, x: (Seq<char>, int), p: int)
    requires
        0 <= p <= t.len(),
        forall|m: int| 0 <= m < p ==> t[m].1 >= x.1,
        p < t.len() ==> t[p].1 < x.1,
    ensures
        insert_desc(t, x) == t.insert(p, x),
    decreases t.len(),
{
    if t.len() == 0 {
        assert(insert_desc(t, x) =~= t.insert(0, x));
    } else if t[0].1 >= x.1 {
        assert(p > 0);
        assert(forall|m: int| 0 <= m < p - 1 ==> t.drop_first()[m].1 >= x.1);
        assert(p - 1 < t.drop_first().len() ==> t.drop_first()[p - 1].1 < x.1);
        lemma_insert_desc_at(t.drop_first(), x, p - 1);
        assert(insert_desc(t, x) =~= t.insert(p, x));
    } else {
        assert(p == 0);
        assert(insert_desc(t, x) =~= t.insert(0, x));
    }
}

/// An insertion adds one entry.
proof fn lemma_insert_desc_len(t: Seq<(Seq<char>, int)>, x: (Seq<char>, int))
    ensures
        insert_desc(t, x).len() == t.len() + 1,
    decreases t.len(),
{
    if t.len() > 0 && t[0].1 >= x.1 {
        lemma_insert_desc_len(t.drop_first(), x);
    }
}

/// An insertion adds exactly the inserted entry.
proof fn lemma_insert_desc_multiset(t: Seq<(Seq<char>, int)>, x: (Seq<char>, int))
    ensures
        insert_desc(t, x).to_multiset() == t.to_multiset().insert(x),
    decreases t.len(),
{
    broadcast use vstd::seq_lib::group_to_multiset_ensures;

    if t.len() == 0 {
        assert(insert_desc(t, x) =~= t.push(x));
    } else if t[0].1 >= x.1 {
        lemma_insert_desc_multiset(t.drop_first(), x);
        let rest = insert_desc(t.drop_first(), x);
        vstd::seq_lib::lemma_multiset_commutative(seq![t[0]], rest);
        vstd::seq_lib::lemma_multiset_commutative(seq![t[0]], t.drop_first());
        assert(t =~= seq![t[0]] + t.drop_first());
        assert(insert_desc(t, x).to_multiset() =~= t.to_multiset().insert(x));
    } else {
        vstd::seq_lib::lemma_multiset_commutative(seq![x], t);
        assert(seq![x] =~= Seq::<(Seq<char>, int)>::empty().push(x));
        assert(insert_desc(t, x).to_multiset() =~= t.to_multiset().insert(x));
    }
}

/// Entries of an insertion stay below any bound that covers `t` and `x`.
proof fn lemma_insert_desc_bound(t: Seq<(Seq<char>, int)>, x: (Seq<char>, int), b: int)
    requires
        forall|i: int| 0 <= i < t.len() ==> #[trigger] t[i].1 <= b,
        x.1 <= b,
    ensures
        forall|i: int| 0 <= i < insert_desc(t, x).len() ==> #[trigger] insert_desc(t, x)[i].1 <= b,
    decreases t.len(),
{
    if t.len() == 0 {
    } else if t[0].1 >= x.1 {
        assert(forall|i: int| 0 <= i < t.drop_first().len() ==> #[trigger] t.drop_first()[i].1 <= b);
        lemma_insert_desc_bound(t.drop_first(), x, b);
        let u = insert_desc(t, x);
        let rest = insert_desc(t.drop_first(), x);
        assert(forall|i: int| 1 <= i < u.len() ==> u[i] == rest[i - 1]);
    } else {
        let u = insert_desc(t, x);
        assert(forall|i: int| 1 <= i < u.len() ==> u[i] == t[i - 1]);
    }
}

/// Inserting into a ranked sequence keeps it ranked.
proof fn lemma_insert_desc_sorted(t: Seq<(Seq<char>, int)>, x: (Seq<char>, int))
    requires
        sorted_desc(t),
    ensures
        sorted_desc(insert_desc(t, x)),
    decreases t.len(),
{
    let u = insert_desc(t, x);
    if t.len() == 0 {
    } else if t[0].1 >= x.1 {
        assert(sorted_desc(t.drop_first()));
        lemma_insert_desc_sorted(t.drop_first(), x);
        let rest = insert_desc(t.drop_first(), x);
        assert(forall|i: int|
            0 <= i < t.drop_first().len() ==> #[trigger] t.drop_first()[i].1 <= t[0].1);
        lemma_insert_desc_bound(t.drop_first(), x, t[0].1);
        assert(forall|i: int| 1 <= i < u.len() ==> u[i] == rest[i - 1]);
        assert(u[0] == t[0]);
        assert forall|i: int, j: int| 0 <= i < j < u.len() implies u[i].1 >= u[j].1 by {
            if i > 0 {
                assert(rest[i - 1].1 >= rest[j - 1].1);
            } else {
                assert(rest[j - 1].1 <= t[0].1);
            }
        }
    } else {
        assert(forall|i: int| 1 <= i < u.len() ==> u[i] == t[i - 1]);
        assert forall|i: int, j: int| 0 <= i < j < u.len() implies u[i].1 >= u[j].1 by {
            if i == 0 {
                if j > 1 {
                    assert(t[0].1 >= t[j - 1].1);
                }
            }
        }
    }
}

/// No entry carries `c`: filtering for `c` leaves nothing.
proof fn lemma_filter_count_empty(t: Seq<(Seq<char>, int)>, c: int)
    requires
        forall|i: int| 0 <= i < t.len() ==> #[trigger] t[i].1 != c,
    ensures
        entries_with_count(t, c) == Seq::<(Seq<char>, int)>::empty(),
    decreases t.len(),
{
    reveal_with_fuel(Seq::<(Seq<char>, int)>::filter, 2);
    if t.len() > 0 {
        assert(forall|i: int| 0 <= i < t.drop_last().len() ==> #[trigger] t.drop_last()[i].1 != c);
        lemma_filter_count_empty(t.drop_last(), c);
        assert(t.last().1 != c);
    }
}

/// Every entry carries `c`: filtering for `c` keeps everything.
proof fn lemma_filter_count_all(t: Seq<(Seq<char>, int)>, c: int)
    requires
        forall|i: int| 0 <= i < t.len() ==> #[trigger] t[i].1 == c,
    ensures
        entries_with_count(t, c) == t,
    decreases t.len(),
{
    reveal_with_fuel(Seq::<(Seq<char>, int)>::filter, 2);
    if t.len() > 0 {
        assert(forall|i: int| 0 <= i < t.drop_last().len() ==> #[trigger] t.drop_last()[i].1 == c);
        lemma_filter_count_all(t.drop_last(), c);
        assert(t.last().1 == c);
        assert(entries_with_count(t, c) =~= t.drop_last().push(t.last()));
        assert(t.drop_last().push(t.last()) =~= t);
    }
}

/// Inserting into a ranked sequence appends to its entries for the inserted
/// count and leaves every other count class unchanged.
proof fn lemma_insert_desc_filter(t: Seq<(Seq<char>, int)>, x: (Seq<char>, int), c: int)
    requires
        sorted_desc(t),
    ensures
        x.1 == c ==> entries_with_count(insert_desc(t, x), c) == entries_with_count(t, c).push(x),
        x.1 != c ==> entries_with_count(insert_desc(t, x), c) == entries_with_count(t, c),
    decreases t.len(),
{
    broadcast use vstd::seq_lib::group_filter_ensures;

    reveal_with_fuel(Seq::<(Seq<char>, int)>::filter, 2);
    let pred = |p: (Seq<char>, int)| p.1 == c;
    let u = insert_desc(t, x);
    if t.len() == 0 {
        assert(u =~= Seq::<(Seq<char>, int)>::empty().push(x));
        assert(entries_with_count(Seq::<(Seq<char>, int)>::empty(), c) =~= Seq::<
            (Seq<char>, int),
        >::empty());
    } else if t[0].1 >= x.1 {
        assert(sorted_desc(t.drop_first()));
        lemma_insert_desc_filter(t.drop_first(), x, c);
        let rest = insert_desc(t.drop_first(), x);
        assert(u == seq![t[0]] + rest);
        Seq::filter_distributes_over_add(seq![t[0]], rest, pred);
        Seq::filter_distributes_over_add(seq![t[0]], t.drop_first(), pred);
        assert(t =~= seq![t[0]] + t.drop_first());
        if x.1 == c {
            assert(entries_with_count(u, c) =~= entries_with_count(t, c).push(x));
        } else {
            assert(entries_with_count(u, c) =~= entries_with_count(t, c));
        }
    } else {
        assert(u == seq![x] + t);
        Seq::filter_distributes_over_add(seq![x], t, pred);
        if x.1 == c {
            assert(forall|i: int| 0 <= i < t.len() ==> #[trigger] t[i].1 <= t[0].1);
            assert(forall|i: int| 0 <= i < t.len() ==> #[trigger] t[i].1 != c);
            lemma_filter_count_empty(t, c);
            assert(seq![x].filter(pred) =~= Seq::<(Seq<char>, int)>::empty().push(x));
            assert(entries_with_count(u, c) =~= entries_with_count(t, c).push(x));
        } else {
            assert(seq![x].filter(pred) =~= Seq::<(Seq<char>, int)>::empty());
            assert(entries_with_count(u, c) =~= entries_with_count(t, c));
        }
    }
}

/// Ranking yields a sequence ordered by descending count.
pub proof fn lemma_sort_desc_sorted(s: Seq<(Seq<char>, int)>)
    ensures
        sorted_desc(sort_desc(s)),
    decreases s.len(),
{
    if s.len() > 0 {
        lemma_sort_desc_sorted(s.drop_last());
        lemma_insert_desc_sorted(sort_desc(s.drop_last()), s.last());
    }
}

/// Ranking yields a permutation: every entry appears exactly as often as in
/// the input, so in particular no entry is lost or invented.
pub proof fn lemma_sort_desc_multiset(s: Seq<(Seq<char>, int)>)
    ensures
        sort_desc(s).to_multiset() == s.to_multiset(),
        sort_desc(s).len() == s.len(),
    decreases s.len(),
{
    broadcast use vstd::seq_lib::group_to_multiset_ensures;

    if s.len() > 0 {
        lemma_sort_desc_multiset(s.drop_last());
        lemma_insert_desc_multiset(sort_desc(s.drop_last()), s.last());
        lemma_insert_desc_len(sort_desc(s.drop_last()), s.last());
        assert(s =~= s.drop_last().push(s.last()));
    }
}

/// Ranking is stable: the entries carrying any one count keep the relative
/// order they had in the input.
pub proof fn lemma_sort_desc_stable(s: Seq<(Seq<char>, int)>, c: int)
    ensures
        entries_with_count(sort_desc(s), c) == entries_with_count(s, c),
    decreases s.len(),
{
    if s.len() > 0 {
        reveal_with_fuel(Seq::<(Seq<char>, int)>::filter, 2);
        let pred = |p: (Seq<char>, int)| p.1 == c;
        lemma_sort_desc_stable(s.drop_last(), c);
        lemma_sort_desc_sorted(s.drop_last());
        lemma_insert_desc_filter(sort_desc(s.drop_last()), s.last(), c);
        assert(s =~= s.drop_last() + seq![s.last()]);
        Seq::filter_distributes_over_add(s.drop_last(), seq![s.last()], pred);
        if s.last().1 == c {
            assert(seq![s.last()].filter(pred) =~= Seq::<(Seq<char>, int)>::empty().push(
                s.last(),
            ));
            assert(entries_with_count(s, c) =~= entries_with_count(s.drop_last(), c).push(
                s.last(),
            ));
        } else {
            assert(seq![s.last()].filter(pred) =~= Seq::<(Seq<char>, int)>::empty());
            assert(entries_with_count(s, c) =~= entries_with_count(s.drop_last(), c));
        }
    }
}

/// A table whose counts are all equal is returned whole and in order.
pub proof fn lemma_sort_desc_all_equal(s: Seq<(Seq<char>, int)>, c: int)
    requires
        forall|i: int| 0 <= i < s.len() ==> #[trigger] s[i].1 == c,
    ensures
        sort_desc(s) == s,
{
    broadcast use vstd::seq_lib::group_to_multiset_ensures;

    let t = sort_desc(s);
    lemma_sort_desc_multiset(s);
    assert forall|i: int| 0 <= i < t.len() implies #[trigger] t[i].1 == c by {
        assert(t.to_multiset().contains(t[i]));
        assert(s.to_multiset().count(t[i]) > 0);
        assert(s.contains(t[i]));
    }
    lemma_filter_count_all(t, c);
    lemma_filter_count_all(s, c);
    lemma_sort_desc_stable(s, c);
}

/// Ranking neither loses nor invents keys.
pub proof fn lemma_sort_desc_has_key(s: Seq<(Seq<char>, int)>, k: Seq<char>)
    ensures
        has_key(sort_desc(s), k) <==> has_key(s, k),
{
    broadcast use vstd::seq_lib::group_to_multiset_ensures;

    let t = sort_desc(s);
    lemma_sort_desc_multiset(s);
    if has_key(t, k) {
        let i = choose|i: int| 0 <= i < t.len() && t[i].0 == k;
        assert(t.to_multiset().contains(t[i]));
        assert(s.to_multiset().count(t[i]) > 0);
        assert(s.contains(t[i]));
        let j = choose|j: int| 0 <= j < s.len() && s[j] == t[i];
        assert(s[j].0 == k);
    }
    if has_key(s, k) {
        let i = choose|i: int| 0 <= i < s.len() && s[i].0 == k;
        assert(s.to_multiset().contains(s[i]));
        assert(t.to_multiset().count(s[i]) > 0);
        assert(t.contains(s[i]));
        let j = choose|j: int| 0 <= j < t.len() && t[j] == s[i];
        assert(t[j].0 == k);
    }
}

/// Rank a count table: its entries sorted by descending count, ties keeping
/// their first-seen order. Cannot fail; the `Result` mirrors the shape of
/// the report pipeline.
pub fn sort_hashmap(input_hashmap: &CountTable) -> (r: Result<Vec<(String, u64)>, StatsError>)
    ensures
        r matches Ok(v) && pairs_of(v@) == sort_desc(input_hashmap@),
{
    let n = input_hashmap.len();
    let mut out: Vec<(String, u64)> = Vec::new();
    let mut i: usize = 0;
    proof {
        assert(pairs_of(out@) =~= sort_desc(input_hashmap@.take(0)));
    }
    while i < n
        invariant
            n == input_hashmap@.len(),
            i <= n,
            out@.len() == i,
            pairs_of(out@) == sort_desc(input_hashmap@.take(i as int)),
        decreases n - i,
    {
        let (key, count) = input_hashmap.entry_at(i);
        let ghost t = pairs_of(out@);
        let ghost x = input_hashmap@[i as int];
        let mut p: usize = 0;
        while p < out.len() && out[p].1 >= count
            invariant
                out@.len() == i,
                t == pairs_of(out@),
                x.1 == count as int,
                p <= i,
                forall|m: int| 0 <= m < p ==> #[trigger] t[m].1 >= x.1,
            decreases out@.len() - p,
        {
            p += 1;
        }
        proof {
            assert(p < t.len() ==> t[p as int].1 < x.1);
            lemma_insert_desc_at(t, x, p as int);
            assert(input_hashmap@.take(i + 1).drop_last() =~= input_hashmap@.take(i as int));
            assert(input_hashmap@.take(i + 1).last() == x);
        }
        out.insert(p, (key.clone(), count));
        proof {
            assert(pairs_of(out@) =~= t.insert(p as int, x));
        }
        i += 1;
    }
    proof {
        assert(input_hashmap@.take(n as int) =~= input_hashmap@);
    }
    Ok(out)
}

/// First `limit` rows of a ranked sequence; all of them when it is shorter.
pub fn truncate(sorted: Vec<(String, u64)>, limit: usize) -> (r: Vec<(String, u64)>)
    ensures
        limit <= sorted@.len() ==> r@ == sorted@.take(limit as int),
        limit > sorted@.len() ==> r@ == sorted@,
{
    let mut v = sorted;
    v.truncate(limit);
    v
}

} // verus!
