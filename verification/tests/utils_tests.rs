use bcl2fq_stats::aggregate::CountTable;
use bcl2fq_stats::utils::{sort_hashmap, truncate};

fn table(entries: &[(&str, u64)]) -> CountTable {
    let mut t = CountTable::new();
    for (k, v) in entries {
        t.add(&k.to_string(), *v);
    }
    t
}

fn owned(entries: &[(&str, u64)]) -> Vec<(String, u64)> {
    entries.iter().map(|(k, v)| (k.to_string(), *v)).collect()
}

#[test]
fn test_sort_hashmap() {
    let cases: [(&[(&str, u64)], &[(&str, u64)]); 3] = [
        (&[("AAA", 1), ("ACA", 2)], &[("ACA", 2), ("AAA", 1)]),
        (
            &[("TTT", 4), ("AAA", 1), ("ACA", 2)],
            &[("TTT", 4), ("ACA", 2), ("AAA", 1)],
        ),
        (
            &[("TTT", 2), ("AAA", 3), ("ACA", 4)],
            &[("ACA", 4), ("AAA", 3), ("TTT", 2)],
        ),
    ];
    for (input_array, expected_array) in cases {
        let sorted = sort_hashmap(&table(input_array)).unwrap();
        assert_eq!(sorted, owned(expected_array));
    }
}

#[test]
fn test_sort_hashmap_ties_keep_first_seen_order() {
    let sorted = sort_hashmap(&table(&[("B", 2), ("A", 2), ("C", 2)])).unwrap();
    assert_eq!(sorted, owned(&[("B", 2), ("A", 2), ("C", 2)]));

    let sorted = sort_hashmap(&table(&[("B", 1), ("A", 3), ("C", 1), ("D", 3)])).unwrap();
    assert_eq!(sorted, owned(&[("A", 3), ("D", 3), ("B", 1), ("C", 1)]));
}

#[test]
fn test_sort_hashmap_all_equal_counts_returns_all() {
    let input: Vec<(&str, u64)> = vec![("A", 5), ("B", 5), ("C", 5), ("D", 5)];
    let sorted = sort_hashmap(&table(&input)).unwrap();
    assert_eq!(sorted.len(), input.len());
    assert_eq!(sorted, owned(&input));
}

#[test]
fn test_truncate_returns_prefix() {
    let rows = owned(&[("A", 5), ("B", 4), ("C", 3), ("D", 2), ("E", 1)]);
    assert_eq!(truncate(rows.clone(), 3), owned(&[("A", 5), ("B", 4), ("C", 3)]));
    assert_eq!(truncate(rows.clone(), 0), Vec::<(String, u64)>::new());
    assert_eq!(truncate(rows.clone(), 5), rows.clone());
    assert_eq!(truncate(rows.clone(), 10), rows);
}

#[test]
fn test_sort_hashmap_empty() {
    let sorted = sort_hashmap(&CountTable::new()).unwrap();
    assert_eq!(sorted, Vec::<(String, u64)>::new());
}
