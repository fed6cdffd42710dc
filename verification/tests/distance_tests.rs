use bcl2fq_stats::StatsError;
use bcl2fq_stats::distance::hamming_distance;

#[test]
#[should_panic]
fn test_hamming_distance_fail() {
    let str_a = "ACTGCGG".as_bytes();
    let str_b = "ACTGCG".as_bytes();
    hamming_distance(&str_a, &str_b).unwrap();
}

#[test]
fn test_hamming_distance() {
    let cases: [(&str, &str, u8); 5] = [
        ("ACTG", "ACTG", 0),
        ("ACTG", "ATTG", 1),
        ("ACTG", "ATGG", 2),
        ("ACTG", "ATCT", 3),
        ("ACTG", "GACT", 4),
    ];
    for (str_a, str_b, expected_score) in cases {
        let score = hamming_distance(str_a.as_bytes(), str_b.as_bytes()).unwrap();
        assert_eq!(score, expected_score);
    }
}

#[test]
fn test_hamming_distance_self_is_zero() {
    for s in ["", "A", "ACGT", "CCGCGGTT+AGCGCTAG"] {
        assert_eq!(hamming_distance(s.as_bytes(), s.as_bytes()), Ok(0));
    }
}

#[test]
fn test_hamming_distance_symmetric() {
    let pairs = [("ACTG", "GACT"), ("AAAA", "ATTA"), ("", ""), ("TTGCA", "TGGCA")];
    for (a, b) in pairs {
        assert_eq!(
            hamming_distance(a.as_bytes(), b.as_bytes()),
            hamming_distance(b.as_bytes(), a.as_bytes())
        );
    }
}

#[test]
fn test_hamming_distance_length_mismatch_error() {
    assert_eq!(
        hamming_distance("ACT".as_bytes(), "AC".as_bytes()),
        Err(StatsError::LengthMismatch)
    );
    assert_eq!(
        hamming_distance("".as_bytes(), "A".as_bytes()),
        Err(StatsError::LengthMismatch)
    );
}
