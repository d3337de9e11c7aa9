use like_search::kmer::{KmerConfig, KmerSearch};

#[test]
fn test_interface_compliance() {
    let pattern = b"ACGTACGT".to_vec();
    let k = 3;
    // Total k-mers in pattern: 8 - 3 + 1 = 6; min_hits 6 asks for all of them.
    let min_hits = 6;

    let config = KmerConfig { pattern: pattern.clone(), k, min_hits };
    let index = KmerSearch::build(config);

    let text_single = b"__ACGTACGT__";
    let found = KmerSearch::find_bytes(&index, text_single, &[]);
    assert_eq!(found, Some(2));

    let text_multi = b"ACGTACGT__ACGTACGT";
    let all_found = KmerSearch::find_all_bytes(&index, text_multi, &[]);
    assert_eq!(all_found, vec![0, 10]);

    let text_none = b"ZZZZZZZZZZ";
    let none_found = KmerSearch::find_bytes(&index, text_none, &[]);
    assert_eq!(none_found, None);
}

// A diagonal needs min_hits k-mer hits, and then the whole pattern must occur there: four A's
// give diagonal 0 its three hits, but the five-byte pattern does not fit in them.
#[test]
fn test_partial_hits_threshold() {
    let pattern = b"AAAAA".to_vec();
    let config = KmerConfig { pattern, k: 2, min_hits: 3 };
    let index = KmerSearch::build(config);

    let text_fail = b"AAA";
    assert_eq!(KmerSearch::find_bytes(&index, text_fail, &[]), None);

    let text_pass = b"AAAA";
    assert_eq!(KmerSearch::find_bytes(&index, text_pass, &[]), None);

    let text_long = b"AAAAA";
    assert_eq!(KmerSearch::find_bytes(&index, text_long, &[]), Some(0));
}

#[test]
fn kmer_zero_k_finds_nothing() {
    let index = KmerSearch::build(KmerConfig { pattern: b"abc".to_vec(), k: 0, min_hits: 1 });
    assert_eq!(KmerSearch::find_bytes(&index, b"abc", &[]), None);
}

#[test]
fn kmer_complete_settings_report_every_occurrence() {
    let index = KmerSearch::build(KmerConfig { pattern: b"abab".to_vec(), k: 2, min_hits: 2 });
    let text = b"xxababab_abab";
    assert_eq!(KmerSearch::find_all_bytes(&index, text, &[]), vec![2, 4, 9]);
    assert!(KmerSearch::find_bytes(&index, text, &[]).is_some());
}
