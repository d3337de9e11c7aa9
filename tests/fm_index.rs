use like_search::fm_index::FMIndex;

const SEP: u8 = 0x1F;
const SENTINEL: u8 = 0x00;

fn sample_index() -> FMIndex {
    let text = b"banana\x1fbandana\x1fapple".to_vec();
    FMIndex::new(text, SENTINEL, Some(SEP))
}

#[test]
fn test_exact_search() {
    let fm = sample_index();
    let matches = fm.search(b"ana");
    assert_eq!(matches, vec![1, 3, 11]);
}

#[test]
fn test_search_with_underscore() {
    let fm = sample_index();
    let matches = fm.search_with_underscore(b"b_n");
    assert_eq!(matches, vec![0, 7]);
}

#[test]
fn test_complex_wildcard() {
    let fm = sample_index();
    let matches = fm.search_with_underscore(b"a__le");
    assert_eq!(matches, vec![15]);
}

#[test]
fn fm_len_counts_the_sentinel() {
    let fm = sample_index();
    assert_eq!(fm.len(), 21);
}

#[test]
fn fm_search_missing_byte_is_empty() {
    let fm = sample_index();
    assert_eq!(fm.search(b"xyz"), Vec::<usize>::new());
    assert_eq!(fm.backward_search(b"xyz"), None);
}

#[test]
fn fm_search_agrees_with_naive_search() {
    let corpus = b"banana\x1fbandana\x1fapple";
    let fm = FMIndex::new(corpus.to_vec(), SENTINEL, Some(SEP));
    for pat in [&b"a"[..], b"an", b"ban", b"nana", b"pp", b"e", b"dana"] {
        let expected = like_search::naive::naive_find_all(corpus, pat);
        assert_eq!(fm.search(pat), expected, "pattern {:?}", pat);
    }
}

#[test]
fn fm_empty_wildcard_pattern_lists_every_position() {
    let fm = FMIndex::new(b"ab".to_vec(), SENTINEL, None);
    assert_eq!(fm.search_with_underscore(b""), vec![0, 1, 2]);
}

#[test]
fn fm_backward_search_range_width_is_occurrence_count() {
    let fm = sample_index();
    let (top, bottom) = fm.backward_search(b"ana").unwrap();
    assert_eq!(bottom - top, 3);
}
