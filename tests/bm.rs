use like_search::bm::{bm_find, bm_find_all, BM};
use like_search::kernel::StringSearch;

#[test]
fn test_bm_basic() {
    let hay = b"ababcabcabababd";
    let pat = b"ababd";
    assert_eq!(bm_find(hay, pat), Some(10));
}

#[test]
fn test_bm_not_found() {
    let hay = b"hello world";
    let pat = b"rust";
    assert_eq!(bm_find(hay, pat), None);
}

#[test]
fn test_bm_empty_pattern() {
    let hay = b"abc";
    let pat: &[u8] = b"";
    assert_eq!(bm_find(hay, pat), Some(0));
    assert_eq!(bm_find_all(hay, pat), vec![0, 1, 2, 3]);
}

#[test]
fn test_bm_find_all_overlapping() {
    let hay = b"aaaa";
    let pat = b"aa";
    assert_eq!(bm_find_all(hay, pat), vec![0, 1, 2]);
}

#[test]
fn test_bm_find_all_cut() {
    let hay = b"aabaa";
    let pat = b"aa";
    assert_eq!(bm_find_all(hay, pat), vec![0, 3]);
}

#[test]
fn test_bm_utf8() {
    let hay_s = "🌍hello🌍hello";
    let pat_s = "🌍hello";
    let hay = hay_s.as_bytes();
    let pat = pat_s.as_bytes();

    assert_eq!(pat_s.len(), 9);
    assert_eq!(hay_s.len(), 18);

    assert_eq!(bm_find(hay, pat), Some(0));
    assert_eq!(bm_find_all(hay, pat), vec![0, pat_s.len()]);
}

#[test]
fn bm_kernel_agrees_with_naive() {
    let texts: [&[u8]; 4] = [b"abracadabra", b"aaaaaaaa", b"xyzxyzxyzy", b"ababcabcabababd"];
    let pats: [&[u8]; 6] = [b"abra", b"a", b"aaa", b"zxy", b"ababd", b"q"];
    for t in texts.iter() {
        for p in pats.iter() {
            let config = BM::config_for(p);
            let state = BM::build(&config);
            assert_eq!(BM::find_bytes(&config, &state, t), like_search::naive::naive_find(t, p));
            assert_eq!(BM::find_all_bytes(&config, &state, t), like_search::naive::naive_find_all(t, p));
        }
    }
}

#[test]
fn bm_pattern_longer_than_text() {
    assert_eq!(bm_find(b"ab", b"abc"), None);
    assert_eq!(bm_find_all(b"ab", b"abc"), Vec::<usize>::new());
}
