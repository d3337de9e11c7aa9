use like_search::naive::{naive_find, naive_find_all, naive_find_all_scalar, naive_find_scalar};

fn run_shared_tests(find: fn(&[u8], &[u8]) -> Option<usize>, find_all: fn(&[u8], &[u8]) -> Vec<usize>) {
    let hay = b"ababcabcabababd";
    let pat = b"ababd";
    assert_eq!(find(hay, pat), Some(10));

    let hay = b"hello world";
    let pat = b"rust";
    assert_eq!(find(hay, pat), None);

    let hay = b"abc";
    let pat: &[u8] = b"";
    assert_eq!(find(hay, pat), Some(0));

    let hay = b"aaaa";
    let pat = b"aa";
    assert_eq!(find_all(hay, pat), vec![0, 1, 2]);

    let hay = "🌍hello🌍hello".as_bytes();
    let pat = "🌍hello".as_bytes();

    assert_eq!("🌍".len(), 4);
    assert_eq!("hello".len(), 5);
    assert_eq!("🌍hello".len(), 9);
    assert_eq!("🌍hello🌍hello".len(), 18);

    assert_eq!(find(hay, pat), Some(0));
    assert_eq!(find_all(hay, pat), vec![0, "🌍hello".len()]);
}

#[test]
fn scalar_impl_is_correct() {
    run_shared_tests(naive_find_scalar, naive_find_all_scalar);
}

#[test]
fn public_api_behaves_correctly() {
    let hay = b"ababcabcabababd";
    let pat = b"ababd";
    assert_eq!(naive_find(hay, pat), Some(10));

    let hay = b"aaaa";
    let pat = b"aa";
    assert_eq!(naive_find_all(hay, pat), vec![0, 1, 2]);
}

#[test]
fn naive_empty_pattern_matches_everywhere() {
    assert_eq!(naive_find_all(b"abc", b""), vec![0, 1, 2, 3]);
    assert_eq!(naive_find(b"", b""), Some(0));
    assert_eq!(naive_find_all(b"", b""), vec![0]);
}

#[test]
fn naive_pattern_longer_than_text() {
    assert_eq!(naive_find(b"ab", b"abc"), None);
    assert_eq!(naive_find_all(b"ab", b"abc"), Vec::<usize>::new());
}
