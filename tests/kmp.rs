use like_search::bm::BM;
use like_search::dispatch::{resolve_alphabet_sizes, run_search, Algorithm};
use like_search::kernel::StringSearch;
use like_search::kmp::{kmp_find, kmp_find_all, KMP};
use like_search::lut_short::LutShort;
use like_search::naive::{naive_find_all_scalar, naive_find_lanes, naive_find_scalar, Naive, NaiveScalar, NaiveVectorized};

#[test]
fn test_kmp_basic() {
    let hay = b"ababcabcabababd";
    let pat = b"ababd";
    assert_eq!(kmp_find(hay, pat), Some(10));
}

#[test]
fn test_kmp_not_found() {
    let hay = b"hello world";
    let pat = b"rust";
    assert_eq!(kmp_find(hay, pat), None);
}

#[test]
fn test_kmp_empty_pattern() {
    let hay = b"abc";
    let pat: &[u8] = b"";
    assert_eq!(kmp_find(hay, pat), Some(0));
}

#[test]
fn test_kmp_find_all_overlapping() {
    let hay = b"aaaa";
    let pat = b"aa";
    assert_eq!(kmp_find_all(hay, pat), vec![0, 1, 2]);
}

#[test]
fn test_kmp_utf8() {
    let hay = "🌍hello🌍hello".as_bytes();
    let pat = "🌍hello".as_bytes();

    assert_eq!("🌍".len(), 4);
    assert_eq!("hello".len(), 5);
    assert_eq!("🌍hello".len(), 9);
    assert_eq!("🌍hello🌍hello".len(), 18);

    assert_eq!(kmp_find(hay, pat), Some(0));
    assert_eq!(kmp_find_all(hay, pat), vec![0, "🌍hello".len()]);
}

fn check_kernel<S: StringSearch<Config = Vec<u8>>>(text: &[u8], pat: &[u8]) {
    let config = S::config_for(pat);
    let state = S::build(&config);
    assert_eq!(S::find_bytes(&config, &state, text), naive_find_scalar(text, pat), "{:?} in {:?}", pat, text);
    assert_eq!(S::find_all_bytes(&config, &state, text), naive_find_all_scalar(text, pat), "{:?} in {:?}", pat, text);
}

#[test]
fn every_kernel_agrees_with_naive_scalar() {
    let texts: [&[u8]; 6] = [
        b"ababcabcabababd",
        b"aaaaaaaaaa",
        b"",
        b"abcabcabcabcabcabcabcabcabcabcabcabcabcx",
        b"xxabcxxabcdxx",
        "🌍hello🌍hello".as_bytes(),
    ];
    let pats: [&[u8]; 9] = [b"ababd", b"aa", b"", b"abcx", b"cab", b"abcabcabcabcabcabcabcabcabcabcabcabcabcabcabcx", b"x", b"abc", "🌍".as_bytes()];
    for t in texts.iter() {
        for p in pats.iter() {
            check_kernel::<Naive>(t, p);
            check_kernel::<NaiveScalar>(t, p);
            check_kernel::<NaiveVectorized>(t, p);
            check_kernel::<KMP>(t, p);
            check_kernel::<BM>(t, p);
            check_kernel::<LutShort>(t, p);
        }
    }
}

#[test]
fn find_all_results_are_first_matches_of_suffixes() {
    let text = b"abababab";
    let all = kmp_find_all(text, b"aba");
    assert_eq!(all, vec![0, 2, 4]);
    for w in all.windows(2) {
        let next = kmp_find(&text[w[0] + 1..], b"aba").unwrap();
        assert_eq!(w[0] + 1 + next, w[1]);
    }
    assert_eq!(kmp_find(&text[all[2] + 1..], b"aba"), None);
}

#[test]
fn lanes_search_finds_matches_past_the_first_block() {
    let mut text = vec![b'a'; 40];
    text.extend_from_slice(b"abz");
    assert_eq!(naive_find_lanes(&text, b"abz"), Some(40));
    assert_eq!(naive_find_lanes(b"ababcabcabababd", b"ababd"), Some(10));
    assert_eq!(naive_find_lanes(b"hello world", b"rust"), None);
}

#[test]
fn dispatch_runs_every_kernel() {
    for algo in [Algorithm::Naive, Algorithm::NaiveScalar, Algorithm::NaiveVectorized, Algorithm::Kmp, Algorithm::Bm, Algorithm::LutShort] {
        assert_eq!(run_search(algo, b"aaaa", b"aa"), vec![0, 1, 2]);
    }
    assert_eq!(resolve_alphabet_sizes(2, &[]), Ok(None));
    assert_eq!(resolve_alphabet_sizes(2, &[4]), Ok(Some(vec![Some(4), Some(4), Some(4)])));
    assert_eq!(resolve_alphabet_sizes(2, &[4, 20, 26]), Ok(Some(vec![Some(4), Some(20), Some(26)])));
    let err = resolve_alphabet_sizes(2, &[4, 20]).unwrap_err();
    assert_eq!((err.expected, err.got), (3, 2));
}
