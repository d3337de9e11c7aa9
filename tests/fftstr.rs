use like_search::fftstr::{FftConfig, FftStr0, FftStr1};
use like_search::kernel::StringSearch;

#[test]
fn test_fftstr0_basic() {
    let config = FftConfig::from_str("ababd");
    let state = FftStr0::build(&config);
    assert_eq!(FftStr0::find_str(&config, &state, "ababcabcabababd"), Some(10));
}

#[test]
fn test_fftstr0_not_found() {
    let config = FftConfig::from_str("rust");
    let state = FftStr0::build(&config);
    assert_eq!(FftStr0::find_str(&config, &state, "hello world"), None);
}

#[test]
fn test_fftstr0_wildcard() {
    let config = FftConfig::from_str("a_c");
    let state = FftStr0::build(&config);
    assert_eq!(FftStr0::find_str(&config, &state, "zzabczz"), Some(2));
}

#[test]
fn test_fftstr0_find_all() {
    let config = FftConfig::from_str("aba");
    let state = FftStr0::build(&config);
    let matches = FftStr0::find_all_bytes(&config, &state, b"ababa");
    assert_eq!(matches, vec![0, 2]);
}

#[test]
fn test_fftstr1_basic() {
    let config = FftConfig::from_str("ababd");
    let state = FftStr1::build(&config);
    assert_eq!(FftStr1::find_str(&config, &state, "ababcabcabababd"), Some(10));
}

#[test]
fn test_fftstr1_wildcard() {
    let config = FftConfig::from_str("a_c");
    let state = FftStr1::build(&config);
    assert_eq!(FftStr1::find_str(&config, &state, "zzabczz"), Some(2));
}

#[test]
fn test_fftstr1_find_all() {
    let config = FftConfig::from_str("aba");
    let state = FftStr1::build(&config);
    let matches = FftStr1::find_all_bytes(&config, &state, b"ababa");
    assert_eq!(matches, vec![0, 2]);
}

#[test]
fn test_fftstr1_large_pattern() {
    let pattern = "a".repeat(50);
    let text = format!("zz{}zz", pattern);
    let config = FftConfig::from_str(&pattern);
    let state = FftStr1::build(&config);
    assert_eq!(FftStr1::find_str(&config, &state, &text), Some(2));
}

#[test]
fn fft_long_text_spans_several_blocks() {
    let config = FftConfig::from_str("x_z");
    let state = FftStr0::build(&config);
    let mut text = "ab".repeat(40);
    text.push_str("xyz");
    text.push_str(&"ab".repeat(10));
    assert_eq!(FftStr0::find_str(&config, &state, &text), Some(80));
    assert_eq!(FftStr1::find_all_bytes(&config, &FftStr1::build(&config), text.as_bytes()), vec![80]);
}

#[test]
fn fft_agrees_with_exact_search_without_wildcards() {
    let texts = ["ababcabcabababd", "aaaaaaaa", "the quick brown fox", "zzabczz"];
    let pats = ["ab", "aaa", "fox", "bc", "q", "zz"];
    for t in texts.iter() {
        for p in pats.iter() {
            let config = FftConfig::from_str(p);
            let state = FftStr1::build(&config);
            assert_eq!(
                FftStr1::find_str(&config, &state, t),
                like_search::naive::naive_find(t.as_bytes(), p.as_bytes()),
                "{} in {}",
                p,
                t
            );
        }
    }
}

#[test]
fn fft_find_all_lists_every_wildcard_match() {
    let config = FftConfig::from_str("a_a");
    let state = FftStr1::build(&config);
    assert_eq!(FftStr1::find_all_bytes(&config, &state, b"abacada"), vec![0, 2, 4]);
    assert_eq!(FftStr1::find_bytes(&config, &state, b"bbb"), None);
}

#[test]
fn fft_fields_by_pattern_size() {
    // 3 * 20 = 60 points: the small field; 3 * 40 = 120: the medium one; FftStr1: the large one.
    for len in [20usize, 40] {
        let pattern = "ab".repeat(len / 2);
        let text = format!("xx{}yy", pattern);
        let config = FftConfig::from_str(&pattern);
        let state = FftStr0::build(&config);
        assert_eq!(FftStr0::find_str(&config, &state, &text), Some(2));
        let state1 = FftStr1::build(&config);
        assert_eq!(FftStr1::find_str(&config, &state1, &text), Some(2));
    }
}
