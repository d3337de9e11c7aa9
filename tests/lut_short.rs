use like_search::kernel::StringSearch;
use like_search::lut_short::LutShort;

#[test]
fn test_short_matches() {
    let text = b"xxabcxxabcdxx";
    let patterns: [&[u8]; 7] = [b"a", b"ab", b"abc", b"abcd", b"bc", b"x", b"xxa"];

    for pat in patterns.iter() {
        let config = LutShort::config_for(pat);
        let state = LutShort::build(&config);
        let found = LutShort::find_bytes(&config, &state, text);
        let expected = text.windows(pat.len()).position(|w| w == *pat);
        assert_eq!(found, expected, "pattern {:?}", pat);
    }
}

#[test]
fn test_no_match() {
    let text = b"abcdefg";
    let pat = b"hij";
    let config = LutShort::config_for(pat);
    let state = LutShort::build(&config);
    let found = LutShort::find_bytes(&config, &state, text);
    assert_eq!(found, None);
}

#[test]
fn test_too_long_pattern() {
    let text = b"abcdefg";
    let pat = b"abcdefghi";
    let config = LutShort::config_for(pat);
    let state = LutShort::build(&config);
    let found = LutShort::find_bytes(&config, &state, text);
    assert_eq!(found, None);
}

#[test]
fn lut_short_scenario_abc() {
    let text = b"xxabcxxabcdxx";
    let config = LutShort::config_for(b"abc");
    let state = LutShort::build(&config);
    assert_eq!(LutShort::find_bytes(&config, &state, text), Some(2));
    assert_eq!(like_search::naive::naive_find(text, b"abc"), Some(2));
}

#[test]
fn lut_short_long_text_crosses_blocks() {
    let mut text = vec![b'z'; 70];
    text.extend_from_slice(b"needle");
    text.extend_from_slice(&[b'z'; 5]);
    let config = LutShort::config_for(b"needle");
    let state = LutShort::build(&config);
    assert_eq!(LutShort::find_bytes(&config, &state, &text), Some(70));
    assert_eq!(LutShort::find_all_bytes(&config, &state, &text), vec![70]);
}

#[test]
fn lut_short_empty_pattern() {
    let config = LutShort::config_for(b"");
    let state = LutShort::build(&config);
    assert_eq!(LutShort::find_bytes(&config, &state, b"abc"), Some(0));
    assert_eq!(LutShort::find_all_bytes(&config, &state, b"abc"), vec![0, 1, 2, 3]);
}
