use like_search::kernel::StringSearch;
use like_search::fftstr::{FftConfig, FftStr1};
use like_search::kmer::KmerSearch;
use like_search::like::{compile_pattern, compile_pattern_with_options, like_match, CompileOptions, Pattern};

fn compile<S: StringSearch>(pattern: &str) -> Pattern<S> {
    compile_pattern::<S, _>(pattern, S::config_for)
}
use like_search::bm::BM;
use like_search::kmp::KMP;
use like_search::lut_short::LutShort;
use like_search::naive::{Naive, NaiveScalar};

fn run_test_suite<S: StringSearch>() {
    // Basic exact match
    let p = compile::<S>("hello");
    assert!(like_match(&p, "hello"), "Basic match failed");
    assert!(!like_match(&p, "hello world"), "Basic prefix match incorrectly passed");

    // % wildcard
    let p = compile::<S>("h%o");
    assert!(like_match(&p, "hello"), "h%o -> hello");
    assert!(like_match(&p, "ho"), "h%o -> ho");
    assert!(like_match(&p, "h_long_string_o"), "h%o -> long string");
    assert!(!like_match(&p, "h"), "h%o -> h (missing o)");

    // _ wildcard
    let p = compile::<S>("h_t");
    assert!(like_match(&p, "hat"));
    assert!(!like_match(&p, "heat"));

    // Backtracking
    let p = compile::<S>("%a");
    assert!(like_match(&p, "banana"), "%a -> banana (needs backtrack)");
    assert!(like_match(&p, "pizza"), "%a -> pizza");

    let p = compile::<S>("a%b");
    assert!(like_match(&p, "abb"), "a%b -> abb (needs backtrack)");

    // Complex mix
    let p = compile::<S>("a_%_b");
    assert!(like_match(&p, "ax_b"));
    assert!(like_match(&p, "a_long___b"));
    assert!(!like_match(&p, "ab"));

    // UTF-8
    let p = compile::<S>("_%");
    assert!(like_match(&p, "💩"));
    assert!(like_match(&p, "💩more"));
}

#[test]
fn test_naive_algorithm() {
    run_test_suite::<Naive>();
}

#[test]
fn test_kmp_algorithm() {
    run_test_suite::<KMP>();
}

#[test]
fn like_with_short_pattern_kernel() {
    run_test_suite::<LutShort>();
}

#[test]
fn test_bm_algorithm() {
    run_test_suite::<BM>();
}

#[test]
fn test_std_algorithm() {
    run_test_suite::<NaiveScalar>();
}

#[test]
fn test_underscore_literal_option() {
    let options = CompileOptions {
        treat_underscore_as_literal: true,
        literal_underscore_is_wildcard: false,
    };
    let pattern = compile_pattern_with_options::<Naive, _>("%a_c%", options, Naive::config_for);

    assert!(like_match(&pattern, "zza_czz"));
    assert!(!like_match(&pattern, "zzabczz"));
}

#[test]
fn like_scenarios() {
    let p = compile::<Naive>("%a_%_b%");
    assert!(like_match(&p, "ax_b"));
    assert!(!like_match(&p, "ab"));
}

#[test]
fn like_percent_only_matches_everything() {
    let p = compile::<Naive>("%");
    assert!(like_match(&p, ""));
    assert!(like_match(&p, "anything"));
    let p = compile::<Naive>("%%");
    assert!(like_match(&p, "x"));
}

#[test]
fn like_anchoring() {
    let p = compile::<Naive>("ab%");
    assert!(like_match(&p, "abc"));
    assert!(!like_match(&p, "cab"));
    let p = compile::<Naive>("%ab");
    assert!(like_match(&p, "cab"));
    assert!(!like_match(&p, "abc"));
}

#[test]
fn like_compile_twice_behaves_the_same() {
    let a = compile::<Naive>("h%l_o");
    let b = compile::<Naive>("h%l_o");
    for text in ["hello", "hllo", "help", "hxxlyo", ""] {
        assert_eq!(like_match(&a, text), like_match(&b, text));
    }
}

#[test]
fn like_too_short_text_is_rejected() {
    let p = compile::<Naive>("abc_");
    assert!(!like_match(&p, "abc"));
    assert!(like_match(&p, "abcd"));
}

#[test]
fn like_exact_answers_on_mixed_patterns() {
    let p = compile::<Naive>("a%b%c");
    assert!(like_match(&p, "abc"));
    assert!(like_match(&p, "axxbyyc"));
    assert!(!like_match(&p, "acb"));
    assert!(!like_match(&p, "ab"));
    let p = compile::<KMP>("%ab_d%");
    assert!(like_match(&p, "xxabcdyy"));
    assert!(!like_match(&p, "xxabdyy"));
}

#[test]
fn like_with_kmer_kernel() {
    run_test_suite::<KmerSearch>();
}

#[test]
fn like_with_fft_kernel() {
    run_test_suite::<FftStr1>();
}

#[test]
fn literal_underscore_as_wildcard_through_the_fft_kernel() {
    let options = CompileOptions { treat_underscore_as_literal: true, literal_underscore_is_wildcard: true };
    let pattern = compile_pattern_with_options::<FftStr1, _>("%a_%_b%", options, |lit: &[u8]| FftConfig::new(lit));
    assert!(like_match(&pattern, "zzaXfooYbzz"));
    assert!(!like_match(&pattern, "zzafooYzz"));
    let exact = compile_pattern_with_options::<Naive, _>("%a_%_b%", options, Naive::config_for);
    assert!(!like_match(&exact, "zzaXfooYbzz"));
    assert!(like_match(&exact, "zza_foo_bzz"));
}
