use like_search::arena::BumpArena;
use like_search::dataset::{infer_source_kind, SourceKind};
use like_search::delimited::ByteLimit;

#[test]
fn infer_source_kind_by_extension() {
    let fasta = "/tmp/sample.fasta";
    let fa = "/tmp/sample.fa";
    let fna = "/tmp/sample.fna";
    let txt = "/tmp/sample.txt";

    assert_eq!(infer_source_kind(fasta), SourceKind::Fasta);
    assert_eq!(infer_source_kind(fa), SourceKind::Fasta);
    assert_eq!(infer_source_kind(fna), SourceKind::Fasta);
    assert_eq!(infer_source_kind(txt), SourceKind::Text);
}

#[test]
fn infer_source_kind_edge_cases() {
    assert_eq!(infer_source_kind("READS.FA"), SourceKind::Fasta);
    assert_eq!(infer_source_kind("x.faa"), SourceKind::Fasta);
    assert_eq!(infer_source_kind("x.fsa"), SourceKind::Fasta);
    assert_eq!(infer_source_kind(".fa"), SourceKind::Text);
    assert_eq!(infer_source_kind("dir.fa/file"), SourceKind::Text);
    assert_eq!(infer_source_kind("noext"), SourceKind::Text);
    assert_eq!(infer_source_kind(""), SourceKind::Text);
    assert_eq!(infer_source_kind("/a.fa/"), SourceKind::Fasta);
    assert_eq!(infer_source_kind("/a.fa//"), SourceKind::Fasta);
    assert_eq!(infer_source_kind("/a.fa/."), SourceKind::Fasta);
    assert_eq!(infer_source_kind("/x/a.fa/.."), SourceKind::Text);
    assert_eq!(infer_source_kind("."), SourceKind::Text);
    assert_eq!(infer_source_kind("/"), SourceKind::Text);
}

#[test]
fn arena_used_grows_and_reset_rewinds() {
    let mut arena = BumpArena::new(16);
    assert_eq!(arena.used(), 0);
    let a = arena.alloc_str("abc").unwrap();
    assert_eq!(arena.used(), 3);
    let b = arena.alloc_slice(b"defg").unwrap();
    assert_eq!(arena.used(), 7);
    assert_eq!(arena.get(a), b"abc");
    assert_eq!(arena.get(b), b"defg");
    assert!(a.start + a.len <= b.start);
    arena.reset();
    assert_eq!(arena.used(), 0);
    assert_eq!(arena.capacity(), 16);
}

#[test]
fn arena_refuses_what_does_not_fit() {
    let mut arena = BumpArena::new(4);
    assert!(arena.alloc_slice(b"abcde").is_none());
    assert_eq!(arena.used(), 0);
    assert!(arena.alloc_slice(b"abcd").is_some());
    assert!(arena.alloc_slice(b"x").is_none());
    assert_eq!(arena.used(), 4);
}

#[test]
fn byte_limit_reserves_within_budget() {
    let mut limit = ByteLimit::new(10);
    assert!(limit.try_reserve(4));
    assert!(limit.try_reserve(6));
    assert!(!limit.try_reserve(1));
    assert_eq!(limit.current, 10);
    let mut big = ByteLimit::new(usize::MAX);
    assert!(big.try_reserve(5));
    assert!(!big.try_reserve(usize::MAX));
    assert_eq!(big.current, 5);
}
