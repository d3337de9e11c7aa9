use like_search::arena::BumpArena;
use like_search::dataset::{load_dataset, load_fasta_table, load_text_table, Source, SourceKind};
use like_search::fasta::{parse_fasta_into_arena, FastaError};

#[test]
fn test_parse_valid_fasta() {
    let mut arena = BumpArena::new(4096);
    let raw = b">seq1 Human Gene
ATGC
ATGC
>seq2
GGCC";

    let result = parse_fasta_into_arena(&mut arena, raw);
    assert!(result.is_ok());

    let entries = result.unwrap();
    assert_eq!(entries.len(), 2);

    assert_eq!(arena.get(entries[0].id), b"seq1");
    assert_eq!(arena.get(entries[0].desc), b"Human Gene");
    assert_eq!(arena.get(entries[0].data), b"ATGCATGC");

    assert_eq!(arena.get(entries[1].id), b"seq2");
    assert_eq!(arena.get(entries[1].desc), b"");
    assert_eq!(arena.get(entries[1].data), b"GGCC");
}

#[test]
fn test_error_missing_header() {
    let mut arena = BumpArena::new(1024);
    let raw = b"ATGC\n>seq1\nATGC";

    let result = parse_fasta_into_arena(&mut arena, raw);
    assert!(result.is_err());
    assert_eq!(
        result.unwrap_err().message(),
        "Parse Error: Found sequence data before the first header (line starting with >)"
    );
}

#[test]
fn test_error_invalid_utf8() {
    let mut arena = BumpArena::new(1024);
    let raw = b">seq1\nATG\xFFC";

    let result = parse_fasta_into_arena(&mut arena, raw);
    assert!(result.is_err());
    let message = result.unwrap_err().message();
    println!("result {:?}", message);
    assert!(message.contains("Invalid UTF-8 in sequence data for ID: seq1"));
}

#[test]
fn test_memory_layout_locality() {
    let mut arena = BumpArena::new(4096);
    let raw = b">A B
C";
    let entries = parse_fasta_into_arena(&mut arena, raw).unwrap();
    let e = &entries[0];

    let p_id = arena.get(e.id).as_ptr() as usize;
    let p_desc = arena.get(e.desc).as_ptr() as usize;
    let p_data = arena.get(e.data).as_ptr() as usize;

    assert!(p_id < p_desc);
    assert!(p_desc < p_data);
    println!("ID: {:x}, Desc: {:x}, Data: {:x}", p_id, p_desc, p_data);
}

#[test]
fn fasta_crlf_and_blank_lines() {
    let mut arena = BumpArena::new(4096);
    let raw = b"\r\n>id1 some desc\r\nAC\r\n\r\nGT\n\n>id2\nTT\n";
    let entries = parse_fasta_into_arena(&mut arena, raw).unwrap();
    assert_eq!(entries.len(), 2);
    assert_eq!(arena.get(entries[0].desc), b"some desc");
    assert_eq!(arena.get(entries[0].data), b"ACGT");
    assert_eq!(arena.get(entries[1].data), b"TT");
}

#[test]
fn fasta_out_of_memory_reports_context() {
    let mut arena = BumpArena::new(4);
    let result = parse_fasta_into_arena(&mut arena, b">seq1\nATGCATGC");
    match result {
        Err(e) => {
            assert!(matches!(e, FastaError::OutOfMemory { .. }));
            assert_eq!(e.message(), "BumpArena: Out of Memory! Capacity: 4, Used: 4, Requested: 8");
        }
        Ok(_) => panic!("expected an out-of-memory error"),
    }
}

#[test]
fn fasta_invalid_header_and_description() {
    let mut arena = BumpArena::new(1024);
    let err = parse_fasta_into_arena(&mut arena, b">s\xFF1\nAC").unwrap_err();
    assert_eq!(err.message(), "Invalid UTF-8 in FASTA Header ID");
    let err = parse_fasta_into_arena(&mut arena, b">s1 d\xFF\nAC").unwrap_err();
    assert_eq!(err.message(), "Invalid UTF-8 in FASTA Description for ID: s1");
}

#[test]
fn load_tables_from_contents() {
    let mut arena = BumpArena::new(4096);
    let text = load_text_table(&mut arena, "sample.txt", b"hello world").unwrap();
    assert_eq!(text.name, "sample.txt");
    assert_eq!(arena.get(text.rows[0].data), b"hello world");
    let fasta = load_fasta_table(&mut arena, "sample.fasta", b">seq1\nACGT\n").unwrap();
    assert_eq!(fasta.rows.len(), 1);
    assert_eq!(arena.get(fasta.rows[0].id), b"seq1");
    assert_eq!(arena.get(fasta.rows[0].data), b"ACGT");
}

#[test]
fn load_dataset_mixed_sources() {
    let sources = vec![
        Source { name: "sample.txt".to_string(), kind: SourceKind::Text, contents: b"hello world".to_vec() },
        Source { name: "sample.fa".to_string(), kind: SourceKind::Fasta, contents: b">seq1\nACGT\n".to_vec() },
    ];
    let dataset = load_dataset(8192, &sources).unwrap();
    assert_eq!(dataset.tables.len(), 2);
    assert_eq!(dataset.tables[0].name, "sample.txt");
    assert_eq!(dataset.tables[1].name, "sample.fa");
    assert_eq!(dataset.arena.get(dataset.tables[0].rows[0].data), b"hello world");
    assert_eq!(dataset.arena.get(dataset.tables[1].rows[0].data), b"ACGT");
}

#[test]
fn load_dataset_reports_fasta_faults() {
    let sources = vec![Source { name: "bad.fa".to_string(), kind: SourceKind::Fasta, contents: b"ACGT\n".to_vec() }];
    let err = load_dataset(8192, &sources).err().unwrap();
    assert!(matches!(err, FastaError::MissingHeader));
}

#[test]
fn load_dataset_reports_the_first_failure_and_a_full_arena() {
    let sources = vec![
        Source { name: "ok.fa".to_string(), kind: SourceKind::Fasta, contents: b">a\nAC\n".to_vec() },
        Source { name: "bad1.fa".to_string(), kind: SourceKind::Fasta, contents: b">s\xFF\nAC".to_vec() },
        Source { name: "bad2.fa".to_string(), kind: SourceKind::Fasta, contents: b"AC\n".to_vec() },
    ];
    assert!(matches!(load_dataset(8192, &sources).err().unwrap(), FastaError::InvalidHeaderId));
    let small = vec![Source { name: "big.txt".to_string(), kind: SourceKind::Text, contents: vec![b'x'; 100] }];
    match load_dataset(10, &small).err().unwrap() {
        FastaError::OutOfMemory { capacity, used, requested } => {
            assert_eq!(capacity, 10);
            assert!(used + requested > capacity);
        }
        other => panic!("unexpected error {:?}", other),
    }
}
