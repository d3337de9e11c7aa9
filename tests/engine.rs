use like_search::arena::BumpArena;
use like_search::dataset::{DataSet, Row, Table};
use like_search::engine::{execute, execute_all, BatchMatch, Match};
use like_search::kernel::StringSearch;
use like_search::like::compile_pattern;
use like_search::naive::Naive;

fn sample() -> DataSet {
    let mut arena = BumpArena::new(4096);
    let mut rows = Vec::new();
    for text in ["hello", "help", "halo"] {
        let id = arena.alloc_str("id").unwrap();
        let desc = arena.alloc_str("").unwrap();
        let data = arena.alloc_str(text).unwrap();
        rows.push(Row { id, desc, data });
    }
    let first = Table { name: "sample.txt".to_string(), rows };
    let data = arena.alloc_str("ho").unwrap();
    let desc = arena.alloc_str("").unwrap();
    let second = Table { name: "other.txt".to_string(), rows: vec![Row { id: desc, desc, data }] };
    DataSet { arena, tables: vec![first, second] }
}

#[test]
fn execute_matches_single_pattern() {
    let dataset = sample();
    let pattern = compile_pattern::<Naive, _>("h%o", Naive::config_for);
    let matches = execute(&pattern, &dataset);
    assert_eq!(matches, vec![Match { table: 0, row: 0 }, Match { table: 0, row: 2 }, Match { table: 1, row: 0 }]);
    assert_eq!(dataset.tables[matches[0].table].name, "sample.txt");
}

#[test]
fn execute_all_reports_pattern_index() {
    let dataset = sample();
    let patterns = vec![compile_pattern::<Naive, _>("h%o", Naive::config_for), compile_pattern::<Naive, _>("hel%", Naive::config_for)];
    let matches = execute_all(&patterns, &dataset);
    assert_eq!(
        matches,
        vec![
            BatchMatch { pattern_index: 0, table: 0, row: 0 },
            BatchMatch { pattern_index: 0, table: 0, row: 2 },
            BatchMatch { pattern_index: 0, table: 1, row: 0 },
            BatchMatch { pattern_index: 1, table: 0, row: 0 },
            BatchMatch { pattern_index: 1, table: 0, row: 1 },
        ]
    );
}
