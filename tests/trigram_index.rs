use like_search::trigram_index::TrigramIndex;

#[test]
fn test_trigram_candidates() {
    let mut idx = TrigramIndex::new();
    let docs = ["apple", "applet", "pineapple", "application", "banana", "bandana"];

    for doc in docs.iter() {
        idx.add(doc);
    }

    let ids = idx.search_literal("appl").unwrap();
    let results: Vec<&[u8]> = ids.into_iter().map(|id| idx.document(id).unwrap()).collect();
    assert_eq!(results, vec![&b"apple"[..], b"applet", b"pineapple", b"application"]);

    let ids = idx.search_literal("ana").unwrap();
    let results: Vec<&[u8]> = ids.into_iter().map(|id| idx.document(id).unwrap()).collect();
    assert_eq!(results, vec![&b"banana"[..], b"bandana"]);

    let ids = idx.search_literal("pine").unwrap();
    let results: Vec<&[u8]> = ids.into_iter().map(|id| idx.document(id).unwrap()).collect();
    assert_eq!(results, vec![&b"pineapple"[..]]);
}

#[test]
fn test_trigram_short_literal() {
    let mut idx = TrigramIndex::new();
    idx.add("abc");
    assert!(idx.search_literal("an").is_none());
}

#[test]
fn trigram_unknown_trigram_gives_no_documents() {
    let mut idx = TrigramIndex::new();
    idx.add("abcdef");
    assert_eq!(idx.search_literal("xyz"), Some(vec![]));
    assert_eq!(idx.search_literal("bcd"), Some(vec![0]));
}

#[test]
fn trigram_add_returns_ids_in_order() {
    let mut idx = TrigramIndex::new();
    assert_eq!(idx.add("aaaa"), 0);
    assert_eq!(idx.add("aaab"), 1);
    assert_eq!(idx.search_literal("aaa"), Some(vec![0, 1]));
    assert_eq!(idx.document(2), None);
}

#[test]
fn trigram_complete_for_containing_rows() {
    let mut idx = TrigramIndex::new();
    let docs = ["the cat sat", "a cat", "dog", "concatenate"];
    for d in docs.iter() {
        idx.add(d);
    }
    let ids = idx.search_literal("cat").unwrap();
    for (i, d) in docs.iter().enumerate() {
        if d.contains("cat") {
            assert!(ids.contains(&(i as u32)));
        }
    }
}
