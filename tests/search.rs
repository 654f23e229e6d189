use bloom_search::filter::build_filter;
use bloom_search::ranking::{find_matches, payload, rank, results, score, search};
use bloom_search::table::{FilterTable, TableError};
use bloom_search::text::{id_le, normalize_query};
use bloomfilter::Bloom;

fn words(ws: &[&str]) -> Vec<String> {
    ws.iter().map(|w| w.to_string()).collect()
}

fn filter_of(ws: &[&str]) -> Bloom<String> {
    build_filter(&words(ws), 1024, &[7u8; 32])
}

fn two_docs() -> FilterTable {
    let mut t = FilterTable::new();
    t.add("docA".to_string(), filter_of(&["rust", "search"])).unwrap();
    t.add("docB".to_string(), filter_of(&["search", "index"])).unwrap();
    t
}

#[test]
fn inserted_terms_are_always_found() {
    let terms = words(&["alpha", "beta", "gamma", "delta", "épée", ""]);
    for size in [1usize, 8, 64, 1024] {
        let f = build_filter(&terms, size, &[3u8; 32]);
        assert_eq!(f.len(), (size * 8) as u64);
        for t in &terms {
            assert!(f.check(t));
        }
    }
}

#[test]
fn end_to_end_two_documents() {
    let t = two_docs();
    assert_eq!(search(&t, "search rust"), r#"[["docA",2],["docB",1]]"#);
    assert_eq!(search(&t, "nomatch"), "[]");
}

#[test]
fn query_is_lowercased_and_deduplicated() {
    let t = two_docs();
    assert_eq!(search(&t, "  SEARCH\tRust rust\nsearch "), r#"[["docA",2],["docB",1]]"#);
    assert_eq!(normalize_query("Rust  rust SEARCH"), words(&["rust", "search"]));
    assert_eq!(normalize_query(" \t\n"), Vec::<String>::new());
}

#[test]
fn empty_query_gives_empty_payload() {
    let t = two_docs();
    assert_eq!(search(&t, ""), "[]");
    assert_eq!(search(&FilterTable::new(), ""), "[]");
    assert!(results(&t, "").is_empty());
}

#[test]
fn repeated_searches_agree() {
    let t = two_docs();
    let first = search(&t, "index search rust");
    for _ in 0..5 {
        assert_eq!(search(&t, "index search rust"), first);
    }
}

#[test]
fn results_are_ranked_by_score_then_identifier() {
    let mut t = FilterTable::new();
    t.add("zeta".to_string(), filter_of(&["a"])).unwrap();
    t.add("beta".to_string(), filter_of(&["a", "b", "c"])).unwrap();
    t.add("alpha".to_string(), filter_of(&["a"])).unwrap();
    t.add("gamma".to_string(), filter_of(&["a", "b"])).unwrap();
    let r = results(&t, "a b c");
    let expected: Vec<(String, u64)> = vec![
        ("beta".to_string(), 3),
        ("gamma".to_string(), 2),
        ("alpha".to_string(), 1),
        ("zeta".to_string(), 1),
    ];
    assert_eq!(r, expected);
    for w in r.windows(2) {
        assert!(w[0].1 > w[1].1 || (w[0].1 == w[1].1 && w[0].0 <= w[1].0));
    }
    assert!(r.iter().all(|m| m.1 > 0));
}

#[test]
fn count_scoring() {
    let f = filter_of(&["rust", "search"]);
    assert_eq!(score(&f, &words(&["rust", "search", "index"])), 2);
    assert_eq!(score(&f, &words(&["index"])), 0);
    assert_eq!(score(&f, &Vec::new()), 0);
}

#[test]
fn matches_keep_table_order_and_rank_sorts() {
    let t = two_docs();
    let ms = find_matches(&t, &words(&["search", "rust"]));
    assert_eq!(ms, vec![("docA".to_string(), 2), ("docB".to_string(), 1)]);
    let ms = find_matches(&t, &words(&["search", "index"]));
    assert_eq!(ms, vec![("docA".to_string(), 1), ("docB".to_string(), 2)]);
    assert_eq!(rank(ms), vec![("docB".to_string(), 2), ("docA".to_string(), 1)]);
    let tie = vec![("b".to_string(), 1), ("a".to_string(), 1), ("ab".to_string(), 1)];
    assert_eq!(
        rank(tie),
        vec![("a".to_string(), 1), ("ab".to_string(), 1), ("b".to_string(), 1)]
    );
}

#[test]
fn identifier_order_is_lexical() {
    let s = |x: &str| x.to_string();
    assert!(id_le(&s("a"), &s("b")));
    assert!(!id_le(&s("b"), &s("a")));
    assert!(id_le(&s("ab"), &s("ab")));
    assert!(id_le(&s(""), &s("a")));
    assert!(!id_le(&s("ab"), &s("a")));
    assert!(id_le(&s("Z"), &s("a")));
    assert!(id_le(&s("z"), &s("é")));
}

#[test]
fn payload_falls_back_to_empty_result() {
    assert_eq!(payload(None), "[]");
    assert_eq!(payload(Some("[[\"d\",1]]".to_string())), "[[\"d\",1]]");
}

#[test]
fn identifiers_are_escaped_in_json() {
    let mut t = FilterTable::new();
    t.add("dir/\"q\".txt".to_string(), filter_of(&["w"])).unwrap();
    assert_eq!(search(&t, "w"), r#"[["dir/\"q\".txt",1]]"#);
}

#[test]
fn table_refuses_duplicates_and_empty_filters() {
    let mut t = two_docs();
    assert_eq!(t.add("docA".to_string(), filter_of(&["x"])), Err(TableError::DuplicateId));
    let mut header = vec![1u8];
    header.extend_from_slice(&0u64.to_le_bytes());
    header.extend_from_slice(&1u32.to_le_bytes());
    header.extend_from_slice(&[0u8; 32]);
    let empty: Bloom<String> = Bloom::from_bytes(header).unwrap();
    assert_eq!(t.add("docC".to_string(), empty), Err(TableError::EmptyFilter));
    assert_eq!(t.len(), 2);
    assert!(t.contains_id(&"docB".to_string()));
    assert!(!t.contains_id(&"docC".to_string()));
    assert_eq!(t.doc(1).id, "docB");
}
