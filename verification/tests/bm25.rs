use ragrs::bm25::{compute_doc_stats, document_frequency, phrase_pair_matches, DocStats, TermPositions};
use ragrs::retriever::rank_top_k;

#[test]
fn doc_stats_positions() {
    let stats = compute_doc_stats("Rust code and more Rust code");
    assert_eq!(stats.tokens, vec!["rust", "code", "more", "rust", "code"]);
    assert_eq!(stats.length, 5);
    assert_eq!(stats.positions("rust").unwrap(), &vec![0, 3]);
    assert_eq!(stats.positions("code").unwrap(), &vec![1, 4]);
    assert!(stats.positions("python").is_none());
    assert_eq!(stats.term_frequency("rust"), 2);
    assert_eq!(stats.term_frequency("python"), 0);
    assert!(stats.contains_term("more"));
    assert!(stats.occurs_before("more", 3));
    assert!(!stats.occurs_before("more", 2));
    let terms: Vec<&str> = stats.term_positions.iter().map(|t| t.term.as_str()).collect();
    assert_eq!(terms, vec!["rust", "code", "more"]);
    let total: usize = stats.term_positions.iter().map(|t| t.positions.len()).sum();
    assert_eq!(total, stats.length);
}

#[test]
fn document_frequency_counts_documents() {
    let docs = vec![
        compute_doc_stats("Rust is a systems programming language"),
        compute_doc_stats("Python is great for data science"),
        compute_doc_stats("Rust and Rust again"),
    ];
    assert_eq!(document_frequency(&docs, "rust"), 2);
    assert_eq!(document_frequency(&docs, "python"), 1);
    assert_eq!(document_frequency(&docs, "cobol"), 0);
}

#[test]
fn phrase_matches_consecutive_terms() {
    let stats = compute_doc_stats("api keys expire; api keys never expire");
    let terms = vec!["api".to_string(), "keys".to_string(), "expire".to_string()];
    assert_eq!(phrase_pair_matches(&terms, &stats), vec![2, 1]);
    assert!(phrase_pair_matches(&[], &stats).is_empty());
    assert!(phrase_pair_matches(&terms[..1], &stats).is_empty());
}

#[test]
fn rank_top_k_stable_descending() {
    let keys = vec![5u32, 9, 5, 1, 9];
    assert_eq!(rank_top_k(&keys, 10), vec![1, 4, 0, 2, 3]);
    assert_eq!(rank_top_k(&keys, 3), vec![1, 4, 0]);
    assert!(rank_top_k(&keys, 0).is_empty());
    assert!(rank_top_k(&[], 3).is_empty());
}

#[test]
fn rank_top_k_returns_requested_count() {
    let keys: Vec<u32> = (0..10).map(|i| (i * 7 % 10) as u32).collect();
    let top = rank_top_k(&keys, 3);
    assert_eq!(top.len(), 3);
    assert!(keys[top[0]] >= keys[top[1]] && keys[top[1]] >= keys[top[2]]);
}

#[test]
fn hand_built_stats_answer_from_their_entries() {
    let stats = DocStats {
        tokens: vec![],
        length: 0,
        term_positions: vec![
            TermPositions { term: "a".into(), positions: vec![4, 9] },
            TermPositions { term: "b".into(), positions: vec![5, usize::MAX] },
            TermPositions { term: "a".into(), positions: vec![1] },
        ],
    };
    assert_eq!(stats.positions("a").unwrap(), &vec![4, 9]);
    assert_eq!(stats.term_frequency("a"), 2);
    assert_eq!(stats.term_frequency("c"), 0);
    assert!(stats.contains_term("b"));
    assert!(stats.occurs_before("a", 5));
    assert!(!stats.occurs_before("a", 4));
    let terms = vec!["a".to_string(), "b".to_string(), "a".to_string()];
    assert_eq!(phrase_pair_matches(&terms, &stats), vec![1, 0]);
    let docs = vec![stats.clone(), compute_doc_stats("a b c")];
    assert_eq!(document_frequency(&docs, "b"), 1);
    assert_eq!(document_frequency(&docs, "a"), 1);
}
