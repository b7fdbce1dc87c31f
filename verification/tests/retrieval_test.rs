use rust_rag::chunking::{chunk_document, Chunk, ChunkingStrategy, Document};
use rust_rag::retrieval::{count_pair_matches, rank_top_k, KeywordRetriever};
use rust_rag::keyed::Keyed;

fn chunk(id: &str, content: &str, position: usize) -> Chunk {
    Chunk {
        id: id.to_string(),
        content: content.to_string(),
        document_id: "doc1".to_string(),
        position,
        metadata: Keyed::new(),
    }
}

#[test]
fn test_keyword_retriever() {
    let chunks = vec![
        chunk("1", "Rust is a systems programming language", 0),
        chunk("2", "Python is a high-level programming language", 1),
    ];

    let retriever = KeywordRetriever::new(chunks);

    let results = retriever.retrieve("rust systems", 2);

    assert_eq!(results.len(), 1);
    assert_eq!(results[0].chunk.id, "1");
    assert!(results[0].hits > 0);

    let results = retriever.retrieve("programming language", 2);

    assert_eq!(results.len(), 2);
}

#[test]
fn keyword_hits_count_word_pairs() {
    let retriever = KeywordRetriever::new(vec![
        chunk("a", "Rust rust RUSTY crab", 0),
        chunk("b", "nothing here", 1),
        chunk("c", "trusted crust", 2),
    ]);
    let results = retriever.retrieve("rust", 10);
    assert_eq!(results.len(), 2);
    assert_eq!(results[0].chunk.id, "a");
    assert_eq!(results[0].hits, 3);
    assert_eq!(results[0].query_words, 1);
    assert_eq!(results[1].chunk.id, "c");
    assert_eq!(results[1].hits, 2);

    // Two query words: every pair counts.
    let results = retriever.retrieve("rust crab", 10);
    assert_eq!(results[0].chunk.id, "a");
    assert_eq!(results[0].hits, 4);
    assert_eq!(results[0].query_words, 2);
}

#[test]
fn keyword_ties_keep_chunk_order_and_top_k_cuts() {
    let retriever = KeywordRetriever::new(vec![
        chunk("x", "alpha", 0),
        chunk("y", "beta alpha", 1),
        chunk("z", "alpha beta", 2),
    ]);
    let results = retriever.retrieve("alpha", 2);
    let ids: Vec<&str> = results.iter().map(|r| r.chunk.id.as_str()).collect();
    assert_eq!(ids, vec!["x", "y"]);
    assert!(retriever.retrieve("alpha", 0).is_empty());
    assert!(retriever.retrieve("   ", 3).is_empty());
    assert!(retriever.retrieve("omega", 3).is_empty());
}

#[test]
fn keyword_matching_ignores_case_beyond_ascii() {
    let retriever = KeywordRetriever::new(vec![chunk("g", "ÜBER straße", 0)]);
    let results = retriever.retrieve("über STRASSE", 1);
    assert_eq!(results.len(), 1);
    assert_eq!(results[0].hits, 1);
}

#[test]
fn ranking_orders_by_key_then_index() {
    let keys: Vec<u128> = vec![5, 9, 5, 0, 9, 1];
    assert_eq!(rank_top_k(&keys, 0, 10), vec![1, 4, 0, 2, 5, 3]);
    assert_eq!(rank_top_k(&keys, 1, 10), vec![1, 4, 0, 2, 5]);
    assert_eq!(rank_top_k(&keys, 0, 3), vec![1, 4, 0]);
    assert_eq!(rank_top_k(&keys, 6, 3), vec![1, 4]);
    assert!(rank_top_k(&keys, 0, 0).is_empty());
    assert!(rank_top_k(&Vec::new(), 0, 4).is_empty());
}

#[test]
fn sentence_chunks_can_be_searched_by_keyword() {
    let doc = Document::new(
        "test-doc",
        "Rust is a systems programming language. Python is a high-level programming language.",
    );
    let chunks = chunk_document(&doc, &ChunkingStrategy::Sentence);
    assert_eq!(chunks.len(), 2);
    let retriever = KeywordRetriever::new(chunks);
    let results = retriever.retrieve("rust systems", 2);
    assert_eq!(results.len(), 1);
    assert_eq!(results[0].chunk.id, "test-doc_0");
}

fn words(ws: &[&str]) -> Vec<Vec<char>> {
    ws.iter().map(|w| w.chars().collect()).collect()
}

#[test]
fn pair_matches_count_containment() {
    let q = words(&["ab", "b", "zz"]);
    let c = words(&["abc", "bb", "a"]);
    // "ab" is in "abc"; "b" is in "abc" and "bb"; "zz" in none.
    assert_eq!(count_pair_matches(&q, &c), 3);
    assert_eq!(count_pair_matches(&Vec::new(), &c), 0);
    assert_eq!(count_pair_matches(&q, &Vec::new()), 0);
    // The empty word occurs in every word.
    assert_eq!(count_pair_matches(&words(&[""]), &c), 3);
}
