use rust_rag::chunking::{chunk_document, is_chunkable, ChunkingStrategy, Document};
use rust_rag::keyed::Keyed;

#[test]
fn it_works() {
    assert_eq!(2 + 2, 4);
}

#[test]
fn text_fixed_size_chunking() {
    let doc = Document::new(
        "test-doc",
        "This is a test document. It has several sentences. We want to see how chunking works.",
    );

    let chunks = chunk_document(&doc, &ChunkingStrategy::FixedSize(20));

    assert!(chunks.len() > 1);
    assert_eq!(chunks[0].document_id, "test-doc");
}

#[test]
fn test_fixed_size_chunking() {
    let text = "This is a long text that should be divided into multiple chunks when \
               using the fixed size strategy. The chosen size is small enough \
               to force multiple divisions.";

    let doc = Document::new("fixed-size-test", text);

    let chunks = chunk_document(&doc, &ChunkingStrategy::FixedSize(30));

    assert!(chunks.len() > 1);

    for chunk in &chunks {
        assert!(chunk.content.len() <= 40);
    }

    let reconstructed = chunks
        .iter()
        .map(|c| c.content.clone())
        .collect::<Vec<String>>()
        .join(" ");

    let original_words: Vec<&str> = text.split_whitespace().collect();
    let reconstructed_words: Vec<&str> = reconstructed.split_whitespace().collect();

    assert_eq!(original_words, reconstructed_words);
}

#[test]
fn test_sentence_chunking() {
    let text = "This is the first sentence. This is the second sentence. And this is the third.";
    let doc = Document::new("sentence-test", text);

    let chunks = chunk_document(&doc, &ChunkingStrategy::Sentence);

    assert_eq!(chunks.len(), 3);

    assert!(chunks[0].content.contains("first sentence"));
    assert!(chunks[1].content.contains("second sentence"));
    assert!(chunks[2].content.contains("third"));
}

#[test]
fn test_metadata_preservation() {
    let mut metadata = Keyed::new();
    metadata.insert("author".to_string(), "Test Author".to_string());
    metadata.insert("date".to_string(), "2025-03-12".to_string());

    let doc = Document {
        id: "metadata-test".to_string(),
        content: "Test content to verify metadata preservation.".to_string(),
        metadata,
    };

    let chunks = chunk_document(&doc, &ChunkingStrategy::Paragraph);

    assert_eq!(chunks[0].metadata.get("author").unwrap(), "Test Author");
    assert_eq!(chunks[0].metadata.get("date").unwrap(), "2025-03-12");
}

#[test]
fn test_chunk_id_generation() {
    let doc = Document::new("id-test", "Content for ID testing");

    let chunks = chunk_document(&doc, &ChunkingStrategy::Paragraph);

    assert_eq!(chunks[0].id, "id-test_0");

    let doc2 = Document::new("id-test", "First paragraph.\n\nSecond paragraph.\n\nThird paragraph.");
    let chunks2 = chunk_document(&doc2, &ChunkingStrategy::Paragraph);

    assert_eq!(chunks2[0].id, "id-test_0");
    assert_eq!(chunks2[1].id, "id-test_1");
    assert_eq!(chunks2[2].id, "id-test_2");
}

#[test]
fn fixed_size_pieces_are_cut_before_spaces() {
    let doc = Document::new("d", "aaaa bbbb cc");
    let chunks = chunk_document(&doc, &ChunkingStrategy::FixedSize(6));
    let contents: Vec<&str> = chunks.iter().map(|c| c.content.as_str()).collect();
    assert_eq!(contents, vec!["aaaa", "bbbb", "cc"]);
    assert_eq!(chunks[2].position, 2);
    assert_eq!(chunks[2].id, "d_2");
}

#[test]
fn fixed_size_without_progress_is_not_chunkable() {
    // After the cut before the space, the next window holds only that space
    // and part of a long word, so the cut would not move forward.
    let doc = Document::new("d", "aaaa bbbbbbbbbbbb");
    assert!(!is_chunkable(&doc, &ChunkingStrategy::FixedSize(5)));
    assert!(is_chunkable(&doc, &ChunkingStrategy::FixedSize(100)));
    assert!(is_chunkable(&doc, &ChunkingStrategy::Paragraph));
    let empty = Document::new("e", "");
    assert!(is_chunkable(&empty, &ChunkingStrategy::FixedSize(0)));
    assert!(!is_chunkable(&doc, &ChunkingStrategy::FixedSize(0)));
}

#[test]
fn fixed_size_inside_a_character_is_not_chunkable() {
    // 'é' takes two bytes; a window of three bytes ends inside it.
    let doc = Document::new("d", "abé cd");
    assert!(!is_chunkable(&doc, &ChunkingStrategy::FixedSize(3)));
    assert!(is_chunkable(&doc, &ChunkingStrategy::FixedSize(4)));
}

#[test]
fn blank_pieces_are_skipped_and_sentences_closed() {
    let doc = Document::new("s", "  One. Two.  .  Three");
    let chunks = chunk_document(&doc, &ChunkingStrategy::Sentence);
    let contents: Vec<&str> = chunks.iter().map(|c| c.content.as_str()).collect();
    assert_eq!(contents, vec!["One.", "Two.", "Three."]);

    let doc = Document::new("p", "\n\n  first \n\n\n\n second\n\n");
    let chunks = chunk_document(&doc, &ChunkingStrategy::Paragraph);
    let contents: Vec<&str> = chunks.iter().map(|c| c.content.as_str()).collect();
    assert_eq!(contents, vec!["first", "second"]);
}

#[test]
fn unicode_whitespace_is_trimmed() {
    let doc = Document::new("u", "\u{3000}wide\u{a0}\n\n\u{2003}");
    let chunks = chunk_document(&doc, &ChunkingStrategy::Paragraph);
    assert_eq!(chunks.len(), 1);
    assert_eq!(chunks[0].content, "wide");
}

#[test]
fn with_metadata_adds_and_replaces() {
    let doc = Document::new("m", "x").with_metadata("k", "1").with_metadata("k", "2");
    assert_eq!(doc.metadata.len(), 1);
    assert_eq!(doc.metadata.get("k").unwrap(), "2");
    assert_eq!(doc.id, "m");
    assert_eq!(doc.content, "x");
}

#[test]
fn fixed_size_chunks_fit_their_size() {
    let text = "Cutting before spaces keeps words whole, and no piece grows past the window.";
    let doc = Document::new("w", text);
    for size in 12..40 {
        let strategy = ChunkingStrategy::FixedSize(size);
        if is_chunkable(&doc, &strategy) {
            for chunk in chunk_document(&doc, &strategy) {
                assert!(chunk.content.len() <= size);
            }
        }
    }
}

#[test]
fn paragraph_chunks_keep_all_text() {
    let text = "alpha beta\n\ngamma\n\n\n\ndelta epsilon";
    let doc = Document::new("p", text);
    let chunks = chunk_document(&doc, &ChunkingStrategy::Paragraph);
    let joined: Vec<String> = chunks.iter().map(|c| c.content.clone()).collect();
    let words: Vec<&str> = text.split_whitespace().collect();
    let joined_text = joined.join(" ");
    let joined_words: Vec<&str> = joined_text.split_whitespace().collect();
    assert_eq!(words, joined_words);
    for (i, c) in chunks.iter().enumerate() {
        assert_eq!(c.position, i);
        assert_eq!(c.id, format!("p_{}", i));
    }
}

#[test]
fn empty_document_has_no_chunks() {
    let doc = Document::new("e", "");
    assert!(chunk_document(&doc, &ChunkingStrategy::Paragraph).is_empty());
    assert!(chunk_document(&doc, &ChunkingStrategy::Sentence).is_empty());
    assert!(chunk_document(&doc, &ChunkingStrategy::FixedSize(5)).is_empty());
    let blank = Document::new("b", "  \n\n \t ");
    assert!(chunk_document(&blank, &ChunkingStrategy::Paragraph).is_empty());
}

#[test]
fn ten_or_more_chunks_get_multi_digit_ids() {
    let text = (0..12).map(|i| format!("s{}", i)).collect::<Vec<_>>().join(". ");
    let doc = Document::new("many", &text);
    let chunks = chunk_document(&doc, &ChunkingStrategy::Sentence);
    assert_eq!(chunks.len(), 12);
    assert_eq!(chunks[11].id, "many_11");
    assert_eq!(chunks[11].content, "s11.");
    assert_eq!(chunks[10].id, "many_10");
}

#[test]
fn multibyte_text_is_cut_at_boundaries() {
    let doc = Document::new("m", "héllo wörld ñandú");
    let strategy = ChunkingStrategy::FixedSize(8);
    assert!(is_chunkable(&doc, &strategy));
    let chunks = chunk_document(&doc, &strategy);
    let contents: Vec<&str> = chunks.iter().map(|c| c.content.as_str()).collect();
    assert_eq!(contents, vec!["héllo", "wörld", "ñandú"]);
}

#[test]
fn chunk_clone_is_equal() {
    let doc = Document::new("c", "one\n\ntwo").with_metadata("k", "v");
    let chunks = chunk_document(&doc, &ChunkingStrategy::Paragraph);
    let copy = chunks[1].clone();
    assert_eq!(copy.id, chunks[1].id);
    assert_eq!(copy.content, "two");
    assert_eq!(copy.metadata.as_vec(), chunks[1].metadata.as_vec());
    assert_eq!(copy.position, 1);
}

#[test]
fn fixed_size_chunks_keep_words_and_stay_within_size() {
    let text = "alpha beta gamma delta epsilon zeta eta theta iota kappa";
    let doc = Document::new("w", text);
    let chunks = chunk_document(&doc, &ChunkingStrategy::FixedSize(12));
    let joined = chunks.iter().map(|c| c.content.clone()).collect::<Vec<_>>().join(" ");
    assert!(joined.split_whitespace().eq(text.split_whitespace()));
    assert!(chunks.iter().all(|c| !c.content.is_empty() && c.content.len() <= 12));
    assert!(chunks.len() <= text.len());
}

#[test]
fn with_metadata_keeps_other_keys() {
    let doc = Document::new("m", "x")
        .with_metadata("a", "1")
        .with_metadata("b", "2")
        .with_metadata("a", "3");
    assert_eq!(doc.metadata.len(), 2);
    assert_eq!(doc.metadata.get("a").unwrap(), "3");
    assert_eq!(doc.metadata.get("b").unwrap(), "2");
    assert!(doc.metadata.get("c").is_none());
}
