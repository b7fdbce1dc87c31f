use rust_rag::chunking::{chunk_document, Chunk, ChunkingStrategy, Document};
use rust_rag::embedding::{mock_embedding_values, MockEmbeddingGenerator};
use rust_rag::indexing::{batch_ranges, indexing_result, IndexingConfig};
use rust_rag::storage::{EmbeddingRecord, InMemoryVectorStore, StoreError};
use rust_rag::keyed::Keyed;

fn record(chunk_id: &str, dimension: usize, model: &str) -> EmbeddingRecord<Vec<u32>> {
    EmbeddingRecord {
        vector: vec![1; dimension],
        chunk_id: chunk_id.to_string(),
        dimension,
        model: model.to_string(),
    }
}

fn mock_record(generator: &MockEmbeddingGenerator, chunk: &Chunk) -> EmbeddingRecord<Vec<u32>> {
    let mut embedding = generator.generate(&chunk.content).unwrap();
    embedding.chunk_id = chunk.id.clone();
    assert_eq!(embedding.vector, mock_embedding_values(&chunk.content, generator.dimension).unwrap());
    embedding
}

fn create_test_data() -> (Vec<Chunk>, Vec<EmbeddingRecord<Vec<u32>>>) {
    let chunks = vec![
        Chunk {
            id: "chunk1".to_string(),
            content: "This is the first test chunk".to_string(),
            document_id: "doc1".to_string(),
            position: 0,
            metadata: Keyed::new(),
        },
        Chunk {
            id: "chunk2".to_string(),
            content: "This is the second test chunk".to_string(),
            document_id: "doc1".to_string(),
            position: 1,
            metadata: Keyed::new(),
        },
    ];
    let generator = MockEmbeddingGenerator::new(64);
    let embeddings = chunks.iter().map(|c| mock_record(&generator, c)).collect();
    (chunks, embeddings)
}

/// Integer closeness of two mock vectors: larger is closer.
fn closeness(a: &[u32], b: &[u32]) -> u128 {
    let dist: u128 = a.iter().zip(b).map(|(x, y)| (*x as i64 - *y as i64).unsigned_abs() as u128).sum();
    u128::MAX - dist
}

#[test]
fn test_in_memory_vector_store() {
    let (chunks, embeddings) = create_test_data();
    let query = embeddings[0].vector.clone();

    let mut store = InMemoryVectorStore::new().with_metadata("mock_model_64d", 64);

    store.add_many(embeddings, chunks.clone()).unwrap();
    assert_eq!(store.size(), 2);

    let keys: Vec<u128> = store.embedding_list().iter().map(|(_, e)| closeness(&e.vector, &query)).collect();
    let results = store.search_ranked(&keys, 2);

    assert_eq!(results.len(), 2);
    assert!(keys[results[0].entry] >= keys[results[1].entry]);
    assert_eq!(results[0].chunk.id, "chunk1");

    store.clear();
    assert_eq!(store.size(), 0);
    assert_eq!(store.metadata().as_ref().unwrap().entry_count, 0);
}

#[test]
fn store_refuses_other_dimensions_and_models() {
    let (chunks, _) = create_test_data();
    let mut store = InMemoryVectorStore::new().with_metadata("m", 4);
    match store.add(record("chunk1", 5, "m"), chunks[0].clone()) {
        Err(StoreError::DimensionMismatch { expected_dimension, got_dimension }) => {
            assert_eq!((expected_dimension, got_dimension), (4, 5));
        }
        other => panic!("unexpected {:?}", other),
    }
    match store.add(record("chunk1", 4, "other"), chunks[0].clone()) {
        Err(StoreError::ModelMismatch { expected_model, got_model }) => {
            assert_eq!(expected_model, "m");
            assert_eq!(got_model, "other");
        }
        other => panic!("unexpected {:?}", other),
    }
    assert_eq!(store.size(), 0);
    // Refused adds are counted too.
    assert_eq!(store.metadata().as_ref().unwrap().entry_count, 2);
    store.add(record("chunk1", 4, "m"), chunks[0].clone()).unwrap();
    assert_eq!(store.size(), 1);
    assert_eq!(store.metadata().as_ref().unwrap().entry_count, 3);
    assert_eq!(store.metadata().as_ref().unwrap().version, rust_rag::VERSION);
}

#[test]
fn store_without_metadata_takes_anything_and_replaces_by_id() {
    let (chunks, _) = create_test_data();
    let mut store: InMemoryVectorStore<Vec<u32>> = InMemoryVectorStore::new();
    store.add(record("x", 3, "a"), chunks[0].clone()).unwrap();
    store.add(record("y", 7, "b"), chunks[1].clone()).unwrap();
    store.add(record("z", 1, "c"), chunks[0].clone()).unwrap();
    assert_eq!(store.size(), 2);
    assert!(store.metadata().is_none());
    let list = store.embedding_list();
    assert_eq!(list.len(), 2);
    assert_eq!(list[0].0, "chunk1");
    assert_eq!(list[0].1.dimension, 1);
}

#[test]
fn add_many_checks_counts_and_stops_at_first_refusal() {
    let (chunks, _) = create_test_data();
    let mut store = InMemoryVectorStore::new().with_metadata("m", 2);
    match store.add_many(vec![record("a", 2, "m")], chunks.clone()) {
        Err(StoreError::CountMismatch { embeddings, chunks }) => assert_eq!((embeddings, chunks), (1, 2)),
        other => panic!("unexpected {:?}", other),
    }
    assert_eq!(store.size(), 0);
    assert_eq!(store.metadata().as_ref().unwrap().entry_count, 0);

    let third = Chunk { id: "chunk3".to_string(), ..chunks[0].clone() };
    let result = store.add_many(
        vec![record("a", 2, "m"), record("b", 9, "m"), record("c", 2, "m")],
        vec![chunks[0].clone(), chunks[1].clone(), third],
    );
    assert!(matches!(result, Err(StoreError::DimensionMismatch { .. })));
    assert_eq!(store.size(), 1);
    assert_eq!(store.metadata().as_ref().unwrap().entry_count, 2);
}

#[test]
fn search_skips_embeddings_without_chunks() {
    let (chunks, _) = create_test_data();
    let mut store: InMemoryVectorStore<Vec<u32>> = InMemoryVectorStore::new();
    store.add(record("chunk1", 1, "m"), chunks[0].clone()).unwrap();
    let orphan = record("ghost", 1, "m");
    store.insert_loaded(chunks[1].clone(), orphan);
    // Entries: chunk1 (from add), ghost (loaded, no chunk of that id).
    assert_eq!(store.embedding_list().len(), 2);
    let keys = vec![1u128, 5u128];
    let results = store.search_ranked(&keys, 1);
    assert!(results.is_empty());
    let results = store.search_ranked(&keys, 2);
    assert_eq!(results.len(), 1);
    assert_eq!(results[0].entry, 0);
    assert_eq!(results[0].chunk.id, "chunk1");
}

#[test]
fn saved_entries_pair_chunks_with_embeddings() {
    let (chunks, embeddings) = create_test_data();
    let mut store = InMemoryVectorStore::new();
    store.add_many(embeddings, chunks).unwrap();
    let extra = Chunk { id: "lonely".to_string(), content: "x".to_string(), document_id: "d".to_string(), position: 0, metadata: Keyed::new() };
    store.insert_loaded(extra, record("elsewhere", 64, "m"));
    let saved = store.saved_entries();
    let ids: Vec<&str> = saved.iter().map(|(c, _)| c.id.as_str()).collect();
    assert_eq!(ids, vec!["chunk1", "chunk2"]);
    assert_eq!(saved[1].1.chunk_id, "chunk2");
}

#[test]
fn test_indexing_service() {
    let generator = MockEmbeddingGenerator::new(64);
    let mut store = InMemoryVectorStore::new().with_metadata(generator.model_name(), 64);
    let config = IndexingConfig::default();

    let doc = Document::new(
        "test-doc-1",
        "This is a test document. It has multiple sentences.\n\nThis is a second paragraph.",
    )
    .with_metadata("source", "test");

    let chunks = chunk_document(&doc, &config.chunking_strategy);
    for (start, end) in batch_ranges(chunks.len(), config.batch_size) {
        let batch: Vec<Chunk> = chunks[start..end].to_vec();
        let embeddings = batch.iter().map(|c| mock_record(&generator, c)).collect();
        store.add_many(embeddings, batch).unwrap();
    }
    let result = indexing_result(&doc.id, chunks.len());

    assert_eq!(result.document_id, "test-doc-1");
    assert_eq!(result.chunk_count, 2);
    assert_eq!(result.embedding_count, 2);
    assert_eq!(store.size(), 2);
}

#[test]
fn test_batch_processing() {
    let generator = MockEmbeddingGenerator::new(64);
    let mut store = InMemoryVectorStore::new().with_metadata(generator.model_name(), 64);
    let config = IndexingConfig { chunking_strategy: ChunkingStrategy::Sentence, batch_size: 2 };

    let doc = Document::new(
        "test-doc-2",
        "This is sentence one. This is sentence two. This is sentence three. This is sentence four.",
    );

    let chunks = chunk_document(&doc, &config.chunking_strategy);
    let ranges = batch_ranges(chunks.len(), config.batch_size);
    assert_eq!(ranges, vec![(0, 2), (2, 4)]);
    for (start, end) in ranges {
        let batch: Vec<Chunk> = chunks[start..end].to_vec();
        let embeddings = batch.iter().map(|c| mock_record(&generator, c)).collect();
        store.add_many(embeddings, batch).unwrap();
    }
    let result = indexing_result(&doc.id, chunks.len());

    assert_eq!(result.chunk_count, 4);
    assert_eq!(store.size(), 4);
}

#[test]
fn batch_plans_cover_every_chunk_once() {
    assert_eq!(batch_ranges(0, 3), vec![]);
    assert_eq!(batch_ranges(7, 3), vec![(0, 3), (3, 6), (6, 7)]);
    assert_eq!(batch_ranges(6, 3), vec![(0, 3), (3, 6)]);
    assert_eq!(batch_ranges(2, 10), vec![(0, 2)]);
    assert_eq!(batch_ranges(3, 1), vec![(0, 1), (1, 2), (2, 3)]);
    let config = IndexingConfig::default();
    assert!(matches!(config.chunking_strategy, ChunkingStrategy::Paragraph));
    assert_eq!(config.batch_size, 10);
}

#[test]
fn test_storage_and_retrieval_workflow() {
    let doc = Document::new(
        "storage-test-doc",
        "This is a test document for the storage system.\n\n\
         It contains multiple paragraphs that will be stored in the vector store.",
    );
    let generator = MockEmbeddingGenerator::new(64);
    let chunks = chunk_document(&doc, &ChunkingStrategy::Paragraph);
    let embeddings: Vec<_> = chunks.iter().map(|c| mock_record(&generator, c)).collect();

    let mut store = InMemoryVectorStore::new().with_metadata(generator.model_name(), 64);
    store.add_many(embeddings, chunks.clone()).unwrap();
    assert_eq!(store.size(), chunks.len());

    let query = mock_embedding_values("test document", 64).unwrap();
    let keys: Vec<u128> = store.embedding_list().iter().map(|(_, e)| closeness(&e.vector, &query)).collect();
    let results = store.search_ranked(&keys, 2);
    assert!(!results.is_empty());
    let original_ids: Vec<&String> = chunks.iter().map(|c| &c.id).collect();
    assert!(results.iter().any(|h| original_ids.contains(&&h.chunk.id)));
}

fn plain_chunk(id: &str) -> Chunk {
    Chunk {
        id: id.to_string(),
        content: format!("content of {id}"),
        document_id: "doc".to_string(),
        position: 0,
        metadata: Keyed::new(),
    }
}

#[test]
fn size_grows_only_for_new_ids() {
    let mut store = InMemoryVectorStore::new().with_metadata("m", 2);
    assert_eq!(store.size(), 0);
    store.add(record("a", 2, "m"), plain_chunk("a")).unwrap();
    assert_eq!(store.size(), 1);
    store.add(record("b", 2, "m"), plain_chunk("b")).unwrap();
    assert_eq!(store.size(), 2);
    // The same identifier again replaces the entry.
    store.add(record("a", 2, "m"), plain_chunk("a")).unwrap();
    assert_eq!(store.size(), 2);
    // A refused add leaves the size as it was.
    assert!(store.add(record("c", 3, "m"), plain_chunk("c")).is_err());
    assert_eq!(store.size(), 2);
    assert_eq!(store.metadata().as_ref().unwrap().entry_count, 4);
}
