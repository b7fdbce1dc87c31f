use rust_rag::embedding::{
    create_embedding_generator, mock_chunk_id, mock_embedding_values, EmbeddingConfig,
    EmbeddingError, EmbeddingProvider, MockEmbeddingGenerator,
};

#[test]
fn test_mock_embedding_generator() {
    let generator = MockEmbeddingGenerator::new(128);
    let embedding = generator.generate("This is a test document").unwrap();

    assert_eq!(embedding.dimension, 128);
    assert_eq!(embedding.vector.len(), 128);
}

#[test]
fn mock_generator_names_its_model() {
    let generator = MockEmbeddingGenerator::new(64);
    assert_eq!(generator.model_name(), "mock_model_64d");
    assert_eq!(MockEmbeddingGenerator::new(0).model_name, "mock_model_0d");
    assert_eq!(MockEmbeddingGenerator::new(1536).model_name, "mock_model_1536d");
}

#[test]
fn mock_values_follow_the_hash() {
    // "ab": bytes 97, 98. Component i = (97 * (i % 255) + 98 * ((1 + i) % 255)) % 1000.
    let values = mock_embedding_values("ab", 3).unwrap();
    assert_eq!(values, vec![98, (97 + 196) % 1000, (194 + 294) % 1000]);
    let again = mock_embedding_values("ab", 3).unwrap();
    assert_eq!(values, again);
    assert_eq!(mock_embedding_values("", 4).unwrap(), vec![0, 0, 0, 0]);
    assert!(mock_embedding_values("anything", 0).unwrap().is_empty());
}

#[test]
fn mock_values_wrap_positions_at_255() {
    // The byte at position 254 of component 1 is weighted by (254 + 1) % 255 = 0.
    let text = "a".repeat(256);
    let values = mock_embedding_values(&text, 2).unwrap();
    let expect0: u64 = (0..256u64).map(|p| 97 * (p % 255)).sum();
    let expect1: u64 = (0..256u64).map(|p| 97 * ((p + 1) % 255)).sum();
    assert_eq!(values[0] as u64, expect0 % 1000);
    assert_eq!(values[1] as u64, expect1 % 1000);
}

#[test]
fn mock_values_refuse_overflowing_sums() {
    let text = "é".repeat(200_000);
    assert!(mock_embedding_values(&text, 1).is_none());
}

#[test]
fn mock_chunk_ids_count_bytes() {
    assert_eq!(mock_chunk_id("abc"), "chunk_3");
    assert_eq!(mock_chunk_id("é"), "chunk_2");
    assert_eq!(mock_chunk_id(""), "chunk_0");
}

#[test]
fn only_the_mock_provider_is_implemented() {
    let config = EmbeddingConfig { provider: EmbeddingProvider::Mock { dimension: 32 } };
    let generator = create_embedding_generator(&config).unwrap();
    assert_eq!(generator.dimension, 32);
    assert_eq!(generator.model_name, "mock_model_32d");

    let config = EmbeddingConfig {
        provider: EmbeddingProvider::OpenAI {
            api_key: "SECRET-REDACTED".to_string(),
            model_name: "text-embedding".to_string(),
        },
    };
    assert_eq!(create_embedding_generator(&config).unwrap_err(), EmbeddingError::ProviderNotImplemented);
    let config = EmbeddingConfig { provider: EmbeddingProvider::Local { model_path: "/m".to_string() } };
    assert!(create_embedding_generator(&config).is_err());
}

#[test]
fn providers_describe_themselves() {
    let p = EmbeddingProvider::OpenAI { api_key: "k".to_string(), model_name: "ada".to_string() };
    assert_eq!(p.describe(), "OpenAI (ada)");
    let p = EmbeddingProvider::HuggingFace { api_key: "k".to_string(), model_name: "mini".to_string() };
    assert_eq!(p.describe(), "HuggingFace (mini)");
    let p = EmbeddingProvider::Local { model_path: "/models/x".to_string() };
    assert_eq!(p.describe(), "Local (/models/x)");
    let p = EmbeddingProvider::Mock { dimension: 64 };
    assert_eq!(p.describe(), "Mock (64)");
}

#[test]
fn mock_embedding_carries_chunk_id_and_model() {
    let generator = MockEmbeddingGenerator::new(3);
    let embedding = generator.generate("ab").unwrap();
    assert_eq!(embedding.vector, mock_embedding_values("ab", 3).unwrap());
    assert_eq!(embedding.chunk_id, "chunk_2");
    assert_eq!(embedding.model, "mock_model_3d");
    assert_eq!(embedding.dimension, 3);
}

#[test]
fn long_ascii_text_still_fits() {
    let text = "~".repeat(66311);
    let generator = MockEmbeddingGenerator::new(2);
    assert!(generator.generate(&text).is_some());
}
