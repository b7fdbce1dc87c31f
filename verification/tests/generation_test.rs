use rust_rag::chunking::Chunk;
use rust_rag::generation::{
    create_text_generator, GenerationError, LLMProvider, MockTextGenerator, PromptTemplates,
};

fn create_test_contexts() -> Vec<Chunk> {
    vec![
        Chunk {
            id: "chunk1".to_string(),
            content: "Rust is a systems programming language that emphasizes safety and performance.".to_string(),
            document_id: "doc1".to_string(),
            position: 0,
            metadata: Default::default(),
        },
        Chunk {
            id: "chunk2".to_string(),
            content: "Rust's memory safety guarantees are enforced at compile time.".to_string(),
            document_id: "doc1".to_string(),
            position: 1,
            metadata: Default::default(),
        },
    ]
}

#[test]
fn test_mock_text_generator() {
    let generator = MockTextGenerator::new();
    let contexts = create_test_contexts();

    let result = generator.generate("What is Rust?", &contexts, true);

    assert!(result.response.contains("What is Rust?"));
    assert!(result.response.contains("systems programming language"));
    assert!(result.context.is_some());
    assert_eq!(result.context.unwrap().len(), 2);
}

#[test]
fn mock_response_is_exact() {
    let generator = MockTextGenerator::default();
    let contexts = create_test_contexts();
    let result = generator.generate("What is Rust?", &contexts, false);
    assert_eq!(
        result.response,
        "Query: What is Rust?\n\nResponse: Based on the retrieved information, I can provide the following answer:\n\n\
         - Rust is a systems programming language that emphasizes safety and performance.\n\
         - Rust's memory safety guarantees are enforced at compile time."
    );
    assert_eq!(result.model, "mock-llm-model");
    assert!(result.context.is_none());
    let expected_tokens =
        "What is Rust?".split_whitespace().count() + result.response.split_whitespace().count();
    assert_eq!(result.tokens_used, expected_tokens);

    let empty = generator.generate("Anything?", &Vec::new(), true);
    assert_eq!(
        empty.response,
        "Query: Anything?\n\nResponse: No relevant information found for this query."
    );
    assert_eq!(empty.tokens_used, 1 + 10);
}

#[test]
fn test_prompt_templates() {
    let contexts = create_test_contexts();
    let query = "What is Rust?";

    let prompt = PromptTemplates::default_rag_template(query, &contexts);

    assert!(prompt.contains("Context information:"));
    assert!(prompt.contains("systems programming language"));
    assert!(prompt.contains("Query: What is Rust?"));
}

#[test]
fn rag_prompt_is_exact() {
    let contexts = create_test_contexts();
    let prompt = PromptTemplates::default_rag_template("Q?", &contexts[..1].to_vec());
    assert_eq!(
        prompt,
        "You are an AI assistant answering a question based on the provided context information below.\n\
         Context information:\n\
         --- Context 0 ---\nRust is a systems programming language that emphasizes safety and performance.\n\n\
         Instructions: Based solely on the context provided above, answer the following query. If the context doesn't contain relevant information, say 'I don't have enough information to answer this question.'\n\n\
         Query: Q?\n\nAnswer:"
    );
    let bare = PromptTemplates::default_rag_template("Q?", &Vec::new());
    assert_eq!(
        bare,
        "You are an AI assistant answering a question. No specific context information is provided.\n\nQuery: Q?\n\nAnswer:"
    );
}

#[test]
fn openai_messages_and_completion_prompt() {
    let contexts = create_test_contexts();
    let msgs = PromptTemplates::openai_messages("Why?", &contexts);
    assert_eq!(msgs.len(), 4);
    assert_eq!(msgs[0].role, "system");
    assert_eq!(msgs[1].role, "user");
    assert_eq!(
        msgs[1].content,
        format!(
            "Here is context information to help answer a question:\n\n--- Context 0 ---\n{}\n\n--- Context 1 ---\n{}\n\nUse this context to answer my next question. Only use the provided information.",
            contexts[0].content, contexts[1].content
        )
    );
    assert_eq!(msgs[2].role, "assistant");
    assert_eq!(msgs[3].role, "user");
    assert_eq!(msgs[3].content, "Why?");
    assert_eq!(PromptTemplates::openai_messages("Why?", &Vec::new()).len(), 2);

    let prompt = PromptTemplates::completion_prompt("Why?", &contexts[..1].to_vec());
    assert_eq!(
        prompt,
        format!(
            "Context information:\n[0] {}\n\n\nGiven the context information and not prior knowledge, answer the query.\n\nQuery: Why?\n\nAnswer:",
            contexts[0].content
        )
    );
    assert_eq!(PromptTemplates::completion_prompt("Why?", &Vec::new()), "Query: Why?\n\nAnswer:");
}

#[test]
fn only_the_mock_llm_is_implemented() {
    let generator = create_text_generator(&LLMProvider::Mock).unwrap();
    assert_eq!(generator.model_name(), "mock-llm-model");
    let other = LLMProvider::Ollama { host: "localhost".to_string(), model_name: "llama".to_string() };
    assert_eq!(create_text_generator(&other).err(), Some(GenerationError::ProviderNotImplemented));
}

#[test]
fn llm_providers_describe_themselves() {
    assert_eq!(LLMProvider::Mock.describe(), "Mock LLM");
    let p = LLMProvider::OpenAI { api_key: "SECRET-REDACTED".to_string(), model_name: "gpt".to_string() };
    assert_eq!(p.describe(), "OpenAI (gpt)");
    let p = LLMProvider::Anthropic { api_key: "k".to_string(), model_name: "model-x".to_string() };
    assert_eq!(p.describe(), "Anthropic (model-x)");
    let p = LLMProvider::Ollama { host: "h".to_string(), model_name: "llama".to_string() };
    assert_eq!(p.describe(), "Ollama (llama)");
}

#[test]
fn mock_generation_returns_its_contexts_as_sources() {
    let generator = MockTextGenerator::new();
    let contexts = create_test_contexts();
    let result = generator.generate("What is Rust?", &contexts, true);
    let sources = result.context.unwrap();
    let ids: Vec<&str> = sources.iter().map(|c| c.id.as_str()).collect();
    assert_eq!(ids, vec!["chunk1", "chunk2"]);
    assert_eq!(sources[1].content, contexts[1].content);
    assert_eq!(generator.generate("q", &Vec::new(), true).context.unwrap().len(), 0);
}
