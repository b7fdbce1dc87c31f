# rust_rag

The building blocks of a retrieval-augmented generation pipeline, written in
Verus. Every function in `src/` carries a contract; Verus proves all of them
except two trusted wrappers in `src/text.rs`, around std's `String::push` and
`str::to_lowercase`, whose contracts restate what std documents.

- `src/text.rs`: Unicode whitespace, trimming, splitting, joining and substring
  search over `Seq<char>`, with the lemmas that relate them.
- `src/chunking.rs`: documents and chunks; paragraph, sentence and fixed-size
  chunking, with laws that the chunks cover the text and carry distinct ids.
- `src/embedding.rs`: provider configuration and the deterministic mock
  embedding generator.
- `src/retrieval.rs`: top-k ranking by integer keys and the keyword retriever.
- `src/generation.rs`: the mock text generator and the prompt templates.
- `src/indexing.rs`: batch planning and indexing results.
- `src/keyed.rs`: a map from string keys to values whose contents contracts
  can state, used for metadata and by the store.
- `src/storage.rs`: the in-memory vector store, modelled as a map from chunk
  id to entry, with laws on what an add stores and what a refused add leaves.

`app/` holds what Verus does not see: floating-point similarity and
normalisation, the service traits, JSON persistence and logging.
