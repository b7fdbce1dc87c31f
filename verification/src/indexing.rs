//! Indexing documents: configuration, the batch plan and the result record.
//!
//! Embedding the batches is the caller's work (the vectors are
//! floating-point); storing them is `storage::InMemoryVectorStore::add_many`.

use vstd::prelude::*;
use crate::chunking::ChunkingStrategy;

verus! {

/// Result of indexing one document.
#[derive(Debug)]
pub struct IndexingResult {
    /// Document ID that was indexed
    pub document_id: String,
    /// Number of chunks created
    pub chunk_count: usize,
    /// Number of embeddings generated
    pub embedding_count: usize,
}

/// Configuration for the indexing process.
#[derive(Debug, Clone, Copy)]
pub struct IndexingConfig {
    /// The chunking strategy to use
    pub chunking_strategy: ChunkingStrategy,
    /// Maximum number of chunks to process at once
    pub batch_size: usize,
}

impl Default for IndexingConfig {
    /// Paragraph chunking in batches of ten.
    fn default() -> (c: IndexingConfig)
        ensures
            c.chunking_strategy == ChunkingStrategy::Paragraph,
            c.batch_size == 10,
    {
        IndexingConfig { chunking_strategy: ChunkingStrategy::Paragraph, batch_size: 10 }
    }
}

/// The batches `[start, end)` that `total` chunks are processed in, as
/// `slice::chunks(batch_size)` cuts them: consecutive, `batch_size` long, the
/// last one possibly shorter.
pub open spec fn is_batch_plan(total: nat, batch_size: nat, r: Seq<(usize, usize)>) -> bool {
    &&& r.len() * batch_size >= total
    &&& r.len() == 0 || (r.len() - 1) * batch_size < total
    &&& forall|i: int|
        0 <= i < r.len() ==> (#[trigger] r[i]).0 == i * batch_size && r[i].1 == if (i + 1)
            * batch_size <= total {
            (i + 1) * batch_size
        } else {
            total as int
        }
}

/// The batches that `total` chunks are processed in.
pub fn batch_ranges(total: usize, batch_size: usize) -> (r: Vec<(usize, usize)>)
    requires
        batch_size > 0,
    ensures
        is_batch_plan(total as nat, batch_size as nat, r@),
{
    let mut r: Vec<(usize, usize)> = Vec::new();
    let mut start: usize = 0;
    assert(r@.len() * batch_size == 0) by (nonlinear_arith)
        requires
            r@.len() == 0,
    ;
    while start < total
        invariant
            batch_size > 0,
            start <= total,
            start == r@.len() * batch_size,
            r@.len() == 0 || (r@.len() - 1) * batch_size < total,
            forall|i: int|
                0 <= i < r@.len() ==> (#[trigger] r@[i]).0 == i * batch_size && r@[i].1 == if (i
                    + 1) * batch_size <= total {
                    (i + 1) * batch_size
                } else {
                    total as int
                },
        decreases total - start,
    {
        let end = if total - start <= batch_size {
            total
        } else {
            start + batch_size
        };
        let ghost k = r@.len();
        assert((k + 1) * batch_size == k * batch_size + batch_size) by (nonlinear_arith);
        r.push((start, end));
        if end == total {
            assert(r@.len() * batch_size >= total);
            return r;
        }
        start = end;
    }
    r
}

/// The record of a document indexed into `chunk_count` chunks, one embedding each.
pub fn indexing_result(document_id: &String, chunk_count: usize) -> (r: IndexingResult)
    ensures
        r.document_id@ == document_id@,
        r.chunk_count == chunk_count,
        r.embedding_count == chunk_count,
{
    IndexingResult {
        document_id: document_id.clone(),
        chunk_count,
        embedding_count: chunk_count,
    }
}

} // verus!
