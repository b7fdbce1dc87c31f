//! An in-memory store of chunks and their embeddings.
//!
//! The store keeps, by chunk identifier, each chunk and each embedding. An
//! embedding is a record whose vector is opaque here (`V`): similarity
//! between vectors is floating-point and is computed by the caller, who ranks
//! the stored embeddings through integer keys.

use vstd::prelude::*;
use crate::chunking::Chunk;
use crate::retrieval::{is_top_ranking, int_keys, rank_top_k};
use crate::keyed::{Keyed, lemma_to_map};

verus! {

/// The elements of `v` in reverse order.
fn reversed<T>(v: Vec<T>) -> (r: Vec<T>)
    ensures
        r@.len() == v@.len(),
        forall|t: int| 0 <= t < v@.len() ==> #[trigger] r@[t] == v@[v@.len() - 1 - t],
{
    let ghost orig = v@;
    let mut v = v;
    let mut r: Vec<T> = Vec::new();
    while v.len() > 0
        invariant
            v@.len() + r@.len() == orig.len(),
            v@ == orig.subrange(0, v@.len() as int),
            forall|t: int| 0 <= t < r@.len() ==> #[trigger] r@[t] == orig[orig.len() - 1 - t],
        decreases v@.len(),
    {
        let x = v.pop().unwrap();
        r.push(x);
    }
    r
}

/// An embedding as the store keeps it: its vector, which the store does not
/// read, and what the store checks and files it by.
#[derive(Debug)]
pub struct EmbeddingRecord<V> {
    /// The vector representation
    pub vector: V,
    /// The ID of the chunk this embedding represents
    pub chunk_id: String,
    /// The dimension of the embedding vector
    pub dimension: usize,
    /// The model used to generate this embedding
    pub model: String,
}

/// What the store records about the embeddings it accepts.
#[derive(Debug)]
pub struct StoreMetadata {
    pub version: String,
    pub embedding_model: String,
    pub embedding_dimension: usize,
    pub entry_count: usize,
}

/// Why the store refused an operation.
#[derive(Debug)]
pub enum StoreError {
    /// `add_many` got different numbers of embeddings and chunks.
    CountMismatch { embeddings: usize, chunks: usize },
    /// The embedding's dimension is not the store's.
    DimensionMismatch { expected_dimension: usize, got_dimension: usize },
    /// The embedding's model is not the store's.
    ModelMismatch { expected_model: String, got_model: String },
}

/// The abstract state of a store: chunks and embeddings by chunk identifier,
/// and the metadata.
pub struct StoreView<V> {
    pub chunks: Map<Seq<char>, Chunk>,
    pub embeddings: Map<Seq<char>, EmbeddingRecord<V>>,
    pub metadata: Option<StoreMetadata>,
}

/// `c` and `e` filed under the chunk's identifier.
pub open spec fn with_entry<V>(s: StoreView<V>, e: EmbeddingRecord<V>, c: Chunk) -> StoreView<V> {
    StoreView {
        chunks: s.chunks.insert(c.id@, c),
        embeddings: s.embeddings.insert(c.id@, e),
        metadata: s.metadata,
    }
}

/// `add` can count one more entry.
pub open spec fn can_add<V>(s: StoreView<V>) -> bool {
    s.metadata matches Some(m) ==> m.entry_count < usize::MAX
}

/// What adding `e` for `c` does. With metadata, the entry is counted first;
/// then an embedding of another dimension or model is refused, leaving the
/// chunks and embeddings as they were.
pub open spec fn spec_add<V>(s: StoreView<V>, e: EmbeddingRecord<V>, c: Chunk) -> (StoreView<V>, Result<(), StoreError>) {
    match s.metadata {
        Some(m) => {
            let counted = StoreView {
                chunks: s.chunks,
                embeddings: s.embeddings,
                metadata: Some(StoreMetadata {
                    version: m.version,
                    embedding_model: m.embedding_model,
                    embedding_dimension: m.embedding_dimension,
                    entry_count: (m.entry_count + 1) as usize,
                }),
            };
            if e.dimension != m.embedding_dimension {
                (counted, Err(StoreError::DimensionMismatch { expected_dimension: m.embedding_dimension, got_dimension: e.dimension }))
            } else if e.model@ != m.embedding_model@ {
                (counted, Err(StoreError::ModelMismatch { expected_model: m.embedding_model, got_model: e.model }))
            } else {
                (with_entry(counted, e, c), Ok(()))
            }
        },
        None => (with_entry(s, e, c), Ok(())),
    }
}

/// Adding the pairs `(es[i], cs[i])` in order, stopping at the first refusal.
pub open spec fn spec_add_all<V>(s: StoreView<V>, es: Seq<EmbeddingRecord<V>>, cs: Seq<Chunk>) -> (StoreView<V>, Result<(), StoreError>)
    decreases es.len(),
{
    if es.len() == 0 {
        (s, Ok(()))
    } else {
        let (s1, r1) = spec_add(s, es[0], cs[0]);
        if r1 is Err {
            (s1, r1)
        } else {
            spec_add_all(s1, es.drop_first(), cs.drop_first())
        }
    }
}

/// No entry count overflows while the pairs are added.
pub open spec fn can_add_all<V>(s: StoreView<V>, es: Seq<EmbeddingRecord<V>>, cs: Seq<Chunk>) -> bool
    decreases es.len(),
{
    if es.len() == 0 {
        true
    } else {
        let (s1, r1) = spec_add(s, es[0], cs[0]);
        can_add(s) && (r1 is Err || can_add_all(s1, es.drop_first(), cs.drop_first()))
    }
}

/// A read gives back what an accepted add wrote: the chunk and the embedding
/// under the chunk's identifier, while every other identifier keeps what it held.
pub proof fn lemma_add_then_read<V>(s: StoreView<V>, e: EmbeddingRecord<V>, c: Chunk, id: Seq<char>)
    requires
        s.metadata matches Some(m) ==> e.dimension == m.embedding_dimension && e.model@ == m.embedding_model@,
    ensures
        spec_add(s, e, c).1 is Ok,
        spec_add(s, e, c).0.chunks.contains_key(c.id@),
        spec_add(s, e, c).0.chunks[c.id@] == c,
        spec_add(s, e, c).0.embeddings.contains_key(c.id@),
        spec_add(s, e, c).0.embeddings[c.id@] == e,
        id != c.id@ ==> spec_add(s, e, c).0.chunks.contains_key(id) == s.chunks.contains_key(id)
            && spec_add(s, e, c).0.chunks[id] == s.chunks[id]
            && spec_add(s, e, c).0.embeddings.contains_key(id) == s.embeddings.contains_key(id)
            && spec_add(s, e, c).0.embeddings[id] == s.embeddings[id],
{
}

/// A refused add stores nothing: chunks and embeddings stay as they were.
pub proof fn lemma_refused_add_stores_nothing<V>(s: StoreView<V>, e: EmbeddingRecord<V>, c: Chunk)
    ensures
        spec_add(s, e, c).1 is Err ==> spec_add(s, e, c).0.chunks == s.chunks
            && spec_add(s, e, c).0.embeddings == s.embeddings,
{
}

/// A store with metadata refuses an embedding of another dimension, reporting
/// both dimensions, and one of the right dimension but another model,
/// reporting both models; either way it stores nothing.
pub proof fn lemma_add_refuses_mismatch<V>(s: StoreView<V>, e: EmbeddingRecord<V>, c: Chunk)
    requires
        s.metadata is Some,
        e.dimension != s.metadata->0.embedding_dimension || e.model@ != s.metadata->0.embedding_model@,
    ensures
        spec_add(s, e, c).0.chunks == s.chunks,
        spec_add(s, e, c).0.embeddings == s.embeddings,
        e.dimension != s.metadata->0.embedding_dimension ==> (spec_add(s, e, c).1 matches Err(
            StoreError::DimensionMismatch { expected_dimension: x, got_dimension: y },
        ) && x == s.metadata->0.embedding_dimension && y == e.dimension),
        e.dimension == s.metadata->0.embedding_dimension ==> (spec_add(s, e, c).1 matches Err(
            StoreError::ModelMismatch { expected_model: x, got_model: y },
        ) && x@ == s.metadata->0.embedding_model@ && y@ == e.model@),
{
}

/// A store accepts an embedding exactly when it has no metadata, or the
/// embedding has the store's dimension and model.
pub proof fn lemma_add_accepts_iff<V>(s: StoreView<V>, e: EmbeddingRecord<V>, c: Chunk)
    ensures
        spec_add(s, e, c).1 is Ok <==> (s.metadata is None || (e.dimension
            == s.metadata->0.embedding_dimension && e.model@ == s.metadata->0.embedding_model@)),
{
}

/// An add changes the number of stored chunks only when it is accepted, and
/// then by one exactly when the chunk's identifier was not stored before.
pub proof fn lemma_add_size<V>(s: StoreView<V>, e: EmbeddingRecord<V>, c: Chunk)
    requires
        s.chunks.dom().finite(),
    ensures
        spec_add(s, e, c).0.chunks.dom().finite(),
        spec_add(s, e, c).0.chunks.len() == s.chunks.len() + if spec_add(s, e, c).1 is Ok
            && !s.chunks.contains_key(c.id@) {
            1int
        } else {
            0int
        },
{
}

/// With metadata, every add is counted, whether it is accepted or refused.
pub proof fn lemma_add_counts<V>(s: StoreView<V>, e: EmbeddingRecord<V>, c: Chunk)
    requires
        can_add(s),
    ensures
        s.metadata matches Some(m) ==> (spec_add(s, e, c).0.metadata matches Some(m2)
            && m2.entry_count == m.entry_count + 1 && m2.embedding_model == m.embedding_model
            && m2.embedding_dimension == m.embedding_dimension),
        s.metadata is None ==> spec_add(s, e, c).0.metadata is None,
{
}

/// Adding in two batches is adding the whole: the second batch is added to
/// what the first left, unless the first was refused.
pub proof fn lemma_add_all_batches<V>(
    s: StoreView<V>,
    es1: Seq<EmbeddingRecord<V>>,
    cs1: Seq<Chunk>,
    es2: Seq<EmbeddingRecord<V>>,
    cs2: Seq<Chunk>,
)
    requires
        es1.len() == cs1.len(),
    ensures
        spec_add_all(s, es1 + es2, cs1 + cs2) == if spec_add_all(s, es1, cs1).1 is Err {
            spec_add_all(s, es1, cs1)
        } else {
            spec_add_all(spec_add_all(s, es1, cs1).0, es2, cs2)
        },
    decreases es1.len(),
{
    if es1.len() > 0 {
        let (s1, r1) = spec_add(s, es1[0], cs1[0]);
        assert((es1 + es2)[0] == es1[0]);
        assert((cs1 + cs2)[0] == cs1[0]);
        assert((es1 + es2).drop_first() =~= es1.drop_first() + es2);
        assert((cs1 + cs2).drop_first() =~= cs1.drop_first() + cs2);
        if r1 is Ok {
            lemma_add_all_batches(s1, es1.drop_first(), cs1.drop_first(), es2, cs2);
        }
    } else {
        assert(es1 + es2 =~= es2);
        assert(cs1 + cs2 =~= cs2);
    }
}

/// The chunks carry pairwise different identifiers.
pub open spec fn distinct_chunk_ids(cs: Seq<Chunk>) -> bool {
    forall|i: int, j: int| 0 <= i < j < cs.len() ==> (#[trigger] cs[i]).id@ != (#[trigger] cs[j]).id@
}

/// The store's metadata, if any, accepts every one of the embeddings.
pub open spec fn accepts_all<V>(s: StoreView<V>, es: Seq<EmbeddingRecord<V>>) -> bool {
    forall|i: int|
        0 <= i < es.len() ==> (s.metadata matches Some(m) ==> (#[trigger] es[i]).dimension
            == m.embedding_dimension && es[i].model@ == m.embedding_model@)
}

/// Adding accepted embeddings for chunks with new, pairwise different
/// identifiers succeeds, stores each chunk under its identifier, keeps every
/// other identifier's chunk, and so grows the store by one chunk per pair.
pub proof fn lemma_add_all_fresh<V>(s: StoreView<V>, es: Seq<EmbeddingRecord<V>>, cs: Seq<Chunk>)
    requires
        es.len() == cs.len(),
        distinct_chunk_ids(cs),
        forall|i: int| 0 <= i < cs.len() ==> !s.chunks.contains_key((#[trigger] cs[i]).id@),
        accepts_all(s, es),
        s.chunks.dom().finite(),
    ensures
        spec_add_all(s, es, cs).1 is Ok,
        spec_add_all(s, es, cs).0.chunks.dom().finite(),
        spec_add_all(s, es, cs).0.chunks.len() == s.chunks.len() + cs.len(),
        forall|i: int| 0 <= i < cs.len() ==> spec_add_all(s, es, cs).0.chunks.contains_key((#[trigger] cs[i]).id@)
            && spec_add_all(s, es, cs).0.chunks[cs[i].id@] == cs[i],
        forall|k: Seq<char>|
            #![trigger spec_add_all(s, es, cs).0.chunks.contains_key(k)]
            #![trigger spec_add_all(s, es, cs).0.chunks[k]]
            (forall|i: int| 0 <= i < cs.len() ==> (#[trigger] cs[i]).id@ != k) ==> spec_add_all(s, es, cs).0.chunks.contains_key(k)
                == s.chunks.contains_key(k) && spec_add_all(s, es, cs).0.chunks[k] == s.chunks[k],
    decreases es.len(),
{
    if es.len() > 0 {
        let (s1, r1) = spec_add(s, es[0], cs[0]);
        assert(es[0].dimension == es[0].dimension);
        assert(r1 is Ok);
        let es1 = es.drop_first();
        let cs1 = cs.drop_first();
        assert(s1.chunks == s.chunks.insert(cs[0].id@, cs[0]));
        assert(distinct_chunk_ids(cs1)) by {
            assert forall|i: int, j: int| 0 <= i < j < cs1.len() implies (#[trigger] cs1[i]).id@ != (#[trigger] cs1[j]).id@ by {
                assert(cs1[i] == cs[i + 1] && cs1[j] == cs[j + 1]);
            }
        }
        assert forall|i: int| 0 <= i < cs1.len() implies !s1.chunks.contains_key((#[trigger] cs1[i]).id@) by {
            assert(cs1[i] == cs[i + 1]);
        }
        assert(accepts_all(s1, es1)) by {
            assert forall|i: int| 0 <= i < es1.len() implies (s1.metadata matches Some(m) ==> (#[trigger] es1[i]).dimension
                == m.embedding_dimension && es1[i].model@ == m.embedding_model@) by {
                assert(es1[i] == es[i + 1]);
            }
        }
        lemma_add_all_fresh(s1, es1, cs1);
        let f = spec_add_all(s, es, cs).0;
        assert(spec_add_all(s, es, cs) == spec_add_all(s1, es1, cs1));
        let f1 = spec_add_all(s1, es1, cs1).0;
        assert(f == f1);
        assert forall|i: int| 0 <= i < cs.len() implies f.chunks.contains_key((#[trigger] cs[i]).id@)
            && f.chunks[cs[i].id@] == cs[i] by {
            if i == 0 {
                let k = cs[0].id@;
                assert forall|j: int| 0 <= j < cs1.len() implies (#[trigger] cs1[j]).id@ != k by {
                    assert(cs1[j] == cs[j + 1]);
                }
                assert(f1.chunks.contains_key(k) == s1.chunks.contains_key(k) && f1.chunks[k] == s1.chunks[k]);
            } else {
                assert(cs1[i - 1] == cs[i]);
                assert(f1.chunks.contains_key(cs1[i - 1].id@) && f1.chunks[cs1[i - 1].id@] == cs1[i - 1]);
            }
        }
        assert forall|k: Seq<char>|
            (forall|i: int| 0 <= i < cs.len() ==> (#[trigger] cs[i]).id@ != k) implies f.chunks.contains_key(k)
                == s.chunks.contains_key(k) && f.chunks[k] == s.chunks[k] by {
            assert(cs[0].id@ != k);
            assert forall|j: int| 0 <= j < cs1.len() implies (#[trigger] cs1[j]).id@ != k by {
                assert(cs1[j] == cs[j + 1]);
            }
            assert(f1.chunks.contains_key(k) == s1.chunks.contains_key(k) && f1.chunks[k] == s1.chunks[k]);
        }
    }
}

/// The version recorded in a store's metadata.
pub open spec fn store_version() -> Seq<char> {
    crate::VERSION@
}

/// A simple in-memory vector store.
pub struct InMemoryVectorStore<V> {
    /// Chunks by chunk identifier
    chunks: Keyed<Chunk>,
    /// Embeddings by chunk identifier
    embeddings: Keyed<EmbeddingRecord<V>>,
    /// Metadata about the store
    metadata: Option<StoreMetadata>,
}

impl<V> InMemoryVectorStore<V> {
    /// The abstract state.
    pub closed spec fn view(&self) -> StoreView<V> {
        StoreView {
            chunks: self.chunks.view(),
            embeddings: self.embeddings.view(),
            metadata: self.metadata,
        }
    }

    /// The stored embeddings, in the order in which their identifiers first arrived.
    pub closed spec fn embedding_entries(&self) -> Seq<(String, EmbeddingRecord<V>)> {
        self.embeddings.entries()
    }

    /// The store's internal invariant.
    pub closed spec fn wf(&self) -> bool {
        self.chunks.wf() && self.embeddings.wf()
    }

    /// The stored embeddings are filed under their entries' keys.
    pub proof fn lemma_entries(&self)
        requires
            self.wf(),
        ensures
            forall|i: int| 0 <= i < self.embedding_entries().len() ==> {
                &&& self.view().embeddings.contains_key(#[trigger] self.embedding_entries()[i].0@)
                &&& self.view().embeddings[self.embedding_entries()[i].0@] == self.embedding_entries()[i].1
            },
            self.view().embeddings.len() == self.embedding_entries().len(),
    {
        lemma_to_map(self.embeddings.entries());
    }

    /// The store holds finitely many chunks and embeddings.
    pub proof fn lemma_finite(&self)
        requires
            self.wf(),
        ensures
            self.view().chunks.dom().finite(),
            self.view().embeddings.dom().finite(),
    {
        lemma_to_map(self.chunks.entries());
        lemma_to_map(self.embeddings.entries());
    }

    /// An empty store without metadata.
    pub fn new() -> (s: InMemoryVectorStore<V>)
        ensures
            s.wf(),
            s.view().chunks == Map::<Seq<char>, Chunk>::empty(),
            s.view().embeddings == Map::<Seq<char>, EmbeddingRecord<V>>::empty(),
            s.view().metadata is None,
    {
        InMemoryVectorStore { chunks: Keyed::new(), embeddings: Keyed::new(), metadata: None }
    }

    /// The store, set to accept embeddings of `model` with `dimension` components.
    pub fn with_metadata(self, model: &str, dimension: usize) -> (s: InMemoryVectorStore<V>)
        requires
            self.wf(),
        ensures
            s.wf(),
            s.view().chunks == self.view().chunks,
            s.view().embeddings == self.view().embeddings,
            s.view().metadata matches Some(m) && m.version@ == store_version()
                && m.embedding_model@ == model@ && m.embedding_dimension == dimension
                && m.entry_count == 0,
    {
        let mut s = self;
        s.metadata = Some(StoreMetadata {
            version: crate::text::string_from(crate::VERSION),
            embedding_model: crate::text::string_from(model),
            embedding_dimension: dimension,
            entry_count: 0,
        });
        s
    }

    /// The store's metadata.
    pub fn metadata(&self) -> (m: &Option<StoreMetadata>)
        ensures
            *m == self.view().metadata,
    {
        &self.metadata
    }

    /// Adds an embedding with its chunk, both filed under the chunk's identifier.
    pub fn add(&mut self, embedding: EmbeddingRecord<V>, chunk: Chunk) -> (r: Result<(), StoreError>)
        requires
            old(self).wf(),
            can_add(old(self).view()),
        ensures
            final(self).wf(),
            (final(self).view(), r) == spec_add(old(self).view(), embedding, chunk),
            final(self).view().chunks.len() == old(self).view().chunks.len() + if r is Ok
                && !old(self).view().chunks.contains_key(chunk.id@) {
                1int
            } else {
                0int
            },
    {
        proof {
            old(self).lemma_finite();
            lemma_add_size(old(self).view(), embedding, chunk);
        }
        let ghost e = embedding;
        let ghost c = chunk;
        match &mut self.metadata {
            Some(meta) => {
                meta.entry_count = meta.entry_count + 1;
                if embedding.dimension != meta.embedding_dimension {
                    return Err(StoreError::DimensionMismatch {
                        expected_dimension: meta.embedding_dimension,
                        got_dimension: embedding.dimension,
                    });
                }
                if !(embedding.model == meta.embedding_model) {
                    return Err(StoreError::ModelMismatch {
                        expected_model: meta.embedding_model.clone(),
                        got_model: embedding.model,
                    });
                }
            },
            None => {},
        }
        let chunk_id = chunk.id.clone();
        self.chunks.insert(chunk_id.clone(), chunk);
        self.embeddings.insert(chunk_id, embedding);
        Ok(())
    }

    /// Adds the pairs `(embeddings[i], chunks[i])` in order, stopping at the
    /// first refusal; different numbers of embeddings and chunks are refused
    /// before anything is added.
    pub fn add_many(&mut self, embeddings: Vec<EmbeddingRecord<V>>, chunks: Vec<Chunk>) -> (r: Result<(), StoreError>)
        requires
            old(self).wf(),
            embeddings@.len() == chunks@.len() ==> can_add_all(old(self).view(), embeddings@, chunks@),
        ensures
            final(self).wf(),
            embeddings@.len() != chunks@.len() ==> (final(self).view() == old(self).view() && (r matches Err(
                StoreError::CountMismatch { embeddings: ne, chunks: nc },
            ) && ne == embeddings@.len() && nc == chunks@.len())),
            embeddings@.len() == chunks@.len() ==> (final(self).view(), r) == spec_add_all(
                old(self).view(),
                embeddings@,
                chunks@,
            ),
    {
        if embeddings.len() != chunks.len() {
            return Err(StoreError::CountMismatch { embeddings: embeddings.len(), chunks: chunks.len() });
        }
        let ghost es = embeddings@;
        let ghost cs = chunks@;
        let n = embeddings.len();
        let mut er = reversed(embeddings);
        let mut cr = reversed(chunks);
        let mut i: usize = 0;
        assert(es.subrange(0, n as int) =~= es);
        assert(cs.subrange(0, n as int) =~= cs);
        while i < n
            invariant
                self.wf(),
                es == embeddings@,
                cs == chunks@,
                i <= n,
                n == es.len(),
                n == cs.len(),
                er@.len() == n - i,
                cr@.len() == n - i,
                forall|t: int| 0 <= t < n - i ==> #[trigger] er@[t] == es[n - 1 - t],
                forall|t: int| 0 <= t < n - i ==> #[trigger] cr@[t] == cs[n - 1 - t],
                spec_add_all(old(self).view(), es, cs) == spec_add_all(self.view(), es.subrange(i as int, n as int), cs.subrange(i as int, n as int)),
                can_add_all(self.view(), es.subrange(i as int, n as int), cs.subrange(i as int, n as int)),
            decreases n - i,
        {
            let e = er.pop().unwrap();
            let c = cr.pop().unwrap();
            let ghost rest_e = es.subrange(i as int, n as int);
            let ghost rest_c = cs.subrange(i as int, n as int);
            assert(rest_e[0] == e);
            assert(rest_c[0] == c);
            assert(rest_e.drop_first() =~= es.subrange(i + 1, n as int));
            assert(rest_c.drop_first() =~= cs.subrange(i + 1, n as int));
            let ghost prev = self.view();
            let r = self.add(e, c);
            if r.is_err() {
                assert(spec_add_all(prev, rest_e, rest_c) == spec_add(prev, e, c));
                return r;
            }
            i = i + 1;
        }
        Ok(())
    }

    /// The number of stored chunks.
    pub fn size(&self) -> (n: usize)
        requires
            self.wf(),
        ensures
            n == self.view().chunks.len(),
    {
        self.chunks.len()
    }

    /// Removes every chunk and embedding; the metadata's count goes back to zero.
    pub fn clear(&mut self)
        requires
            old(self).wf(),
        ensures
            final(self).wf(),
            final(self).view().chunks == Map::<Seq<char>, Chunk>::empty(),
            final(self).view().embeddings == Map::<Seq<char>, EmbeddingRecord<V>>::empty(),
            match old(self).view().metadata {
                Some(m) => final(self).view().metadata matches Some(m2) && m2.version == m.version
                    && m2.embedding_model == m.embedding_model && m2.embedding_dimension
                    == m.embedding_dimension && m2.entry_count == 0,
                None => final(self).view().metadata is None,
            },
    {
        self.chunks.clear();
        self.embeddings.clear();
        match &mut self.metadata {
            Some(meta) => {
                meta.entry_count = 0;
            },
            None => {},
        }
    }
}


/// The ranked entries `r` whose identifier has a stored chunk, in order.
pub open spec fn found_in<V>(
    r: Seq<usize>,
    entries: Seq<(String, EmbeddingRecord<V>)>,
    chunks: Map<Seq<char>, Chunk>,
) -> Seq<usize>
    decreases r.len(),
{
    if r.len() == 0 {
        seq![]
    } else {
        let prev = found_in(r.drop_last(), entries, chunks);
        if chunks.contains_key(entries[r.last() as int].0@) {
            prev.push(r.last())
        } else {
            prev
        }
    }
}

/// The chunks, in order, whose identifier also has a stored embedding.
pub open spec fn paired_in<V>(
    chunks: Seq<(String, Chunk)>,
    embeddings: Map<Seq<char>, EmbeddingRecord<V>>,
) -> Seq<int>
    decreases chunks.len(),
{
    if chunks.len() == 0 {
        seq![]
    } else {
        let prev = paired_in(chunks.drop_last(), embeddings);
        if embeddings.contains_key(chunks.last().0@) {
            prev.push(chunks.len() - 1)
        } else {
            prev
        }
    }
}

/// A chunk found by a search, with the index of the stored embedding that ranked it.
#[derive(Debug)]
pub struct StoreHit {
    pub chunk: Chunk,
    pub entry: usize,
}

impl<V> InMemoryVectorStore<V> {
    /// The stored chunks, in the order in which their identifiers first arrived.
    pub closed spec fn chunk_entries(&self) -> Seq<(String, Chunk)> {
        self.chunks.entries()
    }

    /// The stored chunks are filed under their entries' keys.
    pub proof fn lemma_chunk_entries(&self)
        requires
            self.wf(),
        ensures
            forall|i: int| 0 <= i < self.chunk_entries().len() ==> {
                &&& self.view().chunks.contains_key(#[trigger] self.chunk_entries()[i].0@)
                &&& self.view().chunks[self.chunk_entries()[i].0@] == self.chunk_entries()[i].1
            },
    {
        lemma_to_map(self.chunks.entries());
    }

    /// The stored embeddings, in order.
    pub fn embedding_list(&self) -> (r: &Vec<(String, EmbeddingRecord<V>)>)
        ensures
            r@ == self.embedding_entries(),
    {
        self.embeddings.as_vec()
    }

    /// Searches with precomputed keys: `keys[i]` ranks the `i`-th stored
    /// embedding (higher is closer to the query). The `top_k` best-ranked
    /// embeddings are taken, and each whose identifier has a chunk yields that chunk.
    pub fn search_ranked(&self, keys: &Vec<u128>, top_k: usize) -> (res: Vec<StoreHit>)
        requires
            self.wf(),
            keys@.len() == self.embedding_entries().len(),
        ensures
            exists|r: Seq<usize>|
                {
                    &&& is_top_ranking(int_keys(keys@), 0, top_k as nat, r)
                    &&& res@.len() == found_in(r, self.embedding_entries(), self.view().chunks).len()
                    &&& forall|a: int|
                        0 <= a < res@.len() ==> {
                            let f = found_in(r, self.embedding_entries(), self.view().chunks);
                            &&& (#[trigger] res@[a]).entry == f[a]
                            &&& res@[a].chunk@ == self.view().chunks[self.embedding_entries()[f[a] as int].0@]@
                        }
                },
    {
        let ranked = rank_top_k(keys, 0, top_k);
        let ghost entries = self.embedding_entries();
        let ghost chunks = self.view().chunks;
        let list = self.embeddings.as_vec();
        let mut res: Vec<StoreHit> = Vec::new();
        let mut a: usize = 0;
        while a < ranked.len()
            invariant
                self.wf(),
                list@ == entries,
                entries == self.embedding_entries(),
                chunks == self.view().chunks,
                keys@.len() == entries.len(),
                is_top_ranking(int_keys(keys@), 0, top_k as nat, ranked@),
                a <= ranked@.len(),
                res@.len() == found_in(ranked@.subrange(0, a as int), entries, chunks).len(),
                forall|c: int|
                    0 <= c < res@.len() ==> {
                        let f = found_in(ranked@.subrange(0, a as int), entries, chunks);
                        &&& (#[trigger] res@[c]).entry == f[c]
                        &&& res@[c].chunk@ == chunks[entries[f[c] as int].0@]@
                    },
            decreases ranked@.len() - a,
        {
            let idx = ranked[a];
            assert(0 <= idx < entries.len()) by {
                assert(crate::retrieval::eligible(int_keys(keys@), 0, ranked@[a as int] as int));
            }
            let ghost before = ranked@.subrange(0, a as int);
            let ghost after = ranked@.subrange(0, a + 1);
            assert(after.drop_last() =~= before);
            let ghost fb = found_in(before, entries, chunks);
            match self.chunks.get(list[idx].0.as_str()) {
                Some(chunk) => {
                    res.push(StoreHit { chunk: chunk.clone(), entry: idx });
                    proof {
                        let fa = found_in(after, entries, chunks);
                        assert(fa == fb.push(idx));
                        assert forall|c: int| 0 <= c < res@.len() implies {
                            &&& (#[trigger] res@[c]).entry == fa[c]
                            &&& res@[c].chunk@ == chunks[entries[fa[c] as int].0@]@
                        } by {
                            if c < res@.len() - 1 {
                                assert(fa[c] == fb[c]);
                            }
                        }
                    }
                },
                None => {},
            }
            a = a + 1;
        }
        assert(ranked@.subrange(0, ranked@.len() as int) =~= ranked@);
        res
    }

    /// Files a chunk under its own identifier and an embedding under the
    /// identifier it names, without any check: how a saved store is read back.
    pub fn insert_loaded(&mut self, chunk: Chunk, embedding: EmbeddingRecord<V>)
        requires
            old(self).wf(),
        ensures
            final(self).wf(),
            final(self).view().chunks == old(self).view().chunks.insert(chunk.id@, chunk),
            final(self).view().embeddings == old(self).view().embeddings.insert(embedding.chunk_id@, embedding),
            final(self).view().metadata == old(self).view().metadata,
    {
        let cid = chunk.id.clone();
        self.chunks.insert(cid, chunk);
        let eid = embedding.chunk_id.clone();
        self.embeddings.insert(eid, embedding);
    }

    /// Replaces the metadata.
    pub fn set_metadata(&mut self, metadata: Option<StoreMetadata>)
        requires
            old(self).wf(),
        ensures
            final(self).wf(),
            final(self).view().chunks == old(self).view().chunks,
            final(self).view().embeddings == old(self).view().embeddings,
            final(self).view().metadata == metadata,
    {
        self.metadata = metadata;
    }

    /// The stored chunks that have an embedding under the same identifier,
    /// each with that embedding, in the order of the chunks: what is saved.
    pub fn saved_entries(&self) -> (r: Vec<(&Chunk, &EmbeddingRecord<V>)>)
        requires
            self.wf(),
        ensures
            r@.len() == paired_in(self.chunk_entries(), self.view().embeddings).len(),
            forall|a: int|
                0 <= a < r@.len() ==> {
                    let i = paired_in(self.chunk_entries(), self.view().embeddings)[a];
                    &&& *(#[trigger] r@[a]).0 == self.chunk_entries()[i].1
                    &&& *r@[a].1 == self.view().embeddings[self.chunk_entries()[i].0@]
                },
    {
        let list = self.chunks.as_vec();
        let ghost ce = self.chunk_entries();
        let ghost em = self.view().embeddings;
        let mut r: Vec<(&Chunk, &EmbeddingRecord<V>)> = Vec::new();
        let mut i: usize = 0;
        while i < list.len()
            invariant
                self.wf(),
                list@ == ce,
                ce == self.chunk_entries(),
                em == self.view().embeddings,
                i <= list@.len(),
                r@.len() == paired_in(ce.subrange(0, i as int), em).len(),
                forall|a: int|
                    0 <= a < r@.len() ==> {
                        let j = paired_in(ce.subrange(0, i as int), em)[a];
                        &&& *(#[trigger] r@[a]).0 == ce[j].1
                        &&& *r@[a].1 == em[ce[j].0@]
                    },
            decreases list@.len() - i,
        {
            let ghost before = ce.subrange(0, i as int);
            let ghost after = ce.subrange(0, i + 1);
            assert(after.drop_last() =~= before);
            let ghost pb = paired_in(before, em);
            match self.embeddings.get(list[i].0.as_str()) {
                Some(e) => {
                    r.push((&list[i].1, e));
                    proof {
                        let pa = paired_in(after, em);
                        assert(pa == pb.push(i as int));
                        assert forall|a: int| 0 <= a < r@.len() implies {
                            let j = pa[a];
                            &&& *(#[trigger] r@[a]).0 == ce[j].1
                            &&& *r@[a].1 == em[ce[j].0@]
                        } by {
                            if a < r@.len() - 1 {
                                assert(pa[a] == pb[a]);
                            }
                        }
                    }
                },
                None => {},
            }
            i = i + 1;
        }
        assert(ce.subrange(0, ce.len() as int) =~= ce);
        r
    }
}

} // verus!
