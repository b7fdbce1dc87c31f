//! Embedding configuration and the deterministic mock embedder.
//!
//! The embedding vectors themselves are floating-point and are built outside
//! this crate; this module holds the configuration, the choice of generator
//! and the integer hashing that the mock generator derives its vectors from.

use vstd::prelude::*;
use crate::text::{decimal, push_char, push_decimal, push_str};
use vstd::string::StringSliceAdditionalSpecFns;
use crate::storage::EmbeddingRecord;

verus! {

/// Available embedding providers.
#[derive(Debug)]
pub enum EmbeddingProvider {
    /// API-based provider
    OpenAI { api_key: String, model_name: String },
    /// API-based provider
    HuggingFace { api_key: String, model_name: String },
    /// Local model provider
    Local { model_path: String },
    /// Mock provider for testing
    Mock { dimension: usize },
}

/// Configuration for embedding generation.
#[derive(Debug)]
pub struct EmbeddingConfig {
    pub provider: EmbeddingProvider,
}

/// How a provider names itself: `"OpenAI (model)"`, `"HuggingFace (model)"`,
/// `"Local (path)"` or `"Mock (dimension)"`.
pub open spec fn provider_description(p: EmbeddingProvider) -> Seq<char> {
    match p {
        EmbeddingProvider::OpenAI { model_name, .. } => "OpenAI ("@ + model_name@ + seq![')'],
        EmbeddingProvider::HuggingFace { model_name, .. } => "HuggingFace ("@ + model_name@ + seq![')'],
        EmbeddingProvider::Local { model_path } => "Local ("@ + model_path@ + seq![')'],
        EmbeddingProvider::Mock { dimension } => "Mock ("@ + decimal(dimension as nat) + seq![')'],
    }
}

impl EmbeddingProvider {
    /// The provider's display text.
    pub fn describe(&self) -> (s: String)
        ensures
            s@ == provider_description(*self),
    {
        let mut s = String::new();
        match self {
            EmbeddingProvider::OpenAI { model_name, .. } => {
                push_str(&mut s, "OpenAI (");
                push_str(&mut s, model_name.as_str());
            },
            EmbeddingProvider::HuggingFace { model_name, .. } => {
                push_str(&mut s, "HuggingFace (");
                push_str(&mut s, model_name.as_str());
            },
            EmbeddingProvider::Local { model_path } => {
                push_str(&mut s, "Local (");
                push_str(&mut s, model_path.as_str());
            },
            EmbeddingProvider::Mock { dimension } => {
                push_str(&mut s, "Mock (");
                push_decimal(&mut s, *dimension);
            },
        }
        push_char(&mut s, ')');
        s
    }
}

/// The model name of the mock generator: `"mock_model_{dimension}d"`.
pub open spec fn mock_model_name(dimension: nat) -> Seq<char> {
    "mock_model_"@ + decimal(dimension) + seq!['d']
}

/// A deterministic embedding generator for tests.
#[derive(Debug)]
pub struct MockEmbeddingGenerator {
    pub dimension: usize,
    pub model_name: String,
}

impl MockEmbeddingGenerator {
    /// A mock generator of `dimension`-dimensional embeddings.
    pub fn new(dimension: usize) -> (g: MockEmbeddingGenerator)
        ensures
            g.dimension == dimension,
            g.model_name@ == mock_model_name(dimension as nat),
    {
        let mut model_name = String::new();
        push_str(&mut model_name, "mock_model_");
        push_decimal(&mut model_name, dimension);
        push_char(&mut model_name, 'd');
        MockEmbeddingGenerator { dimension, model_name }
    }

    /// The name of the model.
    pub fn model_name(&self) -> (s: &str)
        ensures
            s@ == self.model_name@,
    {
        self.model_name.as_str()
    }

    /// The dimension of the embeddings generated.
    pub fn dimension(&self) -> (d: usize)
        ensures
            d == self.dimension,
    {
        self.dimension
    }
}

/// Why no embedding generator could be made.
#[derive(Debug, Clone, Copy, PartialEq, Eq)]
pub enum EmbeddingError {
    /// The configured provider has no implementation yet.
    ProviderNotImplemented,
}

/// Makes the embedding generator that `config` names: the mock provider is
/// the only one implemented.
pub fn create_embedding_generator(config: &EmbeddingConfig) -> (r: Result<
    MockEmbeddingGenerator,
    EmbeddingError,
>)
    ensures
        match config.provider {
            EmbeddingProvider::Mock { dimension } => r matches Ok(g) && g.dimension == dimension
                && g.model_name@ == mock_model_name(dimension as nat),
            _ => r == Err::<MockEmbeddingGenerator, EmbeddingError>(
                EmbeddingError::ProviderNotImplemented,
            ),
        },
{
    match &config.provider {
        EmbeddingProvider::Mock { dimension } => Ok(MockEmbeddingGenerator::new(*dimension)),
        _ => Err(EmbeddingError::ProviderNotImplemented),
    }
}

/// The mock hash behind component `i`: the sum over the bytes of
/// `byte * ((position + i) % 255)`.
pub open spec fn mock_sum(b: Seq<u8>, i: int, n: int) -> int
    decreases n,
{
    if n <= 0 {
        0
    } else {
        mock_sum(b, i, n - 1) + b[n - 1] * ((n - 1 + i) % 255)
    }
}

/// Every component hash of the mock embedding of `b` fits in a `u32`.
pub open spec fn mock_sums_fit(b: Seq<u8>, dimension: int) -> bool {
    forall|i: int| 0 <= i < dimension ==> #[trigger] mock_sum(b, i, b.len() as int) <= u32::MAX
}

proof fn lemma_mock_sum_monotone(b: Seq<u8>, i: int, m: int, n: int)
    requires
        0 <= m <= n <= b.len(),
    ensures
        mock_sum(b, i, m) <= mock_sum(b, i, n),
    decreases n - m,
{
    if m < n {
        lemma_mock_sum_monotone(b, i, m, n - 1);
        assert(b[n - 1] * ((n - 1 + i) % 255) >= 0) by (nonlinear_arith)
            requires
                b[n - 1] >= 0,
                (n - 1 + i) % 255 >= 0,
        ;
    }
}

/// Each hash term is at most `255 * 254`, so a text of at most 66311 bytes
/// has every hash within a `u32`.
pub proof fn lemma_short_text_fits(b: Seq<u8>, dimension: int)
    requires
        b.len() <= 66311,
    ensures
        mock_sums_fit(b, dimension),
{
    assert forall|i: int| 0 <= i < dimension implies #[trigger] mock_sum(b, i, b.len() as int) <= u32::MAX by {
        lemma_mock_sum_bound(b, i, b.len() as int);
    }
}

proof fn lemma_mock_sum_bound(b: Seq<u8>, i: int, n: int)
    requires
        0 <= n <= b.len(),
    ensures
        mock_sum(b, i, n) <= 64770 * n,
    decreases n,
{
    if n > 0 {
        lemma_mock_sum_bound(b, i, n - 1);
        let w = (n - 1 + i) % 255;
        let x = b[n - 1];
        assert(x * w <= 64770) by (nonlinear_arith)
            requires
                0 <= x <= 255,
                0 <= w < 255,
        ;
    }
}

/// The integer components that the mock embedding of `text` is built from:
/// component `i` is its hash modulo 1000, or `None` where a hash does not fit
/// in a `u32` (where summing it would overflow).
pub fn mock_embedding_values(text: &str, dimension: usize) -> (r: Option<Vec<u32>>)
    ensures
        r is Some <==> mock_sums_fit(text.spec_bytes(), dimension as int),
        text.spec_bytes().len() <= 66311 ==> r is Some,
        r matches Some(v) ==> v@.len() == dimension && forall|i: int|
            0 <= i < dimension ==> #[trigger] v@[i] == mock_sum(text.spec_bytes(), i, text.spec_bytes().len() as int) % 1000,
{
    let bytes = text.as_bytes();
    let ghost b = text.spec_bytes();
    let mut values: Vec<u32> = Vec::new();
    let mut i: usize = 0;
    while i < dimension
        invariant
            bytes@ == b,
            b == text.spec_bytes(),
            i <= dimension,
            values@.len() == i,
            forall|k: int| 0 <= k < i ==> #[trigger] mock_sum(b, k, b.len() as int) <= u32::MAX,
            forall|k: int| 0 <= k < i ==> #[trigger] values@[k] == mock_sum(b, k, b.len() as int) % 1000,
        decreases dimension - i,
    {
        let mut acc: u64 = 0;
        let mut pos: usize = 0;
        while pos < bytes.len()
            invariant
                bytes@ == b,
                b == text.spec_bytes(),
                i < dimension,
                pos <= b.len(),
                acc == mock_sum(b, i as int, pos as int),
                acc <= u32::MAX,
            decreases b.len() - pos,
        {
            let w: u64 = ((pos % 255 + i % 255) % 255) as u64;
            proof {
                vstd::arithmetic::div_mod::lemma_add_mod_noop(pos as int, i as int, 255);
            }
            assert(w == (pos + i) % 255);
            let byte: u64 = bytes[pos] as u64;
            assert(byte * w <= 255 * 254) by (nonlinear_arith)
                requires
                    byte <= 255,
                    w <= 254,
            ;
            let term: u64 = byte * w;
            let next: u64 = acc + term;
            assert(next == mock_sum(b, i as int, pos + 1));
            if next > 4294967295u64 {
                proof {
                    lemma_mock_sum_monotone(b, i as int, pos + 1, b.len() as int);
                    assert(mock_sum(b, i as int, b.len() as int) > u32::MAX);
                    if b.len() <= 66311 {
                        lemma_short_text_fits(b, dimension as int);
                    }
                }
                return None;
            }
            acc = next;
            pos = pos + 1;
        }
        values.push((acc % 1000) as u32);
        i = i + 1;
    }
    Some(values)
}

/// The chunk identifier the mock generator gives an embedding of `text`:
/// `"chunk_{byte length}"`.
pub fn mock_chunk_id(text: &str) -> (s: String)
    ensures
        s@ == "chunk_"@ + decimal(text.spec_bytes().len()),
{
    let mut s = String::new();
    push_str(&mut s, "chunk_");
    push_decimal(&mut s, text.as_bytes().len());
    s
}

impl MockEmbeddingGenerator {
    /// The mock embedding of `text`, with the integer components that its
    /// vector is scaled from (component `i` is the `i`-th hash modulo 1000),
    /// the mock chunk identifier `"chunk_{byte length}"`, this generator's
    /// dimension and model name; `None` where a hash does not fit in a `u32`.
    pub fn generate(&self, text: &str) -> (r: Option<EmbeddingRecord<Vec<u32>>>)
        ensures
            r is Some <==> mock_sums_fit(text.spec_bytes(), self.dimension as int),
            text.spec_bytes().len() <= 66311 ==> r is Some,
            r matches Some(e) ==> {
                &&& e.vector@.len() == self.dimension
                &&& forall|i: int|
                    0 <= i < self.dimension ==> #[trigger] e.vector@[i] == mock_sum(
                        text.spec_bytes(),
                        i,
                        text.spec_bytes().len() as int,
                    ) % 1000
                &&& e.chunk_id@ == "chunk_"@ + decimal(text.spec_bytes().len())
                &&& e.dimension == self.dimension
                &&& e.model@ == self.model_name@
            },
    {
        match mock_embedding_values(text, self.dimension) {
            Some(vector) => Some(
                EmbeddingRecord {
                    vector,
                    chunk_id: mock_chunk_id(text),
                    dimension: self.dimension,
                    model: self.model_name.clone(),
                },
            ),
            None => None,
        }
    }
}

} // verus!
