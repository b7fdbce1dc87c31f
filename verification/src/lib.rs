//! A retrieval-augmented generation toolkit: documents are split into chunks,
//! chunks are indexed and ranked against queries, and prompts are assembled
//! from the retrieved context.

use vstd::prelude::*;

pub mod text;
pub mod chunking;
pub mod embedding;
pub mod retrieval;
pub mod generation;
pub mod indexing;
pub mod storage;
pub mod keyed;

verus! {

/// Library version.
pub const VERSION: &'static str = "0.1.0";

} // verus!
