//! Metadata of one split of a summarisation corpus.
use vstd::prelude::*;

verus! {

/// One split of a document: its sentences and where their embeddings are
/// stored.
#[derive(Debug, Clone)]
pub struct SplitData {
    pub split_id: usize,
    pub no_tokens: usize,
    pub split_string: String,
    pub embeddings_tensors_file: String,
    pub embeddings_tensors_name: String,
    pub sentences: Vec<String>,
}

} // verus!
