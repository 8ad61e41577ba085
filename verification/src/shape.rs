//! Validation of embedding shapes and the choice of similarity kernel.
use vstd::prelude::*;

verus! {

/// Why embeddings or a shape were refused.
#[derive(Debug, Clone, Copy, PartialEq, Eq)]
pub enum ShapeError {
    /// One of the two embeddings to compare has no component.
    EmptyEmbeddings,
    /// The two embeddings to compare have different lengths.
    DifferentLengths { left: usize, right: usize },
    /// A matrix shape that does not have exactly two dimensions.
    NotTwoDimensional { dims: usize },
}

/// Checks that two embeddings can be compared by cosine similarity: both
/// non-empty and of the same length, which is returned.
pub fn check_embedding_pair(len1: usize, len2: usize) -> (r: Result<usize, ShapeError>)
    ensures
        r == (if len1 == 0 || len2 == 0 {
            Err(ShapeError::EmptyEmbeddings)
        } else if len1 != len2 {
            Err(ShapeError::DifferentLengths { left: len1, right: len2 })
        } else {
            Ok(len1)
        }),
{
    if len1 == 0 || len2 == 0 {
        return Err(ShapeError::EmptyEmbeddings);
    }
    if len1 != len2 {
        return Err(ShapeError::DifferentLengths { left: len1, right: len2 });
    }
    Ok(len1)
}

/// The `(rows, cols)` of a matrix shape, which must have exactly two
/// dimensions.
pub fn two_dims(shape: &Vec<usize>) -> (r: Result<(usize, usize), ShapeError>)
    ensures
        r == (if shape@.len() == 2 {
            Ok((shape@[0], shape@[1]))
        } else {
            Err(ShapeError::NotTwoDimensional { dims: shape@.len() as usize })
        }),
{
    if shape.len() != 2 {
        return Err(ShapeError::NotTwoDimensional { dims: shape.len() });
    }
    Ok((shape[0], shape[1]))
}

/// From this many sentences on, one rank-k update of the whole embedding
/// matrix (`ssyrk`) is cheaper than one dot product per pair of rows.
pub const SYRK_MIN_ROWS: usize = 32;

/// How the cosine similarity matrix of a batch of sentences is computed.
#[derive(Debug, Clone, Copy, PartialEq, Eq)]
pub enum SimilarityKernel {
    /// One symmetric rank-k update, whose diagonal also yields the norms.
    Syrk,
    /// One dot product per pair of rows.
    PairwiseDot,
}

/// The kernel for `r` sentences: `Syrk` from `SYRK_MIN_ROWS` rows on.
pub fn similarity_kernel(r: usize) -> (k: SimilarityKernel)
    ensures
        k == (if r >= SYRK_MIN_ROWS {
            SimilarityKernel::Syrk
        } else {
            SimilarityKernel::PairwiseDot
        }),
{
    if r >= SYRK_MIN_ROWS {
        SimilarityKernel::Syrk
    } else {
        SimilarityKernel::PairwiseDot
    }
}

} // verus!
