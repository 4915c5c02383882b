//! Dimension projection strategies for embeddings.
//!
//! Projects an embedding from the retrieval model's dimension to the draft model's hidden
//! dimension. The first dimensions of an embedding often carry the most information, so
//! truncation keeps the principal ones. Embeddings are bit patterns of single-precision
//! numbers.

use vstd::prelude::*;

verus! {

/// Projects an embedding vector to the draft model's hidden dimension.
pub trait EmbeddingProjector {
    /// Project `embedding` to exactly `target_dim` dimensions.
    fn project(&self, embedding: &[u32], target_dim: usize) -> (r: Vec<u32>)
        ensures
            r@.len() == target_dim,
    ;
}

/// The first entries of an embedding, or all of them with zeros behind.
pub open spec fn truncate_pad(embedding: Seq<u32>, target_dim: nat) -> Seq<u32> {
    Seq::new(
        target_dim,
        |i: int|
            if i < embedding.len() {
                embedding[i]
            } else {
                0u32
            },
    )
}

/// Strategy 1: Truncate or zero-pad. Zero-cost, no training needed.
///
/// - If `embedding.len() > target_dim`: take the first `target_dim` elements.
/// - If `embedding.len() < target_dim`: zero-pad to `target_dim`.
/// - If `embedding.len() == target_dim`: identity.
#[derive(Clone, Copy, Debug, PartialEq, Eq, Structural)]
pub struct TruncatePadProjector;

impl EmbeddingProjector for TruncatePadProjector {
    fn project(&self, embedding: &[u32], target_dim: usize) -> (r: Vec<u32>)
        ensures
            r@ == truncate_pad(embedding@, target_dim as nat),
    {
        let mut r: Vec<u32> = Vec::new();
        let mut i: usize = 0;
        while i < target_dim
            invariant
                i <= target_dim,
                r@ =~= truncate_pad(embedding@, i as nat),
            decreases target_dim - i,
        {
            if i < embedding.len() {
                r.push(embedding[i]);
            } else {
                r.push(0);
            }
            i = i + 1;
        }
        r
    }
}

/// Strategy 2: Learned linear projection, which truncates and pads until it has weights.
#[derive(Clone, Copy, Debug, PartialEq, Eq, Structural)]
pub struct LinearProjector {}

impl EmbeddingProjector for LinearProjector {
    fn project(&self, embedding: &[u32], target_dim: usize) -> (r: Vec<u32>)
        ensures
            r@ == truncate_pad(embedding@, target_dim as nat),
    {
        TruncatePadProjector.project(embedding, target_dim)
    }
}

/// An embedding of the right dimension is unchanged.
pub proof fn law_projection_is_identity(embedding: Seq<u32>)
    ensures
        truncate_pad(embedding, embedding.len()) == embedding,
{
    assert(truncate_pad(embedding, embedding.len()) =~= embedding);
}

/// A longer embedding keeps exactly its first entries.
pub proof fn law_projection_truncates(embedding: Seq<u32>, target_dim: nat)
    requires
        target_dim <= embedding.len(),
    ensures
        truncate_pad(embedding, target_dim) == embedding.take(target_dim as int),
{
    assert(truncate_pad(embedding, target_dim) =~= embedding.take(target_dim as int));
}

/// Projecting up and back down loses nothing.
pub proof fn law_projection_round_trip(embedding: Seq<u32>, wide: nat)
    requires
        embedding.len() <= wide,
    ensures
        truncate_pad(truncate_pad(embedding, wide), embedding.len()) == embedding,
{
    assert(truncate_pad(truncate_pad(embedding, wide), embedding.len()) =~= embedding);
}

} // verus!
