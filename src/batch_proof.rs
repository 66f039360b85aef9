//! Evaluation proofs: single-point proofs, batches of them, and batches that carry the
//! evaluations needed to check linear combinations.

use vstd::prelude::*;

verus! {

/// A proof that a committed polynomial takes a value at a point.
#[derive(Clone, Copy, Debug, PartialEq, Eq)]
pub struct KZGProof<G, F> {
    /// The witness commitment.
    pub w: G,
    /// The evaluation of the hiding polynomial at the point, when the proof hides.
    pub random_v: Option<F>,
}

impl<G, F> KZGProof<G, F> {
    /// Whether the proof used hiding randomness.
    pub fn is_hiding(&self) -> (r: bool)
        ensures
            r == self.random_v is Some,
    {
        self.random_v.is_some()
    }
}

/// Evaluation proofs at a query set, one per query, in the order of the query set.
#[derive(Clone, Debug, PartialEq, Eq)]
pub struct BatchProof<G, F>(pub Vec<KZGProof<G, F>>);

/// Some proof of the batch used hiding randomness.
pub open spec fn batch_hiding<G, F>(proofs: Seq<KZGProof<G, F>>) -> bool {
    exists|i: int| 0 <= i < proofs.len() && (#[trigger] proofs[i]).random_v is Some
}

impl<G, F> BatchProof<G, F> {
    /// Whether any proof of the batch used hiding randomness.
    pub fn is_hiding(&self) -> (r: bool)
        ensures
            r == batch_hiding(self.0@),
    {
        let mut i: usize = 0;
        while i < self.0.len()
            invariant
                i <= self.0@.len(),
                forall|j: int| 0 <= j < i ==> (#[trigger] self.0@[j]).random_v is None,
            decreases self.0@.len() - i,
        {
            if self.0[i].is_hiding() {
                return true;
            }
            i = i + 1;
        }
        false
    }
}

/// A proof that linear combinations of committed polynomials take their values.
#[derive(Clone, Debug, PartialEq, Eq)]
pub struct BatchLCProof<G, F> {
    /// The evaluation proofs.
    pub proof: BatchProof<G, F>,
    /// The evaluations needed to check the linear combinations, if any.
    pub evaluations: Option<Vec<F>>,
}

impl<G, F> BatchLCProof<G, F> {
    /// Whether any proof of the batch used hiding randomness.
    pub fn is_hiding(&self) -> (r: bool)
        ensures
            r == batch_hiding(self.proof.0@),
    {
        self.proof.is_hiding()
    }
}

} // verus!
