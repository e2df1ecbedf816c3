//! Proofs about sectors.

use vstd::prelude::*;

verus! {

/// A proof of space-time: the number of the registered proof, and its bytes.
#[derive(Debug, PartialEq, Eq, Hash)]
pub struct PoStProof {
    pub post_proof: i64,
    pub proof_bytes: Vec<u8>,
}

/// A proof of space-time as plain values.
#[verifier::ext_equal]
pub struct PoStProofView {
    pub post_proof: i64,
    pub proof_bytes: Seq<u8>,
}

impl View for PoStProof {
    type V = PoStProofView;

    open spec fn view(&self) -> PoStProofView {
        PoStProofView { post_proof: self.post_proof, proof_bytes: self.proof_bytes@ }
    }
}

impl Clone for PoStProof {
    fn clone(&self) -> (r: Self)
        ensures
            r@ == self@,
    {
        PoStProof { post_proof: self.post_proof, proof_bytes: self.proof_bytes.clone() }
    }
}

} // verus!
