//! Creating a note.
use crate::pool::NotePayload;
use crate::primitives::Bytes32;
use crate::proofs::OutputProof;
use vstd::prelude::*;

verus! {

/// The public part of an output.
#[derive(Clone, Debug)]
pub struct Body {
    pub note_payload: NotePayload,
    pub value_commitment: Bytes32,
    pub encrypted_memo: Vec<u8>,
    pub ovk_wrapped_key: Vec<u8>,
}

/// An output: its public body and the proof that it is well formed.
#[derive(Clone, Debug)]
pub struct Output {
    pub body: Body,
    pub proof: OutputProof,
}

impl Output {
    /// Checks the proof against the body's public values.
    pub fn verify(&self) -> (r: Result<(), crate::proofs::ProofError>)
        ensures
            r == self.proof.outcome(
                self.body.value_commitment@,
                self.body.note_payload.note_commitment@,
                self.body.note_payload.ephemeral_key@,
            ),
    {
        self.proof.verify(
            &self.body.value_commitment,
            &self.body.note_payload.note_commitment,
            &self.body.note_payload.ephemeral_key,
        )
    }
}

} // verus!
