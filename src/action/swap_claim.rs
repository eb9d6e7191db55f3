//! Claiming the outputs of a swap.
use crate::note::{value_commitment_spec, Fee, Value};
use crate::pool::NotePayload;
use crate::primitives::{opt_view, zero_bytes, zero_spec, Bytes32};
use crate::proofs::{BatchSwapOutputData, SwapClaimProof};
use vstd::prelude::*;

verus! {

/// The public part of a swap claim.
#[derive(Clone, Debug)]
pub struct Body {
    pub nullifier: Bytes32,
    pub fee: Fee,
    pub output_1: NotePayload,
    pub output_2: NotePayload,
    pub output_data: BatchSwapOutputData,
    pub epoch_duration: u64,
}

/// A swap claim: its public body and the proof that it is well formed.
#[derive(Clone, Debug)]
pub struct SwapClaim {
    pub proof: SwapClaimProof,
    pub body: Body,
}

/// A swap claimed in a transaction, with that transaction's id.
#[derive(Clone, Debug)]
pub struct ClaimedSwap(pub Body, pub Bytes32);

/// The swaps claimed at one height.
#[derive(Clone, Debug)]
pub struct List(pub Vec<ClaimedSwap>);

impl SwapClaim {
    /// What this claim contributes to the transaction's balance: the pre-paid
    /// fee, added back, with a public (zero) blinding.
    pub fn value_commitment(&self) -> (r: Option<Bytes32>)
        ensures
            opt_view(r) == value_commitment_spec(Value { amount: self.body.fee.amount, asset_id: self.body.fee.asset_id }, zero_spec()),
    {
        let fee = Value { amount: self.body.fee.amount, asset_id: self.body.fee.asset_id };
        fee.commit(&zero_bytes())
    }

    /// Checks the proof against the body's public values and `anchor`.
    pub fn verify(&self, anchor: &Bytes32) -> (r: Result<(), crate::proofs::ProofError>)
        ensures
            r == self.proof.outcome(
                anchor@,
                self.body.nullifier@,
                self.body.output_data,
                self.body.epoch_duration,
                self.body.fee,
                self.body.output_1.note_commitment@,
                self.body.output_1.ephemeral_key@,
                self.body.output_2.note_commitment@,
                self.body.output_2.ephemeral_key@,
            ),
    {
        self.proof.verify(
            anchor,
            &self.body.nullifier,
            &self.body.output_data,
            self.body.epoch_duration,
            &self.body.fee,
            &self.body.output_1.note_commitment,
            &self.body.output_1.ephemeral_key,
            &self.body.output_2.note_commitment,
            &self.body.output_2.ephemeral_key,
        )
    }
}

} // verus!
