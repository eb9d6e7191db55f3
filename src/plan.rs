//! Planning a swap claim: everything the claimant chooses in advance, from
//! which the claim's proof and public body follow.
use crate::action::swap_claim::{Body, SwapClaim};
use crate::codec::note_bytes;
use crate::note::{derive_nullifier, nullifier_spec, swap_asset_id, swap_asset_id_spec, Address, Fee, Note, Value};
use crate::pool::NotePayload;
use crate::position::Position;
use crate::primitives::{bytes_eq, opt_view, scalar_mul, scalar_mul_of, Bytes32};
use crate::proofs::{BatchSwapOutputData, SwapClaimProof};
use crate::swap::{aead_seal_of, encrypt_note, note_nonce, payload_key_spec, SwapPlaintext};
use crate::tree::Proof;
use vstd::prelude::*;

verus! {

/// A planned swap claim.
#[derive(Clone, Debug)]
pub struct SwapClaimPlan {
    pub swap_nft_note: Note,
    pub swap_nft_position: Position,
    pub swap_plaintext: SwapPlaintext,
    pub output_data: BatchSwapOutputData,
    pub output_1_blinding: Bytes32,
    pub output_2_blinding: Bytes32,
    pub esk_1: Bytes32,
    pub esk_2: Bytes32,
    pub epoch_duration: u64,
}

impl SwapClaimPlan {
    /// A plan that redeems the outputs of `output_data` to `claim_address`.
    /// The blindings and ephemeral secrets are drawn by the caller.
    pub fn new(
        swap_nft_note: Note,
        swap_nft_position: Position,
        claim_address: Address,
        fee: Fee,
        output_data: BatchSwapOutputData,
        epoch_duration: u64,
        output_1_blinding: Bytes32,
        output_2_blinding: Bytes32,
        esk_1: Bytes32,
        esk_2: Bytes32,
    ) -> (r: SwapClaimPlan)
        ensures
            r.swap_nft_note == swap_nft_note,
            r.swap_nft_position == swap_nft_position,
            r.swap_plaintext == (SwapPlaintext {
                trading_pair: output_data.trading_pair,
                delta_1: output_data.delta_1,
                delta_2: output_data.delta_2,
                fee: fee,
                claim_address: claim_address,
            }),
            r.output_data == output_data,
            r.epoch_duration == epoch_duration,
            r.output_1_blinding == output_1_blinding && r.output_2_blinding == output_2_blinding,
            r.esk_1 == esk_1 && r.esk_2 == esk_2,
    {
        let swap_plaintext = SwapPlaintext {
            trading_pair: output_data.trading_pair,
            delta_1: output_data.delta_1,
            delta_2: output_data.delta_2,
            fee,
            claim_address,
        };
        SwapClaimPlan {
            swap_nft_note,
            swap_nft_position,
            swap_plaintext,
            output_data,
            output_1_blinding,
            output_2_blinding,
            esk_1,
            esk_2,
            epoch_duration,
        }
    }

    /// Whether the keys that the claim's body needs all decode: both ephemeral
    /// keys and both payload keys.
    pub open spec fn keys_decode(&self) -> bool {
        let a = self.swap_nft_note.address;
        &&& scalar_mul_of(a.g_d@, self.esk_1@) is Some
        &&& scalar_mul_of(a.g_d@, self.esk_2@) is Some
        &&& payload_key_spec(self.esk_1@, a.pk_d@, a.g_d@) is Some
        &&& payload_key_spec(self.esk_2@, a.pk_d@, a.g_d@) is Some
    }

    /// The first output note: `λ₁` of the first asset to the claim address.
    pub open spec fn output_1_note(&self) -> Note {
        Note {
            address: self.swap_nft_note.address,
            value: Value { amount: self.output_data.lambda_1, asset_id: self.swap_plaintext.trading_pair.asset_1 },
            note_blinding: self.output_1_blinding,
        }
    }

    /// The second output note: `λ₂` of the second asset to the claim address.
    pub open spec fn output_2_note(&self) -> Note {
        Note {
            address: self.swap_nft_note.address,
            value: Value { amount: self.output_data.lambda_2, asset_id: self.swap_plaintext.trading_pair.asset_2 },
            note_blinding: self.output_2_blinding,
        }
    }

    /// The proof of the claim, from the swap NFT's inclusion proof and keys.
    pub fn swap_claim_proof(&self, note_commitment_proof: Proof, nk: Bytes32, note_blinding: Bytes32) -> (r: SwapClaimProof)
        ensures
            r.swap_nft_asset_id@ == swap_asset_id_spec(
                self.swap_plaintext.trading_pair,
                self.swap_plaintext.delta_1,
                self.swap_plaintext.delta_2,
                self.swap_plaintext.fee,
                self.swap_plaintext.claim_address,
            ),
            r.claim_address == self.swap_nft_note.address,
            r.note_commitment_proof == note_commitment_proof,
            r.trading_pair == self.swap_plaintext.trading_pair,
            r.note_blinding == note_blinding,
            r.nk == nk,
            r.delta_1 == self.output_data.delta_1 && r.delta_2 == self.output_data.delta_2,
            r.lambda_1 == self.output_data.lambda_1 && r.lambda_2 == self.output_data.lambda_2,
            r.note_blinding_1 == self.output_1_blinding && r.note_blinding_2 == self.output_2_blinding,
            r.esk_1 == self.esk_1 && r.esk_2 == self.esk_2,
    {
        let p = &self.swap_plaintext;
        SwapClaimProof {
            swap_nft_asset_id: swap_asset_id(&p.trading_pair, p.delta_1, p.delta_2, &p.fee, &p.claim_address),
            claim_address: self.swap_nft_note.address,
            note_commitment_proof,
            note_blinding,
            nk,
            trading_pair: p.trading_pair,
            delta_1: self.output_data.delta_1,
            delta_2: self.output_data.delta_2,
            lambda_1: self.output_data.lambda_1,
            lambda_2: self.output_data.lambda_2,
            note_blinding_1: self.output_1_blinding,
            esk_1: self.esk_1,
            note_blinding_2: self.output_2_blinding,
            esk_2: self.esk_2,
        }
    }

    /// The public body of the claim: the NFT's nullifier, and the two output
    /// notes sealed to the claim address. `None` when a key does not decode.
    pub fn swap_claim_body(&self, nk: &Bytes32) -> (r: Option<Body>)
        ensures
            r is Some ==> ({
                let b = r->Some_0;
                let n1 = self.output_1_note();
                let n2 = self.output_2_note();
                &&& b.nullifier@ == nullifier_spec(nk@, self.swap_nft_position, self.swap_nft_note.commitment_spec())
                &&& b.fee == self.swap_plaintext.fee
                &&& b.output_data == self.output_data
                &&& b.epoch_duration == self.epoch_duration
                &&& b.output_1.note_commitment@ == n1.commitment_spec()
                &&& b.output_2.note_commitment@ == n2.commitment_spec()
                &&& scalar_mul_of(n1.address.g_d@, self.esk_1@) == Some(b.output_1.ephemeral_key@)
                &&& scalar_mul_of(n2.address.g_d@, self.esk_2@) == Some(b.output_2.ephemeral_key@)
                &&& payload_key_spec(self.esk_1@, n1.address.pk_d@, n1.address.g_d@) is Some
                &&& b.output_1.encrypted_note@ == aead_seal_of(
                    payload_key_spec(self.esk_1@, n1.address.pk_d@, n1.address.g_d@)->Some_0,
                    note_nonce(),
                    note_bytes(n1),
                )
                &&& payload_key_spec(self.esk_2@, n2.address.pk_d@, n2.address.g_d@) is Some
                &&& b.output_2.encrypted_note@ == aead_seal_of(
                    payload_key_spec(self.esk_2@, n2.address.pk_d@, n2.address.g_d@)->Some_0,
                    note_nonce(),
                    note_bytes(n2),
                )
            }),
            r is Some <==> self.keys_decode(),
    {
        let n1 = Note {
            address: self.swap_nft_note.address,
            value: Value { amount: self.output_data.lambda_1, asset_id: self.swap_plaintext.trading_pair.asset_1 },
            note_blinding: self.output_1_blinding,
        };
        let n2 = Note {
            address: self.swap_nft_note.address,
            value: Value { amount: self.output_data.lambda_2, asset_id: self.swap_plaintext.trading_pair.asset_2 },
            note_blinding: self.output_2_blinding,
        };
        let epk_1 = match scalar_mul(&n1.address.g_d, &self.esk_1) {
            Some(e) => e,
            None => return None,
        };
        let epk_2 = match scalar_mul(&n2.address.g_d, &self.esk_2) {
            Some(e) => e,
            None => return None,
        };
        let ct_1 = match encrypt_note(&n1, &self.esk_1) {
            Some(c) => c,
            None => return None,
        };
        let ct_2 = match encrypt_note(&n2, &self.esk_2) {
            Some(c) => c,
            None => return None,
        };
        let nft_commitment = self.swap_nft_note.commit();
        let nullifier = derive_nullifier(nk, &self.swap_nft_position, &nft_commitment);
        Some(Body {
            nullifier,
            fee: self.swap_plaintext.fee,
            output_1: NotePayload { note_commitment: n1.commit(), ephemeral_key: epk_1, encrypted_note: ct_1 },
            output_2: NotePayload { note_commitment: n2.commit(), ephemeral_key: epk_2, encrypted_note: ct_2 },
            output_data: self.output_data,
            epoch_duration: self.epoch_duration,
        })
    }

    /// The claim this plan describes, given the NFT's inclusion proof and keys.
    pub fn swap_claim(&self, note_commitment_proof: Proof, nk: Bytes32, note_blinding: Bytes32) -> (r: Option<SwapClaim>)
        ensures
            r is Some <==> self.keys_decode(),
            r is Some ==> ({
                let c = r->Some_0;
                &&& c.proof.note_commitment_proof == note_commitment_proof
                &&& c.proof.nk == nk
                &&& c.proof.note_blinding == note_blinding
                &&& c.proof.lambda_1 == self.output_data.lambda_1 && c.proof.lambda_2 == self.output_data.lambda_2
                &&& c.body.nullifier@ == nullifier_spec(nk@, self.swap_nft_position, self.swap_nft_note.commitment_spec())
                &&& c.body.output_1.note_commitment@ == self.output_1_note().commitment_spec()
                &&& c.body.output_2.note_commitment@ == self.output_2_note().commitment_spec()
                &&& c.body.output_data == self.output_data
                &&& c.body.fee == self.swap_plaintext.fee
            }),
    {
        let body = match self.swap_claim_body(&nk) {
            Some(b) => b,
            None => return None,
        };
        Some(SwapClaim { body, proof: self.swap_claim_proof(note_commitment_proof, nk, note_blinding) })
    }

    /// Whether the incoming viewing key `ivk` views the swap NFT's address.
    pub fn is_viewed_by(&self, ivk: &Bytes32) -> (r: bool)
        ensures
            r == (scalar_mul_of(self.swap_nft_note.address.g_d@, ivk@) == Some(self.swap_nft_note.address.pk_d@)),
    {
        match scalar_mul(&self.swap_nft_note.address.g_d, ivk) {
            Some(p) => bytes_eq(&p, &self.swap_nft_note.address.pk_d),
            None => false,
        }
    }
}

} // verus!
