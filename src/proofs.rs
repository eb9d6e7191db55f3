//! Transparent action proofs: each carries its private witness, and `verify`
//! re-runs the statement against the public inputs.
use crate::note::{
    derive_ivk, derive_nullifier, ivk_spec, negated_commitment_spec, note_commitment, note_commitment_spec,
    nullifier_spec, swap_asset_id, swap_asset_id_spec, Address, Fee, TradingPair, Value,
};
use crate::primitives::{
    bytes_eq, fq_canonical, fq_canonical_of, is_identity, is_identity_of, opt_view, randomize, randomize_of,
    scalar_mul, scalar_mul_of, zero_bytes, zero_spec, Bytes32,
};
use crate::tree::Proof;
use vstd::prelude::*;

verus! {

/// Why an action proof was rejected.
#[derive(Clone, Copy, Debug, PartialEq, Eq, Structural)]
pub enum ProofError {
    NoteCommitmentMismatch,
    MerkleRootMismatch,
    ValueCommitmentMismatch,
    UnexpectedIdentity,
    BadNullifier,
    BadSpendAuth,
    AddressBinding,
    EphemeralKeyMismatch,
    SwapAssetIdMismatch,
    ClearingPriceHeightMismatch,
}

/// The outcome of the clearing of one batch of swaps, for the block at `height`.
#[derive(Clone, Copy, Debug)]
pub struct BatchSwapOutputData {
    pub height: u64,
    pub trading_pair: TradingPair,
    pub delta_1: u64,
    pub delta_2: u64,
    pub lambda_1: u64,
    pub lambda_2: u64,
}

/// Whether an optional encoding is present and equal to `x`.
pub open spec fn is_some_eq(o: Option<Seq<u8>>, x: Seq<u8>) -> bool {
    o == Some(x)
}

fn opt_eq(o: &Option<Bytes32>, x: &Bytes32) -> (r: bool)
    ensures
        r == is_some_eq(opt_view(*o), x@),
{
    match o {
        Some(y) => bytes_eq(y, x),
        None => false,
    }
}

/// Whether an encoding decodes to a group element other than the identity.
pub open spec fn non_identity(p: Seq<u8>) -> bool {
    is_identity_of(p) == Some(false)
}

fn is_non_identity(p: &Bytes32) -> (r: bool)
    ensures
        r == non_identity(p@),
{
    match is_identity(p) {
        Some(b) => !b,
        None => false,
    }
}

/// Proof of spending a note included in the commitment tree.
#[derive(Clone, Debug)]
pub struct SpendProof {
    pub note_commitment_proof: Proof,
    pub g_d: Bytes32,
    pub pk_d: Bytes32,
    pub ck_d: Bytes32,
    pub value: Value,
    pub v_blinding: Bytes32,
    pub note_blinding: Bytes32,
    pub spend_auth_randomizer: Bytes32,
    pub ak: Bytes32,
    pub nk: Bytes32,
}

impl SpendProof {
    pub open spec fn address(&self) -> Address {
        Address { g_d: self.g_d, pk_d: self.pk_d, ck_d: self.ck_d }
    }

    /// The checks of a spend, in order; the first that fails names the error.
    pub open spec fn outcome(
        &self,
        anchor: Seq<u8>,
        value_commitment: Seq<u8>,
        nullifier: Seq<u8>,
        rk: Seq<u8>,
    ) -> Result<(), ProofError> {
        let pr = self.note_commitment_proof;
        if !fq_canonical_of(self.pk_d@) || pr.commitment@ != note_commitment_spec(
            self.note_blinding@,
            self.value,
            self.address(),
        ) {
            Err(ProofError::NoteCommitmentMismatch)
        } else if !(pr.well_formed() && pr.root_spec() == anchor) {
            Err(ProofError::MerkleRootMismatch)
        } else if crate::note::value_commitment_spec(self.value, self.v_blinding@) != Some(value_commitment) {
            Err(ProofError::ValueCommitmentMismatch)
        } else if !non_identity(self.g_d@) || !non_identity(self.ak@) {
            Err(ProofError::UnexpectedIdentity)
        } else if nullifier != nullifier_spec(self.nk@, pr.position, pr.commitment@) {
            Err(ProofError::BadNullifier)
        } else if randomize_of(self.ak@, self.spend_auth_randomizer@) != Some(rk) {
            Err(ProofError::BadSpendAuth)
        } else if scalar_mul_of(self.g_d@, ivk_spec(self.ak@, self.nk@)) != Some(self.pk_d@) {
            Err(ProofError::AddressBinding)
        } else {
            Ok(())
        }
    }

    pub fn verify(
        &self,
        anchor: &Bytes32,
        value_commitment: &Bytes32,
        nullifier: &Bytes32,
        rk: &Bytes32,
    ) -> (r: Result<(), ProofError>)
        ensures
            r == self.outcome(anchor@, value_commitment@, nullifier@, rk@),
    {
        let a = Address { g_d: self.g_d, pk_d: self.pk_d, ck_d: self.ck_d };
        if !fq_canonical(&self.pk_d) {
            return Err(ProofError::NoteCommitmentMismatch);
        }
        let nc = note_commitment(&self.note_blinding, &self.value, &a);
        let pr = &self.note_commitment_proof;
        if !bytes_eq(&pr.commitment, &nc) {
            return Err(ProofError::NoteCommitmentMismatch);
        }
        if pr.verify(anchor).is_err() {
            return Err(ProofError::MerkleRootMismatch);
        }
        if !opt_eq(&self.value.commit(&self.v_blinding), value_commitment) {
            return Err(ProofError::ValueCommitmentMismatch);
        }
        if !is_non_identity(&self.g_d) || !is_non_identity(&self.ak) {
            return Err(ProofError::UnexpectedIdentity);
        }
        let nf = derive_nullifier(&self.nk, &pr.position, &pr.commitment);
        if !bytes_eq(&nf, nullifier) {
            return Err(ProofError::BadNullifier);
        }
        if !opt_eq(&randomize(&self.ak, &self.spend_auth_randomizer), rk) {
            return Err(ProofError::BadSpendAuth);
        }
        let ivk = derive_ivk(&self.ak, &self.nk);
        if !opt_eq(&scalar_mul(&self.g_d, &ivk), &self.pk_d) {
            return Err(ProofError::AddressBinding);
        }
        Ok(())
    }
}

/// A spend proof that verifies against some public inputs verifies against no
/// other anchor, nullifier, value commitment or randomized key: any change to
/// one of them, a single flipped bit included, makes it fail.
pub proof fn lemma_spend_binds_public_inputs(
    p: SpendProof,
    anchor: Seq<u8>,
    value_commitment: Seq<u8>,
    nullifier: Seq<u8>,
    rk: Seq<u8>,
    anchor2: Seq<u8>,
    value_commitment2: Seq<u8>,
    nullifier2: Seq<u8>,
    rk2: Seq<u8>,
)
    requires
        p.outcome(anchor, value_commitment, nullifier, rk) is Ok,
        anchor2 != anchor || value_commitment2 != value_commitment || nullifier2 != nullifier || rk2 != rk,
    ensures
        p.outcome(anchor2, value_commitment2, nullifier2, rk2) is Err,
{
}

/// Flipping one bit of an encoding changes it.
pub proof fn lemma_bit_flip_changes(s: Seq<u8>, i: int, k: u8)
    requires
        0 <= i < s.len(),
        k < 8,
    ensures
        s.update(i, s[i] ^ (1u8 << k)) != s,
{
    let x = s[i];
    assert(x ^ (1u8 << k) != x) by (bit_vector)
        requires
            k < 8,
    ;
    assert(s.update(i, x ^ (1u8 << k))[i] != s[i]);
}

/// Proof of creating a new note.
#[derive(Clone, Debug)]
pub struct OutputProof {
    pub g_d: Bytes32,
    pub pk_d: Bytes32,
    pub ck_d: Bytes32,
    pub value: Value,
    pub v_blinding: Bytes32,
    pub note_blinding: Bytes32,
    pub esk: Bytes32,
}

impl OutputProof {
    pub open spec fn address(&self) -> Address {
        Address { g_d: self.g_d, pk_d: self.pk_d, ck_d: self.ck_d }
    }

    /// The checks of an output, in order; the first that fails names the error.
    pub open spec fn outcome(&self, value_commitment: Seq<u8>, note_commitment: Seq<u8>, epk: Seq<u8>) -> Result<(), ProofError> {
        if !fq_canonical_of(self.pk_d@) || note_commitment != note_commitment_spec(
            self.note_blinding@,
            self.value,
            self.address(),
        ) {
            Err(ProofError::NoteCommitmentMismatch)
        } else if negated_commitment_spec(self.value, self.v_blinding@) != Some(value_commitment) {
            Err(ProofError::ValueCommitmentMismatch)
        } else if scalar_mul_of(self.g_d@, self.esk@) != Some(epk) {
            Err(ProofError::EphemeralKeyMismatch)
        } else if !non_identity(self.g_d@) {
            Err(ProofError::UnexpectedIdentity)
        } else {
            Ok(())
        }
    }

    pub fn verify(&self, value_commitment: &Bytes32, note_commitment_in: &Bytes32, epk: &Bytes32) -> (r: Result<(), ProofError>)
        ensures
            r == self.outcome(value_commitment@, note_commitment_in@, epk@),
    {
        let a = Address { g_d: self.g_d, pk_d: self.pk_d, ck_d: self.ck_d };
        if !fq_canonical(&self.pk_d) {
            return Err(ProofError::NoteCommitmentMismatch);
        }
        let nc = note_commitment(&self.note_blinding, &self.value, &a);
        if !bytes_eq(note_commitment_in, &nc) {
            return Err(ProofError::NoteCommitmentMismatch);
        }
        if !opt_eq(&self.value.commit_negated(&self.v_blinding), value_commitment) {
            return Err(ProofError::ValueCommitmentMismatch);
        }
        if !opt_eq(&scalar_mul(&self.g_d, &self.esk), epk) {
            return Err(ProofError::EphemeralKeyMismatch);
        }
        if !is_non_identity(&self.g_d) {
            return Err(ProofError::UnexpectedIdentity);
        }
        Ok(())
    }
}

/// Proof of creating a swap NFT recording an intent to trade.
#[derive(Clone, Debug)]
pub struct SwapProof {
    pub claim_address: Address,
    pub value_t1: Value,
    pub value_t2: Value,
    pub fee_delta: Fee,
    pub swap_nft_asset_id: Bytes32,
    pub note_blinding: Bytes32,
    pub esk: Bytes32,
}

impl SwapProof {
    pub open spec fn nft_value(&self) -> Value {
        Value { amount: 1, asset_id: self.swap_nft_asset_id }
    }

    /// The checks of a swap, in order; the first that fails names the error.
    /// The two per-asset commitments are carried as opaque inputs.
    pub open spec fn outcome(&self, value_fee_commitment: Seq<u8>, note_commitment: Seq<u8>, epk: Seq<u8>) -> Result<(), ProofError> {
        if note_commitment != note_commitment_spec(self.note_blinding@, self.nft_value(), self.claim_address) {
            Err(ProofError::NoteCommitmentMismatch)
        } else if negated_commitment_spec(self.fee_delta.value(), zero_spec()) != Some(value_fee_commitment) {
            Err(ProofError::ValueCommitmentMismatch)
        } else if scalar_mul_of(self.claim_address.g_d@, self.esk@) != Some(epk) {
            Err(ProofError::EphemeralKeyMismatch)
        } else if !non_identity(self.claim_address.g_d@) {
            Err(ProofError::UnexpectedIdentity)
        } else {
            Ok(())
        }
    }

    pub fn verify(
        &self,
        value_1_commitment: &Bytes32,
        value_2_commitment: &Bytes32,
        value_fee_commitment: &Bytes32,
        note_commitment_in: &Bytes32,
        epk: &Bytes32,
    ) -> (r: Result<(), ProofError>)
        ensures
            r == self.outcome(value_fee_commitment@, note_commitment_in@, epk@),
    {
        let nft = Value { amount: 1, asset_id: self.swap_nft_asset_id };
        let nc = note_commitment(&self.note_blinding, &nft, &self.claim_address);
        if !bytes_eq(note_commitment_in, &nc) {
            return Err(ProofError::NoteCommitmentMismatch);
        }
        let fee = Value { amount: self.fee_delta.amount, asset_id: self.fee_delta.asset_id };
        let zero = zero_bytes();
        if !opt_eq(&fee.commit_negated(&zero), value_fee_commitment) {
            return Err(ProofError::ValueCommitmentMismatch);
        }
        if !opt_eq(&scalar_mul(&self.claim_address.g_d, &self.esk), epk) {
            return Err(ProofError::EphemeralKeyMismatch);
        }
        if !is_non_identity(&self.claim_address.g_d) {
            return Err(ProofError::UnexpectedIdentity);
        }
        Ok(())
    }
}

/// Proof of claiming the outputs of a swap against its batch's clearing.
#[derive(Clone, Debug)]
pub struct SwapClaimProof {
    pub swap_nft_asset_id: Bytes32,
    pub claim_address: Address,
    pub note_commitment_proof: Proof,
    pub note_blinding: Bytes32,
    pub nk: Bytes32,
    pub trading_pair: TradingPair,
    pub delta_1: u64,
    pub delta_2: u64,
    pub lambda_1: u64,
    pub lambda_2: u64,
    pub note_blinding_1: Bytes32,
    pub esk_1: Bytes32,
    pub note_blinding_2: Bytes32,
    pub esk_2: Bytes32,
}

impl SwapClaimProof {
    pub open spec fn nft_value(&self) -> Value {
        Value { amount: 1, asset_id: self.swap_nft_asset_id }
    }

    /// The checks of a claim, in order; the first that fails names the error.
    pub open spec fn outcome(
        &self,
        anchor: Seq<u8>,
        nullifier: Seq<u8>,
        output_data: BatchSwapOutputData,
        epoch_duration: u64,
        fee: Fee,
        output_1: Seq<u8>,
        epk_1: Seq<u8>,
        output_2: Seq<u8>,
        epk_2: Seq<u8>,
    ) -> Result<(), ProofError> {
        let pr = self.note_commitment_proof;
        if pr.commitment@ != note_commitment_spec(self.note_blinding@, self.nft_value(), self.claim_address) {
            Err(ProofError::NoteCommitmentMismatch)
        } else if swap_asset_id_spec(self.trading_pair, self.delta_1, self.delta_2, fee, self.claim_address)
            != self.swap_nft_asset_id@ {
            Err(ProofError::SwapAssetIdMismatch)
        } else if !(pr.well_formed() && pr.root_spec() == anchor) {
            Err(ProofError::MerkleRootMismatch)
        } else if epoch_duration as int * pr.position.epoch as int + pr.position.block as int != output_data.height as int {
            Err(ProofError::ClearingPriceHeightMismatch)
        } else if nullifier != nullifier_spec(self.nk@, pr.position, pr.commitment@) {
            Err(ProofError::BadNullifier)
        } else if output_1 != note_commitment_spec(self.note_blinding_1@, self.output_1_value(), self.claim_address)
            || output_2 != note_commitment_spec(self.note_blinding_2@, self.output_2_value(), self.claim_address) {
            Err(ProofError::NoteCommitmentMismatch)
        } else if scalar_mul_of(self.claim_address.g_d@, self.esk_1@) != Some(epk_1) || scalar_mul_of(
            self.claim_address.g_d@,
            self.esk_2@,
        ) != Some(epk_2) {
            Err(ProofError::EphemeralKeyMismatch)
        } else if !non_identity(self.claim_address.g_d@) {
            Err(ProofError::UnexpectedIdentity)
        } else {
            Ok(())
        }
    }

    /// The first output: `λ₁` of the pair's first asset.
    pub open spec fn output_1_value(&self) -> Value {
        Value { amount: self.lambda_1, asset_id: self.trading_pair.asset_1 }
    }

    /// The second output: `λ₂` of the pair's second asset.
    pub open spec fn output_2_value(&self) -> Value {
        Value { amount: self.lambda_2, asset_id: self.trading_pair.asset_2 }
    }

    /// Checks the claim against its public inputs, the two output notes'
    /// commitments and ephemeral keys included (they are checked as an
    /// output's are; their values are public, so no value commitment).
    pub fn verify(
        &self,
        anchor: &Bytes32,
        nullifier: &Bytes32,
        output_data: &BatchSwapOutputData,
        epoch_duration: u64,
        fee: &Fee,
        output_1: &Bytes32,
        epk_1: &Bytes32,
        output_2: &Bytes32,
        epk_2: &Bytes32,
    ) -> (r: Result<(), ProofError>)
        ensures
            r == self.outcome(
                anchor@,
                nullifier@,
                *output_data,
                epoch_duration,
                *fee,
                output_1@,
                epk_1@,
                output_2@,
                epk_2@,
            ),
    {
        let pr = &self.note_commitment_proof;
        let nft = Value { amount: 1, asset_id: self.swap_nft_asset_id };
        let nc = note_commitment(&self.note_blinding, &nft, &self.claim_address);
        if !bytes_eq(&pr.commitment, &nc) {
            return Err(ProofError::NoteCommitmentMismatch);
        }
        let expected = swap_asset_id(&self.trading_pair, self.delta_1, self.delta_2, fee, &self.claim_address);
        if !bytes_eq(&expected, &self.swap_nft_asset_id) {
            return Err(ProofError::SwapAssetIdMismatch);
        }
        if pr.verify(anchor).is_err() {
            return Err(ProofError::MerkleRootMismatch);
        }
        let e = pr.position.epoch as u128;
        let b = pr.position.block as u128;
        assert(epoch_duration as u128 * e <= 0xffff_ffff_ffff_ffff * 0xffff) by (nonlinear_arith)
            requires
                e <= 0xffff,
        ;
        let height = epoch_duration as u128 * e + b;
        if height != output_data.height as u128 {
            return Err(ProofError::ClearingPriceHeightMismatch);
        }
        let nf = derive_nullifier(&self.nk, &pr.position, &pr.commitment);
        if !bytes_eq(&nf, nullifier) {
            return Err(ProofError::BadNullifier);
        }
        let v1 = Value { amount: self.lambda_1, asset_id: self.trading_pair.asset_1 };
        let v2 = Value { amount: self.lambda_2, asset_id: self.trading_pair.asset_2 };
        let c1 = note_commitment(&self.note_blinding_1, &v1, &self.claim_address);
        let c2 = note_commitment(&self.note_blinding_2, &v2, &self.claim_address);
        if !bytes_eq(&c1, output_1) || !bytes_eq(&c2, output_2) {
            return Err(ProofError::NoteCommitmentMismatch);
        }
        if !opt_eq(&scalar_mul(&self.claim_address.g_d, &self.esk_1), epk_1) || !opt_eq(
            &scalar_mul(&self.claim_address.g_d, &self.esk_2),
            epk_2,
        ) {
            return Err(ProofError::EphemeralKeyMismatch);
        }
        if !is_non_identity(&self.claim_address.g_d) {
            return Err(ProofError::UnexpectedIdentity);
        }
        Ok(())
    }
}

} // verus!
