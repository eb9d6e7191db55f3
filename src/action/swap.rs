//! Recording a swap intent.
use crate::note::{value_commitment_spec, TradingPair, Value};
use crate::pool::NotePayload;
use crate::primitives::{opt_view, point_add, point_add_of, point_neg, point_neg_of, zero_bytes, zero_spec, Bytes32};
use crate::proofs::SwapProof;
use crate::swap::SwapCiphertext;
use vstd::prelude::*;

verus! {

/// The public part of a swap.
#[derive(Clone, Debug)]
pub struct Body {
    pub trading_pair: TradingPair,
    pub delta_1: u64,
    pub delta_2: u64,
    pub fee_commitment: Bytes32,
    pub swap_nft: NotePayload,
    pub swap_ciphertext: SwapCiphertext,
}

/// A swap: its public body and the proof that it is well formed.
#[derive(Clone, Debug)]
pub struct Swap {
    pub proof: SwapProof,
    pub body: Body,
}

/// `-(δ₁·G₁ + δ₂·G₂ + fee)`, the public inputs of a swap taken out of the balance.
pub open spec fn swap_balance_spec(b: Body) -> Option<Seq<u8>> {
    let i1 = value_commitment_spec(Value { amount: b.delta_1, asset_id: b.trading_pair.asset_1 }, zero_spec());
    let i2 = value_commitment_spec(Value { amount: b.delta_2, asset_id: b.trading_pair.asset_2 }, zero_spec());
    match (i1, i2) {
        (Some(x), Some(y)) => match point_add_of(x, y) {
            Some(s) => match point_add_of(s, b.fee_commitment@) {
                Some(t) => point_neg_of(t),
                None => None,
            },
            None => None,
        },
        _ => None,
    }
}

impl Swap {
    /// What this swap contributes to the transaction's balance: both inputs
    /// and the fee, subtracted, with public (zero) blindings.
    pub fn value_commitment(&self) -> (r: Option<Bytes32>)
        ensures
            opt_view(r) == swap_balance_spec(self.body),
    {
        let zero = zero_bytes();
        let v1 = Value { amount: self.body.delta_1, asset_id: self.body.trading_pair.asset_1 };
        let v2 = Value { amount: self.body.delta_2, asset_id: self.body.trading_pair.asset_2 };
        let i1 = v1.commit(&zero);
        let i2 = v2.commit(&zero);
        match (i1, i2) {
            (Some(x), Some(y)) => match point_add(&x, &y) {
                Some(s) => match point_add(&s, &self.body.fee_commitment) {
                    Some(t) => point_neg(&t),
                    None => None,
                },
                None => None,
            },
            _ => None,
        }
    }
}

} // verus!
