//! Notes, values, addresses and the commitments and nullifiers derived from them.
use crate::position::Position;
use crate::primitives::{
    curve_point, curve_point_of, opt_view, point_add, point_add_of, point_neg, point_neg_of, poseidon1, poseidon1_of,
    poseidon2, poseidon2_of, poseidon3, poseidon3_of, poseidon6, poseidon6_of, scalar_mul, scalar_mul_of, small_bytes,
    small_spec, u64_bytes, u64_spec, zero_bytes, zero_spec, Bytes32,
};
use vstd::prelude::*;

verus! {

/// An amount of one asset.
#[derive(Clone, Copy, Debug)]
pub struct Value {
    pub amount: u64,
    pub asset_id: Bytes32,
}

/// A diversified address: diversified generator, transmission key and clue key.
#[derive(Clone, Copy, Debug)]
pub struct Address {
    pub g_d: Bytes32,
    pub pk_d: Bytes32,
    pub ck_d: Bytes32,
}

/// A note: who may spend it, what it holds, and its blinding factor.
#[derive(Clone, Copy, Debug)]
pub struct Note {
    pub address: Address,
    pub value: Value,
    pub note_blinding: Bytes32,
}

/// A pair of assets traded in a swap.
#[derive(Clone, Copy, Debug)]
pub struct TradingPair {
    pub asset_1: Bytes32,
    pub asset_2: Bytes32,
}

/// A public fee.
#[derive(Clone, Copy, Debug)]
pub struct Fee {
    pub amount: u64,
    pub asset_id: Bytes32,
}

/// Domain separators of the hashes below.
pub open spec fn ds_spec(tag: u8) -> Seq<u8> {
    small_spec(tag)
}

pub const NOTE_COMMITMENT_DS: u8 = 101;

pub const NULLIFIER_DS: u8 = 102;

pub const VALUE_GENERATOR_DS: u8 = 103;

pub const BLINDING_GENERATOR_DS: u8 = 104;

pub const IVK_DS: u8 = 105;

pub const SWAP_ASSET_DS: u8 = 106;

pub const ADDRESS_DS: u8 = 107;

pub const PAIR_DS: u8 = 108;

/// The note commitment `H(blinding, amount, asset_id, g_d, pk_d, ck_d)`.
pub open spec fn note_commitment_spec(blinding: Seq<u8>, v: Value, a: Address) -> Seq<u8> {
    poseidon6_of(ds_spec(NOTE_COMMITMENT_DS), blinding, u64_spec(v.amount), v.asset_id@, a.g_d@, a.pk_d@, a.ck_d@)
}

pub fn note_commitment(blinding: &Bytes32, v: &Value, a: &Address) -> (r: Bytes32)
    ensures
        r@ == note_commitment_spec(blinding@, *v, *a),
{
    let ds = small_bytes(NOTE_COMMITMENT_DS);
    let amount = u64_bytes(v.amount);
    poseidon6(&ds, blinding, &amount, &v.asset_id, &a.g_d, &a.pk_d, &a.ck_d)
}

impl Note {
    pub open spec fn commitment_spec(&self) -> Seq<u8> {
        note_commitment_spec(self.note_blinding@, self.value, self.address)
    }

    pub fn commit(&self) -> (r: Bytes32)
        ensures
            r@ == self.commitment_spec(),
    {
        note_commitment(&self.note_blinding, &self.value, &self.address)
    }
}

/// The generator of an asset's value commitments.
pub open spec fn value_generator_spec(asset_id: Seq<u8>) -> Seq<u8> {
    curve_point_of(poseidon1_of(ds_spec(VALUE_GENERATOR_DS), asset_id))
}

/// The generator of the blinding part of value commitments.
pub open spec fn blinding_generator_spec() -> Seq<u8> {
    curve_point_of(poseidon1_of(ds_spec(BLINDING_GENERATOR_DS), zero_spec()))
}

/// `amount · G_asset + blinding · H`, when every step decodes.
pub open spec fn value_commitment_spec(v: Value, blinding: Seq<u8>) -> Option<Seq<u8>> {
    match (scalar_mul_of(value_generator_spec(v.asset_id@), u64_spec(v.amount)), scalar_mul_of(blinding_generator_spec(), blinding)) {
        (Some(x), Some(y)) => point_add_of(x, y),
        _ => None,
    }
}

/// The negated value commitment, as outputs contribute it.
pub open spec fn negated_commitment_spec(v: Value, blinding: Seq<u8>) -> Option<Seq<u8>> {
    match value_commitment_spec(v, blinding) {
        Some(c) => point_neg_of(c),
        None => None,
    }
}

impl Value {
    pub fn commit(&self, blinding: &Bytes32) -> (r: Option<Bytes32>)
        ensures
            opt_view(r) == value_commitment_spec(*self, blinding@),
    {
        let ds = small_bytes(VALUE_GENERATOR_DS);
        let h = poseidon1(&ds, &self.asset_id);
        let g = curve_point(&h);
        let bds = small_bytes(BLINDING_GENERATOR_DS);
        let z = zero_bytes();
        let hb = poseidon1(&bds, &z);
        let hg = curve_point(&hb);
        let amount = u64_bytes(self.amount);
        let x = scalar_mul(&g, &amount);
        let y = scalar_mul(&hg, blinding);
        match (x, y) {
            (Some(x), Some(y)) => point_add(&x, &y),
            _ => None,
        }
    }

    pub fn commit_negated(&self, blinding: &Bytes32) -> (r: Option<Bytes32>)
        ensures
            opt_view(r) == negated_commitment_spec(*self, blinding@),
    {
        match self.commit(blinding) {
            Some(c) => point_neg(&c),
            None => None,
        }
    }
}

impl Fee {
    pub open spec fn value(&self) -> Value {
        Value { amount: self.amount, asset_id: self.asset_id }
    }
}

/// The nullifier `PRF(nk, position, commitment)`.
pub open spec fn nullifier_spec(nk: Seq<u8>, p: Position, commitment: Seq<u8>) -> Seq<u8> {
    poseidon3_of(ds_spec(NULLIFIER_DS), nk, commitment, u64_spec(p.value() as u64))
}

pub fn derive_nullifier(nk: &Bytes32, p: &Position, commitment: &Bytes32) -> (r: Bytes32)
    ensures
        r@ == nullifier_spec(nk@, *p, commitment@),
{
    let ds = small_bytes(NULLIFIER_DS);
    let pos = u64_bytes(p.to_u64());
    poseidon3(&ds, nk, commitment, &pos)
}

/// The incoming viewing key of `(ak, nk)`.
pub open spec fn ivk_spec(ak: Seq<u8>, nk: Seq<u8>) -> Seq<u8> {
    poseidon2_of(ds_spec(IVK_DS), nk, ak)
}

pub fn derive_ivk(ak: &Bytes32, nk: &Bytes32) -> (r: Bytes32)
    ensures
        r@ == ivk_spec(ak@, nk@),
{
    let ds = small_bytes(IVK_DS);
    poseidon2(&ds, nk, ak)
}

/// The asset id of the swap NFT recording an intent.
pub open spec fn swap_asset_id_spec(pair: TradingPair, delta_1: u64, delta_2: u64, fee: Fee, a: Address) -> Seq<u8> {
    poseidon6_of(
        ds_spec(SWAP_ASSET_DS),
        poseidon2_of(ds_spec(PAIR_DS), pair.asset_1@, pair.asset_2@),
        u64_spec(delta_1),
        u64_spec(delta_2),
        u64_spec(fee.amount),
        fee.asset_id@,
        poseidon3_of(ds_spec(ADDRESS_DS), a.g_d@, a.pk_d@, a.ck_d@),
    )
}

pub fn swap_asset_id(pair: &TradingPair, delta_1: u64, delta_2: u64, fee: &Fee, a: &Address) -> (r: Bytes32)
    ensures
        r@ == swap_asset_id_spec(*pair, delta_1, delta_2, *fee, *a),
{
    let pds = small_bytes(PAIR_DS);
    let pd = poseidon2(&pds, &pair.asset_1, &pair.asset_2);
    let ads = small_bytes(ADDRESS_DS);
    let ad = poseidon3(&ads, &a.g_d, &a.pk_d, &a.ck_d);
    let ds = small_bytes(SWAP_ASSET_DS);
    let d1 = u64_bytes(delta_1);
    let d2 = u64_bytes(delta_2);
    let fa = u64_bytes(fee.amount);
    poseidon6(&ds, &pd, &d1, &d2, &fa, &fee.asset_id, &ad)
}

} // verus!
