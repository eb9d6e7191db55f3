//! Swap plaintexts and their encryption to the claim address.
use crate::codec::{
    address_bytes, push_bytes32, push_u64, read_bytes32, read_u64, u64_le, value_bytes, DecodeError,
};
use crate::codec::{encode_note, note_bytes};
use crate::note::{Address, Fee, Note, TradingPair};
use crate::primitives::{opt_view, scalar_mul, scalar_mul_of, Bytes32};
use chacha20poly1305::aead::{Aead, KeyInit};
use vstd::prelude::*;

verus! {

/// A swap intent: what is traded, how much of each side, the fee, and who claims.
#[derive(Clone, Copy, Debug)]
pub struct SwapPlaintext {
    pub trading_pair: TradingPair,
    pub delta_1: u64,
    pub delta_2: u64,
    pub fee: Fee,
    pub claim_address: Address,
}

/// The length of an encoded swap plaintext.
pub const SWAP_LEN_BYTES: usize = 216;

/// The length of a swap ciphertext: the plaintext and a 16-byte tag.
pub const SWAP_CIPHERTEXT_BYTES: usize = 232;

/// A swap plaintext sealed to its claim address.
#[derive(Clone, Debug)]
pub struct SwapCiphertext(pub Vec<u8>);

/// Why a swap ciphertext could not be opened; the causes are not told apart.
#[derive(Clone, Copy, Debug, PartialEq, Eq, Structural)]
pub enum DecryptError {
    DecryptError,
}

pub open spec fn swap_plaintext_bytes(p: SwapPlaintext) -> Seq<u8> {
    p.trading_pair.asset_1@ + p.trading_pair.asset_2@ + u64_le(p.delta_1) + u64_le(p.delta_2) + value_bytes(
        crate::note::Value { amount: p.fee.amount, asset_id: p.fee.asset_id },
    ) + address_bytes(p.claim_address)
}

/// What BLAKE2b with a 32-byte output and this personalization gives on `data`.
pub uninterp spec fn blake2b_of(personal: Seq<u8>, data: Seq<u8>) -> Seq<u8>;

/// What ChaCha20-Poly1305 `encrypt` gives under this key and nonce, with no associated data.
pub uninterp spec fn aead_seal_of(key: Seq<u8>, nonce: Seq<u8>, plaintext: Seq<u8>) -> Seq<u8>;

/// What ChaCha20-Poly1305 `decrypt` gives under this key and nonce; `None` when it refuses.
pub uninterp spec fn aead_open_of(key: Seq<u8>, nonce: Seq<u8>, ciphertext: Seq<u8>) -> Option<Seq<u8>>;

/// Relies on `blake2b_simd::Params` with `hash_length(32)` and `personal`, and
/// on `Params::hash`: a deterministic function of the personalization and input.
#[verifier::external_body]
fn blake2b_32(personal: &[u8; 16], data: &Vec<u8>) -> (r: Bytes32)
    ensures
        r@ == blake2b_of(personal@, data@),
{
    let h = blake2b_simd::Params::new().hash_length(32).personal(personal).hash(data);
    let mut r = [0u8; 32];
    r.copy_from_slice(h.as_bytes());
    r
}

/// Relies on `ChaCha20Poly1305::encrypt` (through `aead::Aead`), with the key
/// and nonce read by `From<[u8; N]>`. It fails only on plaintexts of
/// `u32::MAX` blocks of 64 bytes or more.
#[verifier::external_body]
fn aead_seal(key: &Bytes32, nonce: &[u8; 12], plaintext: &Vec<u8>) -> (r: Option<Vec<u8>>)
    ensures
        r is Some ==> r->Some_0@ == aead_seal_of(key@, nonce@, plaintext@),
        plaintext@.len() < 64 * 0xffff_ffff ==> r is Some,
{
    let cipher = chacha20poly1305::ChaCha20Poly1305::new(&chacha20poly1305::Key::from(*key));
    cipher.encrypt(&chacha20poly1305::Nonce::from(*nonce), plaintext.as_slice()).ok()
}

/// Relies on `ChaCha20Poly1305::decrypt` (through `aead::Aead`): the plaintext,
/// or an error when the tag does not authenticate the ciphertext.
#[verifier::external_body]
fn aead_open(key: &Bytes32, nonce: &[u8; 12], ciphertext: &Vec<u8>) -> (r: Option<Vec<u8>>)
    ensures
        match r {
            Some(p) => aead_open_of(key@, nonce@, ciphertext@) == Some(p@),
            None => aead_open_of(key@, nonce@, ciphertext@) is None,
        },
{
    let cipher = chacha20poly1305::ChaCha20Poly1305::new(&chacha20poly1305::Key::from(*key));
    cipher.decrypt(&chacha20poly1305::Nonce::from(*nonce), ciphertext.as_slice()).ok()
}

/// The nonce that tags swap payloads.
pub open spec fn swap_nonce() -> Seq<u8> {
    Seq::new(12, |i: int| if i == 0 { 2u8 } else { 0u8 })
}

/// The payload key of a note or swap: BLAKE2b over the shared secret `esk · pk_d` and
/// the ephemeral key `esk · g_d`.
pub open spec fn payload_key_spec(esk: Seq<u8>, pk_d: Seq<u8>, g_d: Seq<u8>) -> Option<Seq<u8>> {
    match (scalar_mul_of(pk_d, esk), scalar_mul_of(g_d, esk)) {
        (Some(shared), Some(epk)) => Some(blake2b_of(payload_personal_bytes(), shared + epk)),
        _ => None,
    }
}

/// The personalization of payload keys, "shielded_pay_key".
pub open spec fn payload_personal_bytes() -> Seq<u8> {
    seq![115u8, 104, 105, 101, 108, 100, 101, 100, 95, 112, 97, 121, 95, 107, 101, 121]
}

fn personal() -> (r: [u8; 16])
    ensures
        r@ == payload_personal_bytes(),
{
    let r: [u8; 16] = [115u8, 104, 105, 101, 108, 100, 101, 100, 95, 112, 97, 121, 95, 107, 101, 121];
    assert(r@ =~= payload_personal_bytes());
    r
}

/// The nonce that tags note payloads.
pub open spec fn note_nonce() -> Seq<u8> {
    Seq::new(12, |i: int| if i == 0 { 1u8 } else { 0u8 })
}

fn note_nonce_bytes() -> (r: [u8; 12])
    ensures
        r@ == note_nonce(),
{
    let mut r: [u8; 12] = [0u8; 12];
    r[0] = 1;
    assert(r@ =~= note_nonce());
    r
}

/// Seals a note to its own address with the ephemeral secret `esk`.
pub fn encrypt_note(note: &Note, esk: &Bytes32) -> (r: Option<Vec<u8>>)
    ensures
        r is Some <==> payload_key_spec(esk@, note.address.pk_d@, note.address.g_d@) is Some,
        r is Some ==> r->Some_0@ == aead_seal_of(
            payload_key_spec(esk@, note.address.pk_d@, note.address.g_d@)->Some_0,
            note_nonce(),
            note_bytes(*note),
        ),
{
    let key = match payload_key(esk, &note.address.pk_d, &note.address.g_d) {
        Some(k) => k,
        None => return None,
    };
    let pt = encode_note(note);
    proof {
        crate::codec::lemma_note_round_trip(*note, *note);
    }
    aead_seal(&key, &note_nonce_bytes(), &pt)
}

fn nonce() -> (r: [u8; 12])
    ensures
        r@ == swap_nonce(),
{
    let mut r: [u8; 12] = [0u8; 12];
    r[0] = 2;
    assert(r@ =~= swap_nonce());
    r
}

fn payload_key(esk: &Bytes32, pk_d: &Bytes32, g_d: &Bytes32) -> (r: Option<Bytes32>)
    ensures
        opt_view(r) == payload_key_spec(esk@, pk_d@, g_d@),
{
    let shared = scalar_mul(pk_d, esk);
    let epk = scalar_mul(g_d, esk);
    match (shared, epk) {
        (Some(s), Some(e)) => {
            let mut data: Vec<u8> = Vec::new();
            push_bytes32(&mut data, &s);
            push_bytes32(&mut data, &e);
            assert(data@ =~= s@ + e@);
            Some(blake2b_32(&personal(), &data))
        },
        _ => None,
    }
}

impl SwapPlaintext {
    pub fn to_bytes(&self) -> (r: Vec<u8>)
        ensures
            r@ == swap_plaintext_bytes(*self),
    {
        let mut out: Vec<u8> = Vec::new();
        push_bytes32(&mut out, &self.trading_pair.asset_1);
        push_bytes32(&mut out, &self.trading_pair.asset_2);
        push_u64(&mut out, self.delta_1);
        push_u64(&mut out, self.delta_2);
        push_u64(&mut out, self.fee.amount);
        push_bytes32(&mut out, &self.fee.asset_id);
        push_bytes32(&mut out, &self.claim_address.g_d);
        push_bytes32(&mut out, &self.claim_address.pk_d);
        push_bytes32(&mut out, &self.claim_address.ck_d);
        assert(out@ =~= swap_plaintext_bytes(*self));
        out
    }

    /// Decodes a plaintext: it succeeds exactly on `SWAP_LEN_BYTES` bytes, and
    /// then re-encoding the result gives the input back.
    pub fn from_bytes(bytes: &Vec<u8>) -> (r: Result<SwapPlaintext, DecodeError>)
        ensures
            r is Ok <==> bytes.len() == SWAP_LEN_BYTES,
            r is Ok ==> swap_plaintext_bytes(r->Ok_0) == bytes@,
    {
        if bytes.len() != SWAP_LEN_BYTES {
            return Err(DecodeError::MalformedEncoding);
        }
        let asset_1 = read_bytes32(bytes, 0);
        let asset_2 = read_bytes32(bytes, 32);
        let delta_1 = read_u64(bytes, 64);
        let delta_2 = read_u64(bytes, 72);
        let fee_amount = read_u64(bytes, 80);
        let fee_asset = read_bytes32(bytes, 88);
        let g_d = read_bytes32(bytes, 120);
        let pk_d = read_bytes32(bytes, 152);
        let ck_d = read_bytes32(bytes, 184);
        let p = SwapPlaintext {
            trading_pair: TradingPair { asset_1, asset_2 },
            delta_1,
            delta_2,
            fee: Fee { amount: fee_amount, asset_id: fee_asset },
            claim_address: Address { g_d, pk_d, ck_d },
        };
        assert(swap_plaintext_bytes(p) =~= bytes@);
        Ok(p)
    }

    /// Seals the plaintext to `transmission_key` with the ephemeral secret `esk`.
    pub fn encrypt(&self, esk: &Bytes32, transmission_key: &Bytes32, diversified_basepoint: &Bytes32) -> (r: Option<SwapCiphertext>)
        ensures
            r is Some <==> payload_key_spec(esk@, transmission_key@, diversified_basepoint@) is Some,
            r is Some ==> r->Some_0.0@ == aead_seal_of(
                payload_key_spec(esk@, transmission_key@, diversified_basepoint@)->Some_0,
                swap_nonce(),
                swap_plaintext_bytes(*self),
            ),
    {
        let key = match payload_key(esk, transmission_key, diversified_basepoint) {
            Some(k) => k,
            None => return None,
        };
        let pt = self.to_bytes();
        proof {
            crate::codec::lemma_le_injective(self.delta_1, self.delta_2, 0, 0);
            crate::codec::lemma_le_injective(self.fee.amount, 0, 0, 0);
            assert(pt@.len() == SWAP_LEN_BYTES);
        }
        match aead_seal(&key, &nonce(), &pt) {
            Some(ct) => Some(SwapCiphertext(ct)),
            None => None,
        }
    }
}

/// The plaintext bytes a swap ciphertext opens to, if it opens.
pub open spec fn swap_opened(ct: Seq<u8>, esk: Seq<u8>, pk_d: Seq<u8>, g_d: Seq<u8>) -> Option<Seq<u8>> {
    match payload_key_spec(esk, pk_d, g_d) {
        Some(k) => aead_open_of(k, swap_nonce(), ct),
        None => None,
    }
}

impl SwapCiphertext {
    /// A ciphertext of the fixed width; other lengths are refused.
    pub fn from_slice(bytes: &Vec<u8>) -> (r: Result<SwapCiphertext, DecodeError>)
        ensures
            r is Ok <==> bytes.len() == SWAP_CIPHERTEXT_BYTES,
            r is Ok ==> r->Ok_0.0@ == bytes@,
    {
        if bytes.len() != SWAP_CIPHERTEXT_BYTES {
            return Err(DecodeError::MalformedEncoding);
        }
        Ok(SwapCiphertext(bytes.clone()))
    }

    /// Opens the ciphertext with the sender's ephemeral secret and the claim
    /// address' keys. Every failure is the same `DecryptError`.
    pub fn decrypt(&self, esk: &Bytes32, transmission_key: &Bytes32, diversified_basepoint: &Bytes32) -> (r: Result<SwapPlaintext, DecryptError>)
        ensures
            ({
                let o = swap_opened(self.0@, esk@, transmission_key@, diversified_basepoint@);
                &&& (r is Ok <==> (o is Some && o->Some_0.len() == SWAP_LEN_BYTES))
                &&& (r is Ok ==> swap_plaintext_bytes(r->Ok_0) == o->Some_0)
            }),
    {
        let key = match payload_key(esk, transmission_key, diversified_basepoint) {
            Some(k) => k,
            None => return Err(DecryptError::DecryptError),
        };
        let pt = match aead_open(&key, &nonce(), &self.0) {
            Some(p) => p,
            None => return Err(DecryptError::DecryptError),
        };
        match SwapPlaintext::from_bytes(&pt) {
            Ok(p) => Ok(p),
            Err(_) => Err(DecryptError::DecryptError),
        }
    }
}

} // verus!
