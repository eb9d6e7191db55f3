//! Canonical binary encoding: fixed-width little-endian integers and 32-byte
//! field encodings, concatenated in declaration order.
use crate::note::{Address, Fee, Note, TradingPair, Value};
use crate::pool::{CompactBlock, NotePayload};
use crate::proofs::{OutputProof, SpendProof, SwapClaimProof, SwapProof};
use crate::position::Position;
use crate::primitives::{fq_canonical, fq_canonical_of, fr_canonical, fr_canonical_of, is_identity, is_identity_of, Bytes32};
use crate::tree::Proof;
use vstd::bytes::{
    lemma_auto_spec_u16_to_from_le_bytes, lemma_auto_spec_u64_to_from_le_bytes, spec_u16_from_le_bytes,
    spec_u16_to_le_bytes, spec_u64_from_le_bytes, spec_u64_to_le_bytes, u16_from_le_bytes, u16_to_le_bytes,
    u64_from_le_bytes, u64_to_le_bytes,
};
use vstd::prelude::*;

verus! {

/// Why bytes did not decode.
#[derive(Clone, Copy, Debug, PartialEq, Eq, Structural)]
pub enum DecodeError {
    /// The input does not have the length of an encoding.
    MalformedEncoding,
}

pub open spec fn u16_le(x: u16) -> Seq<u8> {
    spec_u16_to_le_bytes(x)
}

pub open spec fn u64_le(x: u64) -> Seq<u8> {
    spec_u64_to_le_bytes(x)
}

/// Encodings of 32 bytes each, one after the other.
pub open spec fn flat(s: Seq<Bytes32>) -> Seq<u8> {
    Seq::new(32 * s.len(), |i: int| s[i / 32][i % 32])
}

pub open spec fn position_bytes(p: Position) -> Seq<u8> {
    u16_le(p.epoch) + u16_le(p.block) + u16_le(p.commitment)
}

pub open spec fn proof_bytes(p: Proof) -> Seq<u8> {
    position_bytes(p.position) + p.commitment@ + flat(p.path@)
}

pub open spec fn address_bytes(a: Address) -> Seq<u8> {
    a.g_d@ + a.pk_d@ + a.ck_d@
}

pub open spec fn value_bytes(v: Value) -> Seq<u8> {
    u64_le(v.amount) + v.asset_id@
}

pub open spec fn note_bytes(n: Note) -> Seq<u8> {
    address_bytes(n.address) + value_bytes(n.value) + n.note_blinding@
}

/// Whether the 32 bytes at `off` decompress to a group element.
pub open spec fn point_at(b: Seq<u8>, off: int) -> bool {
    is_identity_of(b.subrange(off, off + 32)) is Some
}

/// Whether the 32 bytes at `off` are a canonical `Fq` encoding.
pub open spec fn fq_at(b: Seq<u8>, off: int) -> bool {
    fq_canonical_of(b.subrange(off, off + 32))
}

/// Whether the 32 bytes at `off` are a canonical `Fr` encoding.
pub open spec fn fr_at(b: Seq<u8>, off: int) -> bool {
    fr_canonical_of(b.subrange(off, off + 32))
}

fn is_point(x: &Bytes32) -> (r: bool)
    ensures
        r == (is_identity_of(x@) is Some),
{
    is_identity(x).is_some()
}

/// The length of an encoded note.
pub const NOTE_LEN: usize = 168;

/// The length of an encoded inclusion proof: a position, a commitment and 72 hashes.
pub const PROOF_LEN: usize = 2342;

pub fn push_bytes32(out: &mut Vec<u8>, b: &Bytes32)
    ensures
        final(out)@ == old(out)@ + b@,
{
    let ghost start = out@;
    let mut i: usize = 0;
    while i < 32
        invariant
            0 <= i <= 32,
            out@ == start + b@.subrange(0, i as int),
        decreases 32 - i,
    {
        out.push(b[i]);
        assert(b@.subrange(0, i + 1) =~= b@.subrange(0, i as int).push(b@[i as int]));
        i = i + 1;
    }
    assert(b@.subrange(0, 32) =~= b@);
}

pub fn push_u64(out: &mut Vec<u8>, x: u64)
    ensures
        final(out)@ == old(out)@ + u64_le(x),
{
    let mut v = u64_to_le_bytes(x);
    out.append(&mut v);
}

pub fn push_u16(out: &mut Vec<u8>, x: u16)
    ensures
        final(out)@ == old(out)@ + u16_le(x),
{
    let mut v = u16_to_le_bytes(x);
    out.append(&mut v);
}

fn copy_range(bytes: &Vec<u8>, at: usize, n: usize) -> (r: Vec<u8>)
    requires
        at + n <= bytes.len(),
    ensures
        r@ == bytes@.subrange(at as int, at + n),
{
    let mut r: Vec<u8> = Vec::new();
    let mut i: usize = 0;
    while i < n
        invariant
            0 <= i <= n,
            at + n <= bytes.len(),
            r@ == bytes@.subrange(at as int, at + i),
        decreases n - i,
    {
        r.push(bytes[at + i]);
        assert(bytes@.subrange(at as int, at + i + 1) =~= bytes@.subrange(at as int, at + i).push(bytes@[at + i]));
        i = i + 1;
    }
    r
}

pub fn read_bytes32(bytes: &Vec<u8>, at: usize) -> (r: Bytes32)
    requires
        at + 32 <= bytes.len(),
    ensures
        r@ == bytes@.subrange(at as int, at + 32),
{
    let mut r: Bytes32 = [0u8; 32];
    let mut i: usize = 0;
    while i < 32
        invariant
            0 <= i <= 32,
            at + 32 <= bytes.len(),
            forall|j: int| 0 <= j < i ==> r@[j] == bytes@[at + j],
        decreases 32 - i,
    {
        r[i] = bytes[at + i];
        i = i + 1;
    }
    assert(r@ =~= bytes@.subrange(at as int, at + 32));
    r
}

pub fn read_u64(bytes: &Vec<u8>, at: usize) -> (r: u64)
    requires
        at + 8 <= bytes.len(),
    ensures
        u64_le(r) == bytes@.subrange(at as int, at + 8),
{
    let v = copy_range(bytes, at, 8);
    let r = u64_from_le_bytes(v.as_slice());
    proof {
        lemma_auto_spec_u64_to_from_le_bytes();
        assert(spec_u64_to_le_bytes(spec_u64_from_le_bytes(v@)) == v@);
    }
    r
}

pub fn read_u16(bytes: &Vec<u8>, at: usize) -> (r: u16)
    requires
        at + 2 <= bytes.len(),
    ensures
        u16_le(r) == bytes@.subrange(at as int, at + 2),
{
    let v = copy_range(bytes, at, 2);
    let r = u16_from_le_bytes(v.as_slice());
    proof {
        lemma_auto_spec_u16_to_from_le_bytes();
        assert(spec_u16_to_le_bytes(spec_u16_from_le_bytes(v@)) == v@);
    }
    r
}

/// Equal little-endian encodings come from equal integers.
pub proof fn lemma_le_injective(x: u64, y: u64, a: u16, b: u16)
    ensures
        u64_le(x) == u64_le(y) ==> x == y,
        u16_le(a) == u16_le(b) ==> a == b,
        u64_le(x).len() == 8,
        u64_le(y).len() == 8,
        u16_le(a).len() == 2,
        u16_le(b).len() == 2,
{
    lemma_auto_spec_u64_to_from_le_bytes();
    lemma_auto_spec_u16_to_from_le_bytes();
    assert(u64_le(x).len() == 8);
    assert(u64_le(y).len() == 8);
    assert(u16_le(a).len() == 2);
    assert(u16_le(b).len() == 2);
    assert(spec_u64_from_le_bytes(u64_le(x)) == x);
    assert(spec_u64_from_le_bytes(u64_le(y)) == y);
    assert(spec_u16_from_le_bytes(u16_le(a)) == a);
    assert(spec_u16_from_le_bytes(u16_le(b)) == b);
}

/// Arrays with equal views are equal.
pub proof fn lemma_array_view_injective(a: Bytes32, b: Bytes32)
    requires
        a@ == b@,
    ensures
        a == b,
{
    assert(forall|i: int| 0 <= i < 32 ==> a@[i] == b@[i]);
    assert(a =~= b);
}

pub fn encode_position(out: &mut Vec<u8>, p: &Position)
    ensures
        final(out)@ == old(out)@ + position_bytes(*p),
{
    let ghost start = out@;
    push_u16(out, p.epoch);
    push_u16(out, p.block);
    push_u16(out, p.commitment);
    assert(out@ =~= start + position_bytes(*p));
}

pub fn encode_proof_into(out: &mut Vec<u8>, p: &Proof)
    ensures
        final(out)@ == old(out)@ + proof_bytes(*p),
{
    let ghost start = out@;
    encode_position(out, &p.position);
    push_bytes32(out, &p.commitment);
    let ghost mid = out@;
    let mut k: usize = 0;
    while k < p.path.len()
        invariant
            0 <= k <= p.path.len(),
            out@ == mid + flat(p.path@.subrange(0, k as int)),
        decreases p.path.len() - k,
    {
        let ghost before = out@;
        push_bytes32(out, &p.path[k]);
        proof {
            let s = p.path@.subrange(0, k + 1);
            let t = p.path@.subrange(0, k as int);
            assert forall|i: int| 0 <= i < 32 * (k + 1) implies #[trigger] flat(s)[i] == (flat(t) + p.path@[k as int]@)[i] by {
                if i < 32 * k {
                    assert(i / 32 < k) by (nonlinear_arith)
                        requires
                            0 <= i < 32 * k,
                    ;
                } else {
                    assert(i / 32 == k && i % 32 == i - 32 * k) by (nonlinear_arith)
                        requires
                            32 * k <= i < 32 * (k + 1),
                    ;
                }
            }
            assert(flat(s) =~= flat(t) + p.path@[k as int]@);
        }
        k = k + 1;
    }
    assert(p.path@.subrange(0, p.path.len() as int) =~= p.path@);
    assert(out@ =~= start + proof_bytes(*p));
}

/// The canonical encoding of an inclusion proof.
pub fn encode_proof(p: &Proof) -> (r: Vec<u8>)
    ensures
        r@ == proof_bytes(*p),
{
    let mut out: Vec<u8> = Vec::new();
    encode_proof_into(&mut out, p);
    assert(out@ =~= proof_bytes(*p));
    out
}

fn decode_position(bytes: &Vec<u8>, at: usize) -> (r: Position)
    requires
        at + 6 <= bytes.len(),
    ensures
        position_bytes(r) == bytes@.subrange(at as int, at + 6),
{
    let e = read_u16(bytes, at);
    let b = read_u16(bytes, at + 2);
    let c = read_u16(bytes, at + 4);
    let r = Position { epoch: e, block: b, commitment: c };
    assert(position_bytes(r) =~= bytes@.subrange(at as int, at + 6));
    r
}

fn decode_proof_at(bytes: &Vec<u8>, at: usize) -> (r: Proof)
    requires
        at + PROOF_LEN <= bytes.len(),
    ensures
        proof_bytes(r) == bytes@.subrange(at as int, at + PROOF_LEN),
        r.path.len() == 72,
{
    let position = decode_position(bytes, at);
    let commitment = read_bytes32(bytes, at + 6);
    let base = at + 38;
    let mut path: Vec<Bytes32> = Vec::new();
    let mut k: usize = 0;
    while k < 72
        invariant
            0 <= k <= 72,
            base == at + 38,
            at + PROOF_LEN <= bytes.len(),
            path.len() == k,
            forall|j: int| 0 <= j < k ==> (#[trigger] path@[j])@ == bytes@.subrange(base + 32 * j, base + 32 * j + 32),
        decreases 72 - k,
    {
        let h = read_bytes32(bytes, base + 32 * k);
        path.push(h);
        k = k + 1;
    }
    let r = Proof { position, commitment, path };
    proof {
        let tail = bytes@.subrange(base as int, at + PROOF_LEN);
        assert forall|i: int| 0 <= i < 2304 implies #[trigger] flat(r.path@)[i] == tail[i] by {
            let j = i / 32;
            let m = i % 32;
            assert(0 <= j < 72 && 0 <= m < 32 && i == 32 * j + m) by (nonlinear_arith)
                requires
                    0 <= i < 2304,
                    j == i / 32,
                    m == i % 32,
            ;
            assert(r.path@[j]@ == bytes@.subrange(base + 32 * j, base + 32 * j + 32));
        }
        assert(flat(r.path@) =~= tail);
        assert(proof_bytes(r) =~= bytes@.subrange(at as int, at + PROOF_LEN));
    }
    r
}

/// Decodes an inclusion proof: it succeeds exactly on inputs of the right
/// length, and then re-encoding the result gives the input back.
pub fn decode_proof(bytes: &Vec<u8>) -> (r: Result<Proof, DecodeError>)
    ensures
        r is Ok <==> bytes.len() == PROOF_LEN,
        r is Ok ==> proof_bytes(r->Ok_0) == bytes@ && r->Ok_0.well_formed(),
{
    if bytes.len() != PROOF_LEN {
        return Err(DecodeError::MalformedEncoding);
    }
    let r = decode_proof_at(bytes, 0);
    assert(bytes@.subrange(0, PROOF_LEN as int) =~= bytes@);
    Ok(r)
}

/// Well-formed proofs encode to `PROOF_LEN` bytes, and proofs with equal
/// encodings are equal: decoding the encoding of a proof gives it back.
pub proof fn lemma_proof_round_trip(x: Proof, y: Proof)
    requires
        x.well_formed(),
        proof_bytes(y) == proof_bytes(x),
    ensures
        proof_bytes(x).len() == PROOF_LEN,
        y.position == x.position,
        y.commitment == x.commitment,
        y.path@ == x.path@,
{
    lemma_le_injective(0, 0, x.position.epoch, y.position.epoch);
    lemma_le_injective(0, 0, x.position.block, y.position.block);
    lemma_le_injective(0, 0, x.position.commitment, y.position.commitment);
    let bx = proof_bytes(x);
    let by = proof_bytes(y);
    assert(position_bytes(x.position).len() == 6);
    assert(position_bytes(y.position).len() == 6);
    assert(flat(y.path@).len() == bx.len() - 38);
    assert(32 * y.path@.len() == 32 * 72);
    assert(bx.subrange(0, 2) == u16_le(x.position.epoch) && by.subrange(0, 2) == u16_le(y.position.epoch));
    assert(bx.subrange(2, 4) == u16_le(x.position.block) && by.subrange(2, 4) == u16_le(y.position.block));
    assert(bx.subrange(4, 6) == u16_le(x.position.commitment) && by.subrange(4, 6) == u16_le(y.position.commitment));
    assert(bx.subrange(6, 38) == x.commitment@ && by.subrange(6, 38) == y.commitment@);
    lemma_array_view_injective(x.commitment, y.commitment);
    assert forall|j: int| 0 <= j < 72 implies #[trigger] y.path@[j] == x.path@[j] by {
        assert forall|m: int| 0 <= m < 32 implies y.path@[j]@[m] == x.path@[j]@[m] by {
            let i = 32 * j + m;
            assert(i / 32 == j && i % 32 == m && 0 <= i < 2304) by (nonlinear_arith)
                requires
                    0 <= j < 72,
                    0 <= m < 32,
                    i == 32 * j + m,
            ;
            assert(bx[38 + i] == flat(x.path@)[i]);
            assert(by[38 + i] == flat(y.path@)[i]);
        }
        assert(y.path@[j]@ =~= x.path@[j]@);
        lemma_array_view_injective(y.path@[j], x.path@[j]);
    }
    assert(y.path@ =~= x.path@);
}

/// The canonical encoding of a note.
pub fn encode_note(n: &Note) -> (r: Vec<u8>)
    ensures
        r@ == note_bytes(*n),
{
    let mut out: Vec<u8> = Vec::new();
    push_bytes32(&mut out, &n.address.g_d);
    push_bytes32(&mut out, &n.address.pk_d);
    push_bytes32(&mut out, &n.address.ck_d);
    push_u64(&mut out, n.value.amount);
    push_bytes32(&mut out, &n.value.asset_id);
    push_bytes32(&mut out, &n.note_blinding);
    assert(out@ =~= note_bytes(*n));
    out
}

/// Decodes a note: it succeeds exactly on inputs of `NOTE_LEN` bytes, and then
/// re-encoding the result gives the input back.
pub fn decode_note(bytes: &Vec<u8>) -> (r: Result<Note, DecodeError>)
    ensures
        r is Ok <==> bytes.len() == NOTE_LEN,
        r is Ok ==> note_bytes(r->Ok_0) == bytes@,
{
    if bytes.len() != NOTE_LEN {
        return Err(DecodeError::MalformedEncoding);
    }
    let g_d = read_bytes32(bytes, 0);
    let pk_d = read_bytes32(bytes, 32);
    let ck_d = read_bytes32(bytes, 64);
    let amount = read_u64(bytes, 96);
    let asset_id = read_bytes32(bytes, 104);
    let note_blinding = read_bytes32(bytes, 136);
    let n = Note { address: Address { g_d, pk_d, ck_d }, value: Value { amount, asset_id }, note_blinding };
    assert(note_bytes(n) =~= bytes@);
    Ok(n)
}

/// Notes with equal encodings are equal: decoding the encoding of a note gives it back.
pub proof fn lemma_note_round_trip(x: Note, y: Note)
    requires
        note_bytes(y) == note_bytes(x),
    ensures
        note_bytes(x).len() == NOTE_LEN,
        y == x,
{
    lemma_le_injective(x.value.amount, y.value.amount, 0, 0);
    let bx = note_bytes(x);
    let by = note_bytes(y);
    assert(bx.subrange(0, 32) == x.address.g_d@ && by.subrange(0, 32) == y.address.g_d@);
    assert(bx.subrange(32, 64) == x.address.pk_d@ && by.subrange(32, 64) == y.address.pk_d@);
    assert(bx.subrange(64, 96) == x.address.ck_d@ && by.subrange(64, 96) == y.address.ck_d@);
    assert(bx.subrange(96, 104) == u64_le(x.value.amount) && by.subrange(96, 104) == u64_le(y.value.amount));
    assert(bx.subrange(104, 136) == x.value.asset_id@ && by.subrange(104, 136) == y.value.asset_id@);
    assert(bx.subrange(136, 168) == x.note_blinding@ && by.subrange(136, 168) == y.note_blinding@);
    lemma_array_view_injective(x.address.g_d, y.address.g_d);
    lemma_array_view_injective(x.address.pk_d, y.address.pk_d);
    lemma_array_view_injective(x.address.ck_d, y.address.ck_d);
    lemma_array_view_injective(x.value.asset_id, y.value.asset_id);
    lemma_array_view_injective(x.note_blinding, y.note_blinding);
}


/// Two concatenations with equal right parts' lengths split alike.
pub proof fn lemma_split(a1: Seq<u8>, b1: Seq<u8>, a2: Seq<u8>, b2: Seq<u8>)
    requires
        a1 + b1 == a2 + b2,
        b1.len() == b2.len(),
    ensures
        a1 == a2,
        b1 == b2,
{
    let n = a1.len() as int;
    assert((a1 + b1).len() == a1.len() + b1.len());
    assert((a2 + b2).len() == a2.len() + b2.len());
    assert((a1 + b1).len() == (a2 + b2).len());
    assert(a2.len() == n);
    assert((a1 + b1).subrange(0, n) =~= a1);
    assert((a2 + b2).subrange(0, n) =~= a2);
    assert((a1 + b1).subrange(n, (a1 + b1).len() as int) =~= b1);
    assert((a2 + b2).subrange(n, (a2 + b2).len() as int) =~= b2);
}

/// Equal 32-byte views split off the right of equal sequences.
proof fn peel32(a1: Seq<u8>, x1: Bytes32, a2: Seq<u8>, x2: Bytes32)
    requires
        a1 + x1@ == a2 + x2@,
    ensures
        a1 == a2,
        x1 == x2,
{
    lemma_split(a1, x1@, a2, x2@);
    lemma_array_view_injective(x1, x2);
}

proof fn peel_value(a1: Seq<u8>, v1: Value, a2: Seq<u8>, v2: Value)
    requires
        a1 + value_bytes(v1) == a2 + value_bytes(v2),
    ensures
        a1 == a2,
        v1 == v2,
{
    lemma_le_injective(v1.amount, v2.amount, 0, 0);
    lemma_split(a1, value_bytes(v1), a2, value_bytes(v2));
    peel32(u64_le(v1.amount), v1.asset_id, u64_le(v2.amount), v2.asset_id);
}

proof fn peel_u64(a1: Seq<u8>, x1: u64, a2: Seq<u8>, x2: u64)
    requires
        a1 + u64_le(x1) == a2 + u64_le(x2),
    ensures
        a1 == a2,
        x1 == x2,
{
    lemma_le_injective(x1, x2, 0, 0);
    lemma_split(a1, u64_le(x1), a2, u64_le(x2));
}

proof fn peel_address(a1: Seq<u8>, x1: Address, a2: Seq<u8>, x2: Address)
    requires
        a1 + address_bytes(x1) == a2 + address_bytes(x2),
    ensures
        a1 == a2,
        x1 == x2,
{
    lemma_split(a1, address_bytes(x1), a2, address_bytes(x2));
    peel32(x1.g_d@ + x1.pk_d@, x1.ck_d, x2.g_d@ + x2.pk_d@, x2.ck_d);
    peel32(x1.g_d@, x1.pk_d, x2.g_d@, x2.pk_d);
    lemma_array_view_injective(x1.g_d, x2.g_d);
}

pub open spec fn spend_proof_bytes(p: SpendProof) -> Seq<u8> {
    proof_bytes(p.note_commitment_proof) + p.g_d@ + p.pk_d@ + p.ck_d@ + value_bytes(p.value) + p.v_blinding@
        + p.note_blinding@ + p.spend_auth_randomizer@ + p.ak@ + p.nk@
}

pub const SPEND_PROOF_LEN: usize = 2638;

/// The field checks of an encoded spend proof: the diversified base and the
/// authorization key decompress; asset id, note blinding and nullifier key are
/// canonical in `Fq`, the value blinding and randomizer in `Fr`.
pub open spec fn spend_fields_valid(b: Seq<u8>) -> bool {
    &&& point_at(b, 2342)
    &&& fq_at(b, 2446)
    &&& fr_at(b, 2478)
    &&& fq_at(b, 2510)
    &&& fr_at(b, 2542)
    &&& point_at(b, 2574)
    &&& fq_at(b, 2606)
}

pub fn encode_spend_proof(p: &SpendProof) -> (r: Vec<u8>)
    ensures
        r@ == spend_proof_bytes(*p),
{
    let mut out: Vec<u8> = Vec::new();
    encode_proof_into(&mut out, &p.note_commitment_proof);
    push_bytes32(&mut out, &p.g_d);
    push_bytes32(&mut out, &p.pk_d);
    push_bytes32(&mut out, &p.ck_d);
    push_u64(&mut out, p.value.amount);
    push_bytes32(&mut out, &p.value.asset_id);
    push_bytes32(&mut out, &p.v_blinding);
    push_bytes32(&mut out, &p.note_blinding);
    push_bytes32(&mut out, &p.spend_auth_randomizer);
    push_bytes32(&mut out, &p.ak);
    push_bytes32(&mut out, &p.nk);
    assert(out@ =~= spend_proof_bytes(*p));
    out
}

/// Decodes a spend proof: it succeeds exactly on inputs of the right length,
/// and then re-encoding the result gives the input back.
pub fn decode_spend_proof(bytes: &Vec<u8>) -> (r: Result<SpendProof, DecodeError>)
    ensures
        r is Ok <==> bytes.len() == SPEND_PROOF_LEN && spend_fields_valid(bytes@),
        r is Ok ==> spend_proof_bytes(r->Ok_0) == bytes@ && r->Ok_0.note_commitment_proof.well_formed(),
{
    if bytes.len() != SPEND_PROOF_LEN {
        return Err(DecodeError::MalformedEncoding);
    }
    let note_commitment_proof = decode_proof_at(bytes, 0);
    let g_d = read_bytes32(bytes, 2342);
    let pk_d = read_bytes32(bytes, 2374);
    let ck_d = read_bytes32(bytes, 2406);
    let amount = read_u64(bytes, 2438);
    let asset_id = read_bytes32(bytes, 2446);
    let v_blinding = read_bytes32(bytes, 2478);
    let note_blinding = read_bytes32(bytes, 2510);
    let spend_auth_randomizer = read_bytes32(bytes, 2542);
    let ak = read_bytes32(bytes, 2574);
    let nk = read_bytes32(bytes, 2606);
    if !(is_point(&g_d) && fq_canonical(&asset_id) && fr_canonical(&v_blinding) && fq_canonical(&note_blinding)
        && fr_canonical(&spend_auth_randomizer) && is_point(&ak) && fq_canonical(&nk)) {
        return Err(DecodeError::MalformedEncoding);
    }
    let p = SpendProof {
        note_commitment_proof,
        g_d,
        pk_d,
        ck_d,
        value: Value { amount, asset_id },
        v_blinding,
        note_blinding,
        spend_auth_randomizer,
        ak,
        nk,
    };
    assert(spend_proof_bytes(p) =~= bytes@);
    Ok(p)
}

/// Spend proofs with equal encodings are equal: decoding the encoding of a
/// spend proof (with a well-formed inclusion proof) gives it back.
pub proof fn lemma_spend_proof_round_trip(x: SpendProof, y: SpendProof)
    requires
        x.note_commitment_proof.well_formed(),
        spend_proof_bytes(y) == spend_proof_bytes(x),
    ensures
        y.note_commitment_proof.position == x.note_commitment_proof.position,
        y.note_commitment_proof.commitment == x.note_commitment_proof.commitment,
        y.note_commitment_proof.path@ == x.note_commitment_proof.path@,
        y.g_d == x.g_d && y.pk_d == x.pk_d && y.ck_d == x.ck_d,
        y.value == x.value,
        y.v_blinding == x.v_blinding && y.note_blinding == x.note_blinding,
        y.spend_auth_randomizer == x.spend_auth_randomizer && y.ak == x.ak && y.nk == x.nk,
{
    let px = proof_bytes(x.note_commitment_proof);
    let py = proof_bytes(y.note_commitment_proof);
    let a1 = px + x.g_d@ + x.pk_d@ + x.ck_d@ + value_bytes(x.value) + x.v_blinding@ + x.note_blinding@ + x.spend_auth_randomizer@ + x.ak@;
    let a2 = py + y.g_d@ + y.pk_d@ + y.ck_d@ + value_bytes(y.value) + y.v_blinding@ + y.note_blinding@ + y.spend_auth_randomizer@ + y.ak@;
    peel32(a1, x.nk, a2, y.nk);
    let b1 = px + x.g_d@ + x.pk_d@ + x.ck_d@ + value_bytes(x.value) + x.v_blinding@ + x.note_blinding@ + x.spend_auth_randomizer@;
    let b2 = py + y.g_d@ + y.pk_d@ + y.ck_d@ + value_bytes(y.value) + y.v_blinding@ + y.note_blinding@ + y.spend_auth_randomizer@;
    peel32(b1, x.ak, b2, y.ak);
    let c1 = px + x.g_d@ + x.pk_d@ + x.ck_d@ + value_bytes(x.value) + x.v_blinding@ + x.note_blinding@;
    let c2 = py + y.g_d@ + y.pk_d@ + y.ck_d@ + value_bytes(y.value) + y.v_blinding@ + y.note_blinding@;
    peel32(c1, x.spend_auth_randomizer, c2, y.spend_auth_randomizer);
    let d1 = px + x.g_d@ + x.pk_d@ + x.ck_d@ + value_bytes(x.value) + x.v_blinding@;
    let d2 = py + y.g_d@ + y.pk_d@ + y.ck_d@ + value_bytes(y.value) + y.v_blinding@;
    peel32(d1, x.note_blinding, d2, y.note_blinding);
    let e1 = px + x.g_d@ + x.pk_d@ + x.ck_d@ + value_bytes(x.value);
    let e2 = py + y.g_d@ + y.pk_d@ + y.ck_d@ + value_bytes(y.value);
    peel32(e1, x.v_blinding, e2, y.v_blinding);
    let f1 = px + x.g_d@ + x.pk_d@ + x.ck_d@;
    let f2 = py + y.g_d@ + y.pk_d@ + y.ck_d@;
    peel_value(f1, x.value, f2, y.value);
    peel32(px + x.g_d@ + x.pk_d@, x.ck_d, py + y.g_d@ + y.pk_d@, y.ck_d);
    peel32(px + x.g_d@, x.pk_d, py + y.g_d@, y.pk_d);
    peel32(px, x.g_d, py, y.g_d);
    lemma_proof_round_trip(x.note_commitment_proof, y.note_commitment_proof);
}

pub open spec fn output_proof_bytes(p: OutputProof) -> Seq<u8> {
    p.g_d@ + p.pk_d@ + p.ck_d@ + value_bytes(p.value) + p.v_blinding@ + p.note_blinding@ + p.esk@
}

pub const OUTPUT_PROOF_LEN: usize = 232;

/// The field checks of an encoded output proof: the diversified base
/// decompresses; asset id and note blinding are canonical in `Fq`, the value
/// blinding and ephemeral secret in `Fr`.
pub open spec fn output_fields_valid(b: Seq<u8>) -> bool {
    &&& point_at(b, 0)
    &&& fq_at(b, 104)
    &&& fr_at(b, 136)
    &&& fq_at(b, 168)
    &&& fr_at(b, 200)
}

pub fn encode_output_proof(p: &OutputProof) -> (r: Vec<u8>)
    ensures
        r@ == output_proof_bytes(*p),
{
    let mut out: Vec<u8> = Vec::new();
    push_bytes32(&mut out, &p.g_d);
    push_bytes32(&mut out, &p.pk_d);
    push_bytes32(&mut out, &p.ck_d);
    push_u64(&mut out, p.value.amount);
    push_bytes32(&mut out, &p.value.asset_id);
    push_bytes32(&mut out, &p.v_blinding);
    push_bytes32(&mut out, &p.note_blinding);
    push_bytes32(&mut out, &p.esk);
    assert(out@ =~= output_proof_bytes(*p));
    out
}

/// Decodes an output proof: it succeeds exactly on inputs of the right length,
/// and then re-encoding the result gives the input back.
pub fn decode_output_proof(bytes: &Vec<u8>) -> (r: Result<OutputProof, DecodeError>)
    ensures
        r is Ok <==> bytes.len() == OUTPUT_PROOF_LEN && output_fields_valid(bytes@),
        r is Ok ==> output_proof_bytes(r->Ok_0) == bytes@,
{
    if bytes.len() != OUTPUT_PROOF_LEN {
        return Err(DecodeError::MalformedEncoding);
    }
    let g_d = read_bytes32(bytes, 0);
    let pk_d = read_bytes32(bytes, 32);
    let ck_d = read_bytes32(bytes, 64);
    let amount = read_u64(bytes, 96);
    let asset_id = read_bytes32(bytes, 104);
    let v_blinding = read_bytes32(bytes, 136);
    let note_blinding = read_bytes32(bytes, 168);
    let esk = read_bytes32(bytes, 200);
    if !(is_point(&g_d) && fq_canonical(&asset_id) && fr_canonical(&v_blinding) && fq_canonical(&note_blinding)
        && fr_canonical(&esk)) {
        return Err(DecodeError::MalformedEncoding);
    }
    let p = OutputProof { g_d, pk_d, ck_d, value: Value { amount, asset_id }, v_blinding, note_blinding, esk };
    assert(output_proof_bytes(p) =~= bytes@);
    Ok(p)
}

/// Output proofs with equal encodings are equal: decoding the encoding of an
/// output proof gives it back.
pub proof fn lemma_output_proof_round_trip(x: OutputProof, y: OutputProof)
    requires
        output_proof_bytes(y) == output_proof_bytes(x),
    ensures
        y == x,
{
    let a1 = x.g_d@ + x.pk_d@ + x.ck_d@ + value_bytes(x.value) + x.v_blinding@ + x.note_blinding@;
    let a2 = y.g_d@ + y.pk_d@ + y.ck_d@ + value_bytes(y.value) + y.v_blinding@ + y.note_blinding@;
    peel32(a1, x.esk, a2, y.esk);
    peel32(x.g_d@ + x.pk_d@ + x.ck_d@ + value_bytes(x.value) + x.v_blinding@, x.note_blinding,
        y.g_d@ + y.pk_d@ + y.ck_d@ + value_bytes(y.value) + y.v_blinding@, y.note_blinding);
    peel32(x.g_d@ + x.pk_d@ + x.ck_d@ + value_bytes(x.value), x.v_blinding,
        y.g_d@ + y.pk_d@ + y.ck_d@ + value_bytes(y.value), y.v_blinding);
    peel_value(x.g_d@ + x.pk_d@ + x.ck_d@, x.value, y.g_d@ + y.pk_d@ + y.ck_d@, y.value);
    peel32(x.g_d@ + x.pk_d@, x.ck_d, y.g_d@ + y.pk_d@, y.ck_d);
    peel32(x.g_d@, x.pk_d, y.g_d@, y.pk_d);
    lemma_array_view_injective(x.g_d, y.g_d);
}

pub open spec fn swap_proof_bytes(p: SwapProof) -> Seq<u8> {
    address_bytes(p.claim_address) + value_bytes(p.value_t1) + value_bytes(p.value_t2) + u64_le(p.fee_delta.amount)
        + p.fee_delta.asset_id@ + p.swap_nft_asset_id@ + p.note_blinding@ + p.esk@
}

pub const SWAP_PROOF_LEN: usize = 312;

/// The field checks of an encoded swap proof: the claim address' base
/// decompresses; the asset ids, the NFT's asset id and the note blinding are
/// canonical in `Fq`, the ephemeral secret in `Fr`.
pub open spec fn swap_fields_valid(b: Seq<u8>) -> bool {
    &&& point_at(b, 0)
    &&& fq_at(b, 104)
    &&& fq_at(b, 144)
    &&& fq_at(b, 184)
    &&& fq_at(b, 216)
    &&& fq_at(b, 248)
    &&& fr_at(b, 280)
}

pub fn encode_swap_proof(p: &SwapProof) -> (r: Vec<u8>)
    ensures
        r@ == swap_proof_bytes(*p),
{
    let mut out: Vec<u8> = Vec::new();
    push_bytes32(&mut out, &p.claim_address.g_d);
    push_bytes32(&mut out, &p.claim_address.pk_d);
    push_bytes32(&mut out, &p.claim_address.ck_d);
    push_u64(&mut out, p.value_t1.amount);
    push_bytes32(&mut out, &p.value_t1.asset_id);
    push_u64(&mut out, p.value_t2.amount);
    push_bytes32(&mut out, &p.value_t2.asset_id);
    push_u64(&mut out, p.fee_delta.amount);
    push_bytes32(&mut out, &p.fee_delta.asset_id);
    push_bytes32(&mut out, &p.swap_nft_asset_id);
    push_bytes32(&mut out, &p.note_blinding);
    push_bytes32(&mut out, &p.esk);
    assert(out@ =~= swap_proof_bytes(*p));
    out
}

/// Decodes a swap proof: it succeeds exactly on inputs of the right length,
/// and then re-encoding the result gives the input back.
pub fn decode_swap_proof(bytes: &Vec<u8>) -> (r: Result<SwapProof, DecodeError>)
    ensures
        r is Ok <==> bytes.len() == SWAP_PROOF_LEN && swap_fields_valid(bytes@),
        r is Ok ==> swap_proof_bytes(r->Ok_0) == bytes@,
{
    if bytes.len() != SWAP_PROOF_LEN {
        return Err(DecodeError::MalformedEncoding);
    }
    let g_d = read_bytes32(bytes, 0);
    let pk_d = read_bytes32(bytes, 32);
    let ck_d = read_bytes32(bytes, 64);
    let a1 = read_u64(bytes, 96);
    let t1 = read_bytes32(bytes, 104);
    let a2 = read_u64(bytes, 136);
    let t2 = read_bytes32(bytes, 144);
    let fa = read_u64(bytes, 176);
    let ft = read_bytes32(bytes, 184);
    let nft = read_bytes32(bytes, 216);
    let nb = read_bytes32(bytes, 248);
    let esk = read_bytes32(bytes, 280);
    if !(is_point(&g_d) && fq_canonical(&t1) && fq_canonical(&t2) && fq_canonical(&ft) && fq_canonical(&nft)
        && fq_canonical(&nb) && fr_canonical(&esk)) {
        return Err(DecodeError::MalformedEncoding);
    }
    let p = SwapProof {
        claim_address: Address { g_d, pk_d, ck_d },
        value_t1: Value { amount: a1, asset_id: t1 },
        value_t2: Value { amount: a2, asset_id: t2 },
        fee_delta: Fee { amount: fa, asset_id: ft },
        swap_nft_asset_id: nft,
        note_blinding: nb,
        esk,
    };
    assert(swap_proof_bytes(p) =~= bytes@);
    Ok(p)
}

/// Swap proofs with equal encodings are equal: decoding the encoding of a
/// swap proof gives it back.
pub proof fn lemma_swap_proof_round_trip(x: SwapProof, y: SwapProof)
    requires
        swap_proof_bytes(y) == swap_proof_bytes(x),
    ensures
        y == x,
{
    let ax = address_bytes(x.claim_address);
    let ay = address_bytes(y.claim_address);
    let vx = ax + value_bytes(x.value_t1) + value_bytes(x.value_t2);
    let vy = ay + value_bytes(y.value_t1) + value_bytes(y.value_t2);
    peel32(vx + u64_le(x.fee_delta.amount) + x.fee_delta.asset_id@ + x.swap_nft_asset_id@ + x.note_blinding@, x.esk,
        vy + u64_le(y.fee_delta.amount) + y.fee_delta.asset_id@ + y.swap_nft_asset_id@ + y.note_blinding@, y.esk);
    peel32(vx + u64_le(x.fee_delta.amount) + x.fee_delta.asset_id@ + x.swap_nft_asset_id@, x.note_blinding,
        vy + u64_le(y.fee_delta.amount) + y.fee_delta.asset_id@ + y.swap_nft_asset_id@, y.note_blinding);
    peel32(vx + u64_le(x.fee_delta.amount) + x.fee_delta.asset_id@, x.swap_nft_asset_id,
        vy + u64_le(y.fee_delta.amount) + y.fee_delta.asset_id@, y.swap_nft_asset_id);
    peel32(vx + u64_le(x.fee_delta.amount), x.fee_delta.asset_id, vy + u64_le(y.fee_delta.amount), y.fee_delta.asset_id);
    peel_u64(vx, x.fee_delta.amount, vy, y.fee_delta.amount);
    peel_value(ax + value_bytes(x.value_t1), x.value_t2, ay + value_bytes(y.value_t1), y.value_t2);
    peel_value(ax, x.value_t1, ay, y.value_t1);
    peel_address(Seq::empty(), x.claim_address, Seq::empty(), y.claim_address);
    assert(Seq::<u8>::empty() + ax =~= ax);
    assert(Seq::<u8>::empty() + ay =~= ay);
}

pub open spec fn swap_claim_proof_bytes(p: SwapClaimProof) -> Seq<u8> {
    p.swap_nft_asset_id@ + address_bytes(p.claim_address) + proof_bytes(p.note_commitment_proof) + p.note_blinding@
        + p.nk@ + p.trading_pair.asset_1@ + p.trading_pair.asset_2@ + u64_le(p.delta_1) + u64_le(p.delta_2)
        + u64_le(p.lambda_1) + u64_le(p.lambda_2) + p.note_blinding_1@ + p.esk_1@ + p.note_blinding_2@ + p.esk_2@
}

pub const SWAP_CLAIM_PROOF_LEN: usize = 2758;

/// The field checks of an encoded swap claim proof: the claim address' base
/// decompresses; the NFT's asset id, the note blinding, the nullifier key and
/// the pair's asset ids are canonical in `Fq`, both ephemeral secrets in `Fr`.
/// The output blindings are read modulo the field order, so any bytes do.
pub open spec fn swap_claim_fields_valid(b: Seq<u8>) -> bool {
    &&& fq_at(b, 0)
    &&& point_at(b, 32)
    &&& fq_at(b, 2470)
    &&& fq_at(b, 2502)
    &&& fq_at(b, 2534)
    &&& fq_at(b, 2566)
    &&& fr_at(b, 2662)
    &&& fr_at(b, 2726)
}

pub fn encode_swap_claim_proof(p: &SwapClaimProof) -> (r: Vec<u8>)
    ensures
        r@ == swap_claim_proof_bytes(*p),
{
    let mut out: Vec<u8> = Vec::new();
    push_bytes32(&mut out, &p.swap_nft_asset_id);
    push_bytes32(&mut out, &p.claim_address.g_d);
    push_bytes32(&mut out, &p.claim_address.pk_d);
    push_bytes32(&mut out, &p.claim_address.ck_d);
    encode_proof_into(&mut out, &p.note_commitment_proof);
    push_bytes32(&mut out, &p.note_blinding);
    push_bytes32(&mut out, &p.nk);
    push_bytes32(&mut out, &p.trading_pair.asset_1);
    push_bytes32(&mut out, &p.trading_pair.asset_2);
    push_u64(&mut out, p.delta_1);
    push_u64(&mut out, p.delta_2);
    push_u64(&mut out, p.lambda_1);
    push_u64(&mut out, p.lambda_2);
    push_bytes32(&mut out, &p.note_blinding_1);
    push_bytes32(&mut out, &p.esk_1);
    push_bytes32(&mut out, &p.note_blinding_2);
    push_bytes32(&mut out, &p.esk_2);
    assert(out@ =~= swap_claim_proof_bytes(*p));
    out
}

/// Decodes a swap claim proof: it succeeds exactly on inputs of the right
/// length, and then re-encoding the result gives the input back.
pub fn decode_swap_claim_proof(bytes: &Vec<u8>) -> (r: Result<SwapClaimProof, DecodeError>)
    ensures
        r is Ok <==> bytes.len() == SWAP_CLAIM_PROOF_LEN && swap_claim_fields_valid(bytes@),
        r is Ok ==> swap_claim_proof_bytes(r->Ok_0) == bytes@ && r->Ok_0.note_commitment_proof.well_formed(),
{
    if bytes.len() != SWAP_CLAIM_PROOF_LEN {
        return Err(DecodeError::MalformedEncoding);
    }
    let nft = read_bytes32(bytes, 0);
    let g_d = read_bytes32(bytes, 32);
    let pk_d = read_bytes32(bytes, 64);
    let ck_d = read_bytes32(bytes, 96);
    let proof = decode_proof_at(bytes, 128);
    let nb = read_bytes32(bytes, 2470);
    let nk = read_bytes32(bytes, 2502);
    let t1 = read_bytes32(bytes, 2534);
    let t2 = read_bytes32(bytes, 2566);
    let d1 = read_u64(bytes, 2598);
    let d2 = read_u64(bytes, 2606);
    let l1 = read_u64(bytes, 2614);
    let l2 = read_u64(bytes, 2622);
    let nb1 = read_bytes32(bytes, 2630);
    let esk1 = read_bytes32(bytes, 2662);
    let nb2 = read_bytes32(bytes, 2694);
    let esk2 = read_bytes32(bytes, 2726);
    if !(fq_canonical(&nft) && is_point(&g_d) && fq_canonical(&nb) && fq_canonical(&nk) && fq_canonical(&t1)
        && fq_canonical(&t2) && fr_canonical(&esk1) && fr_canonical(&esk2)) {
        return Err(DecodeError::MalformedEncoding);
    }
    let p = SwapClaimProof {
        swap_nft_asset_id: nft,
        claim_address: Address { g_d, pk_d, ck_d },
        note_commitment_proof: proof,
        note_blinding: nb,
        nk,
        trading_pair: TradingPair { asset_1: t1, asset_2: t2 },
        delta_1: d1,
        delta_2: d2,
        lambda_1: l1,
        lambda_2: l2,
        note_blinding_1: nb1,
        esk_1: esk1,
        note_blinding_2: nb2,
        esk_2: esk2,
    };
    assert(swap_claim_proof_bytes(p) =~= bytes@);
    Ok(p)
}

/// Swap claim proofs with equal encodings are equal: decoding the encoding of
/// a swap claim proof (with a well-formed inclusion proof) gives it back.
pub proof fn lemma_swap_claim_proof_round_trip(x: SwapClaimProof, y: SwapClaimProof)
    requires
        x.note_commitment_proof.well_formed(),
        swap_claim_proof_bytes(y) == swap_claim_proof_bytes(x),
    ensures
        y.note_commitment_proof.position == x.note_commitment_proof.position,
        y.note_commitment_proof.commitment == x.note_commitment_proof.commitment,
        y.note_commitment_proof.path@ == x.note_commitment_proof.path@,
        y.swap_nft_asset_id == x.swap_nft_asset_id && y.claim_address == x.claim_address,
        y.note_blinding == x.note_blinding && y.nk == x.nk && y.trading_pair == x.trading_pair,
        y.delta_1 == x.delta_1 && y.delta_2 == x.delta_2 && y.lambda_1 == x.lambda_1 && y.lambda_2 == x.lambda_2,
        y.note_blinding_1 == x.note_blinding_1 && y.esk_1 == x.esk_1,
        y.note_blinding_2 == x.note_blinding_2 && y.esk_2 == x.esk_2,
{
    let hx = x.swap_nft_asset_id@ + address_bytes(x.claim_address);
    let hy = y.swap_nft_asset_id@ + address_bytes(y.claim_address);
    let px = hx + proof_bytes(x.note_commitment_proof);
    let py = hy + proof_bytes(y.note_commitment_proof);
    let k1 = px + x.note_blinding@ + x.nk@ + x.trading_pair.asset_1@ + x.trading_pair.asset_2@;
    let k2 = py + y.note_blinding@ + y.nk@ + y.trading_pair.asset_1@ + y.trading_pair.asset_2@;
    let m1 = k1 + u64_le(x.delta_1) + u64_le(x.delta_2) + u64_le(x.lambda_1) + u64_le(x.lambda_2);
    let m2 = k2 + u64_le(y.delta_1) + u64_le(y.delta_2) + u64_le(y.lambda_1) + u64_le(y.lambda_2);
    peel32(m1 + x.note_blinding_1@ + x.esk_1@ + x.note_blinding_2@, x.esk_2, m2 + y.note_blinding_1@ + y.esk_1@ + y.note_blinding_2@, y.esk_2);
    peel32(m1 + x.note_blinding_1@ + x.esk_1@, x.note_blinding_2, m2 + y.note_blinding_1@ + y.esk_1@, y.note_blinding_2);
    peel32(m1 + x.note_blinding_1@, x.esk_1, m2 + y.note_blinding_1@, y.esk_1);
    peel32(m1, x.note_blinding_1, m2, y.note_blinding_1);
    peel_u64(k1 + u64_le(x.delta_1) + u64_le(x.delta_2) + u64_le(x.lambda_1), x.lambda_2, k2 + u64_le(y.delta_1) + u64_le(y.delta_2) + u64_le(y.lambda_1), y.lambda_2);
    peel_u64(k1 + u64_le(x.delta_1) + u64_le(x.delta_2), x.lambda_1, k2 + u64_le(y.delta_1) + u64_le(y.delta_2), y.lambda_1);
    peel_u64(k1 + u64_le(x.delta_1), x.delta_2, k2 + u64_le(y.delta_1), y.delta_2);
    peel_u64(k1, x.delta_1, k2, y.delta_1);
    peel32(px + x.note_blinding@ + x.nk@ + x.trading_pair.asset_1@, x.trading_pair.asset_2, py + y.note_blinding@ + y.nk@ + y.trading_pair.asset_1@, y.trading_pair.asset_2);
    peel32(px + x.note_blinding@ + x.nk@, x.trading_pair.asset_1, py + y.note_blinding@ + y.nk@, y.trading_pair.asset_1);
    peel32(px + x.note_blinding@, x.nk, py + y.note_blinding@, y.nk);
    peel32(px, x.note_blinding, py, y.note_blinding);
    assert(hx.len() == 128 && hy.len() == 128);
    assert(px.len() == py.len());
    lemma_split(hx, proof_bytes(x.note_commitment_proof), hy, proof_bytes(y.note_commitment_proof));
    lemma_proof_round_trip(x.note_commitment_proof, y.note_commitment_proof);
    peel_address(x.swap_nft_asset_id@, x.claim_address, y.swap_nft_asset_id@, y.claim_address);
    lemma_array_view_injective(x.swap_nft_asset_id, y.swap_nft_asset_id);
}

pub open spec fn fragment_bytes(f: NotePayload) -> Seq<u8> {
    f.note_commitment@ + f.ephemeral_key@ + u64_le(f.encrypted_note.len() as u64) + f.encrypted_note@
}

pub open spec fn fragments_bytes(s: Seq<NotePayload>) -> Seq<u8>
    decreases s.len(),
{
    if s.len() == 0 {
        Seq::empty()
    } else {
        fragments_bytes(s.drop_last()) + fragment_bytes(s.last())
    }
}

pub open spec fn compact_block_bytes(b: CompactBlock) -> Seq<u8> {
    u64_le(b.height) + u64_le(b.fragments.len() as u64) + fragments_bytes(b.fragments@) + u64_le(
        b.nullifiers.len() as u64,
    ) + flat(b.nullifiers@)
}

fn push_vec(out: &mut Vec<u8>, v: &Vec<u8>)
    ensures
        final(out)@ == old(out)@ + v@,
{
    let ghost start = out@;
    let mut i: usize = 0;
    while i < v.len()
        invariant
            0 <= i <= v.len(),
            out@ == start + v@.subrange(0, i as int),
        decreases v.len() - i,
    {
        out.push(v[i]);
        assert(v@.subrange(0, i + 1) =~= v@.subrange(0, i as int).push(v@[i as int]));
        i = i + 1;
    }
    assert(v@.subrange(0, v.len() as int) =~= v@);
}

/// The canonical encoding of a compact block.
pub fn encode_compact_block(b: &CompactBlock) -> (r: Vec<u8>)
    ensures
        r@ == compact_block_bytes(*b),
{
    let mut out: Vec<u8> = Vec::new();
    push_u64(&mut out, b.height);
    push_u64(&mut out, b.fragments.len() as u64);
    let ghost head = out@;
    let mut k: usize = 0;
    while k < b.fragments.len()
        invariant
            0 <= k <= b.fragments.len(),
            out@ == head + fragments_bytes(b.fragments@.subrange(0, k as int)),
        decreases b.fragments.len() - k,
    {
        let f = &b.fragments[k];
        let ghost before = out@;
        push_bytes32(&mut out, &f.note_commitment);
        push_bytes32(&mut out, &f.ephemeral_key);
        push_u64(&mut out, f.encrypted_note.len() as u64);
        push_vec(&mut out, &f.encrypted_note);
        proof {
            let s = b.fragments@.subrange(0, k + 1);
            assert(s.drop_last() =~= b.fragments@.subrange(0, k as int));
            assert(s.last() == b.fragments@[k as int]);
            assert(out@ =~= before + fragment_bytes(b.fragments@[k as int]));
        }
        k = k + 1;
    }
    assert(b.fragments@.subrange(0, b.fragments.len() as int) =~= b.fragments@);
    push_u64(&mut out, b.nullifiers.len() as u64);
    let ghost mid = out@;
    let mut j: usize = 0;
    while j < b.nullifiers.len()
        invariant
            0 <= j <= b.nullifiers.len(),
            out@ == mid + flat(b.nullifiers@.subrange(0, j as int)),
        decreases b.nullifiers.len() - j,
    {
        push_bytes32(&mut out, &b.nullifiers[j]);
        proof {
            let s = b.nullifiers@.subrange(0, j + 1);
            let t = b.nullifiers@.subrange(0, j as int);
            assert forall|i: int| 0 <= i < 32 * (j + 1) implies #[trigger] flat(s)[i] == (flat(t) + b.nullifiers@[j as int]@)[i] by {
                if i < 32 * j {
                    assert(i / 32 < j) by (nonlinear_arith)
                        requires
                            0 <= i < 32 * j,
                    ;
                } else {
                    assert(i / 32 == j && i % 32 == i - 32 * j) by (nonlinear_arith)
                        requires
                            32 * j <= i < 32 * (j + 1),
                    ;
                }
            }
            assert(flat(s) =~= flat(t) + b.nullifiers@[j as int]@);
        }
        j = j + 1;
    }
    assert(b.nullifiers@.subrange(0, b.nullifiers.len() as int) =~= b.nullifiers@);
    assert(out@ =~= compact_block_bytes(*b));
    out
}

/// Decodes a compact block. Whatever it returns re-encodes to the input;
/// truncated input, or input with bytes left over, is refused.
pub fn decode_compact_block(bytes: &Vec<u8>) -> (r: Result<CompactBlock, DecodeError>)
    ensures
        r is Ok ==> compact_block_bytes(r->Ok_0) == bytes@,
{
    let n = bytes.len();
    if n < 16 {
        return Err(DecodeError::MalformedEncoding);
    }
    let height = read_u64(bytes, 0);
    let nfrag = read_u64(bytes, 8);
    let mut at: usize = 16;
    let mut fragments: Vec<NotePayload> = Vec::new();
    let mut k: u64 = 0;
    while k < nfrag
        invariant
            16 <= at <= n,
            n == bytes.len(),
            k <= nfrag,
            fragments.len() == k,
            u64_le(height) == bytes@.subrange(0, 8),
            u64_le(nfrag) == bytes@.subrange(8, 16),
            fragments_bytes(fragments@) == bytes@.subrange(16, at as int),
        decreases nfrag - k,
    {
        if n - at < 72 {
            return Err(DecodeError::MalformedEncoding);
        }
        let note_commitment = read_bytes32(bytes, at);
        let ephemeral_key = read_bytes32(bytes, at + 32);
        let len = read_u64(bytes, at + 64);
        if len as u128 > (n - at - 72) as u128 {
            return Err(DecodeError::MalformedEncoding);
        }
        let encrypted_note = copy_range(bytes, at + 72, len as usize);
        let f = NotePayload { note_commitment, ephemeral_key, encrypted_note };
        let ghost before = fragments@;
        fragments.push(f);
        proof {
            assert(fragments@.drop_last() =~= before);
            assert(fragment_bytes(f) =~= bytes@.subrange(at as int, at + 72 + len));
            assert(bytes@.subrange(16, at + 72 + len) =~= bytes@.subrange(16, at as int) + bytes@.subrange(at as int, at + 72 + len));
        }
        at = at + 72 + len as usize;
        k = k + 1;
    }
    if n - at < 8 {
        return Err(DecodeError::MalformedEncoding);
    }
    let nnull = read_u64(bytes, at);
    let rest = n - at - 8;
    if rest % 32 != 0 || (rest / 32) as u64 != nnull {
        return Err(DecodeError::MalformedEncoding);
    }
    let base = at + 8;
    let count = rest / 32;
    let mut nullifiers: Vec<Bytes32> = Vec::new();
    let mut j: usize = 0;
    while j < count
        invariant
            0 <= j <= count,
            base + 32 * count == n,
            n == bytes.len(),
            nullifiers.len() == j,
            forall|i: int| 0 <= i < j ==> (#[trigger] nullifiers@[i])@ == bytes@.subrange(base + 32 * i, base + 32 * i + 32),
        decreases count - j,
    {
        let h = read_bytes32(bytes, base + 32 * j);
        nullifiers.push(h);
        j = j + 1;
    }
    let b = CompactBlock { height, fragments, nullifiers };
    proof {
        let tail = bytes@.subrange(base as int, n as int);
        assert forall|i: int| 0 <= i < 32 * count implies #[trigger] flat(b.nullifiers@)[i] == tail[i] by {
            let q = i / 32;
            let m = i % 32;
            assert(0 <= q < count && 0 <= m < 32 && i == 32 * q + m) by (nonlinear_arith)
                requires
                    0 <= i < 32 * count,
                    q == i / 32,
                    m == i % 32,
            ;
            assert(b.nullifiers@[q]@ == bytes@.subrange(base + 32 * q, base + 32 * q + 32));
        }
        assert(flat(b.nullifiers@) =~= tail);
        assert(compact_block_bytes(b) =~= bytes@);
    }
    Ok(b)
}

/// What a fragment holds, as plain values.
pub open spec fn fragment_view(f: NotePayload) -> (Bytes32, Bytes32, Seq<u8>) {
    (f.note_commitment, f.ephemeral_key, f.encrypted_note@)
}

proof fn lemma_fragments_front(s: Seq<NotePayload>)
    requires
        s.len() > 0,
    ensures
        fragments_bytes(s) == fragment_bytes(s[0]) + fragments_bytes(s.drop_first()),
    decreases s.len(),
{
    if s.len() == 1 {
        assert(s.drop_last() =~= Seq::<NotePayload>::empty());
        assert(s.drop_first() =~= Seq::<NotePayload>::empty());
        assert(fragments_bytes(s.drop_last()) == Seq::<u8>::empty());
        assert(s.last() == s[0]);
        assert(fragments_bytes(s) == fragments_bytes(s.drop_last()) + fragment_bytes(s.last()));
        assert(fragments_bytes(s) =~= fragment_bytes(s[0]));
        assert(fragment_bytes(s[0]) + fragments_bytes(s.drop_first()) =~= fragment_bytes(s[0]));
    } else {
        let d = s.drop_last();
        lemma_fragments_front(d);
        assert(d.drop_first() =~= s.drop_first().drop_last());
        assert(s.drop_first().last() == s.last());
        assert(d[0] == s[0]);
        assert(fragments_bytes(s.drop_first()) == fragments_bytes(s.drop_first().drop_last()) + fragment_bytes(
            s.drop_first().last(),
        ));
        assert(fragments_bytes(s) =~= fragment_bytes(s[0]) + fragments_bytes(s.drop_first()));
    }
}

proof fn lemma_fragments_injective(s1: Seq<NotePayload>, r1: Seq<u8>, s2: Seq<NotePayload>, r2: Seq<u8>)
    requires
        s1.len() == s2.len(),
        fragments_bytes(s1) + r1 == fragments_bytes(s2) + r2,
    ensures
        r1 == r2,
        forall|i: int| 0 <= i < s1.len() ==> fragment_view(#[trigger] s1[i]) == fragment_view(s2[i]),
    decreases s1.len(),
{
    if s1.len() == 0 {
        assert(fragments_bytes(s1) + r1 =~= r1);
        assert(fragments_bytes(s2) + r2 =~= r2);
    } else {
        lemma_fragments_front(s1);
        lemma_fragments_front(s2);
        let f1 = s1[0];
        let f2 = s2[0];
        let t1 = fragments_bytes(s1.drop_first()) + r1;
        let t2 = fragments_bytes(s2.drop_first()) + r2;
        let all1 = fragment_bytes(f1) + t1;
        let all2 = fragment_bytes(f2) + t2;
        assert(all1 =~= fragments_bytes(s1) + r1);
        assert(all2 =~= fragments_bytes(s2) + r2);
        let n1 = f1.encrypted_note.len() as u64;
        let n2 = f2.encrypted_note.len() as u64;
        lemma_le_injective(n1, n2, 0, 0);
        assert(all1.subrange(0, 32) =~= f1.note_commitment@);
        assert(all2.subrange(0, 32) =~= f2.note_commitment@);
        assert(all1.subrange(32, 64) =~= f1.ephemeral_key@);
        assert(all2.subrange(32, 64) =~= f2.ephemeral_key@);
        assert(all1.subrange(64, 72) =~= u64_le(n1));
        assert(all2.subrange(64, 72) =~= u64_le(n2));
        lemma_array_view_injective(f1.note_commitment, f2.note_commitment);
        lemma_array_view_injective(f1.ephemeral_key, f2.ephemeral_key);
        let len = f1.encrypted_note.len() as int;
        assert(f2.encrypted_note.len() == len);
        assert(all1.subrange(72, 72 + len) =~= f1.encrypted_note@);
        assert(all2.subrange(72, 72 + len) =~= f2.encrypted_note@);
        assert(all1.subrange(72 + len, all1.len() as int) =~= t1);
        assert(all2.subrange(72 + len, all2.len() as int) =~= t2);
        lemma_fragments_injective(s1.drop_first(), r1, s2.drop_first(), r2);
        assert forall|i: int| 0 <= i < s1.len() implies fragment_view(#[trigger] s1[i]) == fragment_view(s2[i]) by {
            if i > 0 {
                assert(s1[i] == s1.drop_first()[i - 1]);
                assert(s2[i] == s2.drop_first()[i - 1]);
            }
        }
    }
}

/// Compact blocks with equal encodings hold the same height, fragments and
/// nullifiers: decoding the encoding of a compact block gives it back.
pub proof fn lemma_compact_block_round_trip(x: CompactBlock, y: CompactBlock)
    requires
        compact_block_bytes(y) == compact_block_bytes(x),
    ensures
        y.height == x.height,
        y.fragments.len() == x.fragments.len(),
        forall|i: int| 0 <= i < x.fragments.len() ==> fragment_view(#[trigger] y.fragments@[i]) == fragment_view(x.fragments@[i]),
        y.nullifiers@ == x.nullifiers@,
{
    let bx = compact_block_bytes(x);
    let by = compact_block_bytes(y);
    let fx = x.fragments.len() as u64;
    let fy = y.fragments.len() as u64;
    let nx = x.nullifiers.len() as u64;
    let ny = y.nullifiers.len() as u64;
    lemma_le_injective(x.height, y.height, 0, 0);
    lemma_le_injective(fx, fy, 0, 0);
    lemma_le_injective(nx, ny, 0, 0);
    assert(bx.subrange(0, 8) =~= u64_le(x.height));
    assert(by.subrange(0, 8) =~= u64_le(y.height));
    assert(bx.subrange(8, 16) =~= u64_le(fx));
    assert(by.subrange(8, 16) =~= u64_le(fy));
    let rx = u64_le(nx) + flat(x.nullifiers@);
    let ry = u64_le(ny) + flat(y.nullifiers@);
    assert(bx.subrange(16, bx.len() as int) =~= fragments_bytes(x.fragments@) + rx);
    assert(by.subrange(16, by.len() as int) =~= fragments_bytes(y.fragments@) + ry);
    lemma_fragments_injective(y.fragments@, ry, x.fragments@, rx);
    assert(rx.subrange(0, 8) =~= u64_le(nx));
    assert(ry.subrange(0, 8) =~= u64_le(ny));
    let n = x.nullifiers.len() as int;
    assert(rx.subrange(8, rx.len() as int) =~= flat(x.nullifiers@));
    assert(ry.subrange(8, ry.len() as int) =~= flat(y.nullifiers@));
    assert forall|j: int| 0 <= j < n implies #[trigger] y.nullifiers@[j] == x.nullifiers@[j] by {
        assert forall|m: int| 0 <= m < 32 implies y.nullifiers@[j]@[m] == x.nullifiers@[j]@[m] by {
            let i = 32 * j + m;
            assert(i / 32 == j && i % 32 == m && 0 <= i < 32 * n) by (nonlinear_arith)
                requires
                    0 <= j < n,
                    0 <= m < 32,
                    i == 32 * j + m,
            ;
            assert(flat(x.nullifiers@)[i] == flat(y.nullifiers@)[i]);
        }
        assert(y.nullifiers@[j]@ =~= x.nullifiers@[j]@);
        lemma_array_view_injective(y.nullifiers@[j], x.nullifiers@[j]);
    }
    assert(y.nullifiers@ =~= x.nullifiers@);
}

} // verus!
