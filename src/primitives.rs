//! Field, hash and group primitives.
//!
//! Field elements, scalars and group elements travel through the library as
//! their 32-byte little-endian encodings. Each arithmetic or hashing step is
//! one call into `decaf377`, `poseidon377` or `decaf377-rdsa`; its result is
//! named by an uninterpreted spec function, so contracts built on top of them
//! are exact without restating the algebra.
use vstd::prelude::*;

verus! {

/// A 32-byte encoding of a field element, scalar or compressed group element.
pub type Bytes32 = [u8; 32];

/// The canonical encoding of the additive identity of `Fq`.
pub open spec fn zero_spec() -> Seq<u8> {
    Seq::new(32, |i: int| 0u8)
}

/// The all-zero encoding.
pub fn zero_bytes() -> (r: Bytes32)
    ensures
        r@ == zero_spec(),
{
    let r: Bytes32 = [0u8; 32];
    assert(r@ =~= zero_spec());
    r
}

/// The encoding of a small field element: `v` in the low byte, zeros above it.
pub open spec fn small_spec(v: u8) -> Seq<u8> {
    Seq::new(32, |i: int| if i == 0 { v } else { 0u8 })
}

pub fn small_bytes(v: u8) -> (r: Bytes32)
    ensures
        r@ == small_spec(v),
{
    let mut r: Bytes32 = [0u8; 32];
    r[0] = v;
    assert(r@ =~= small_spec(v));
    r
}

/// Little-endian encoding of a `u64` widened to 32 bytes.
pub open spec fn u64_spec(v: u64) -> Seq<u8> {
    Seq::new(32, |i: int| if i < 8 { ((v as int / pow256(i)) % 256) as u8 } else { 0u8 })
}

pub open spec fn pow256(i: int) -> int
    decreases i,
{
    if i <= 0 {
        1
    } else {
        256 * pow256(i - 1)
    }
}

pub fn u64_bytes(v: u64) -> (r: Bytes32)
    ensures
        r@ == u64_spec(v),
{
    let mut r: Bytes32 = [0u8; 32];
    let mut x: u64 = v;
    let mut i: usize = 0;
    while i < 8
        invariant
            0 <= i <= 8,
            x as int == v as int / pow256(i as int),
            forall|j: int| 0 <= j < i ==> r@[j] == ((v as int / pow256(j)) % 256) as u8,
            forall|j: int| i <= j < 32 ==> r@[j] == 0u8,
        decreases 8 - i,
    {
        proof {
            let p = pow256(i as int);
            assert(p > 0) by { lemma_pow256_pos(i as int); }
            assert(pow256(i as int + 1) == 256 * p);
            vstd::arithmetic::div_mod::lemma_div_denominator(v as int, p, 256);
        }
        r[i] = (x % 256) as u8;
        x = x / 256;
        i = i + 1;
    }
    assert(r@ =~= u64_spec(v));
    r
}

pub proof fn lemma_pow256_pos(i: int)
    ensures
        pow256(i) > 0,
    decreases i,
{
    if i > 0 {
        lemma_pow256_pos(i - 1);
    }
}

/// Byte-wise equality of two encodings.
pub fn bytes_eq(a: &Bytes32, b: &Bytes32) -> (r: bool)
    ensures
        r == (a@ == b@),
{
    let mut i: usize = 0;
    while i < 32
        invariant
            0 <= i <= 32,
            forall|j: int| 0 <= j < i ==> a@[j] == b@[j],
        decreases 32 - i,
    {
        if a[i] != b[i] {
            return false;
        }
        i = i + 1;
    }
    assert(a@ =~= b@);
    true
}

/// What `poseidon377::hash_1` returns on these encodings.
pub uninterp spec fn poseidon1_of(ds: Seq<u8>, a: Seq<u8>) -> Seq<u8>;

/// What `poseidon377::hash_2` returns on these encodings.
pub uninterp spec fn poseidon2_of(ds: Seq<u8>, a: Seq<u8>, b: Seq<u8>) -> Seq<u8>;

/// What `poseidon377::hash_3` returns on these encodings.
pub uninterp spec fn poseidon3_of(ds: Seq<u8>, a: Seq<u8>, b: Seq<u8>, c: Seq<u8>) -> Seq<u8>;

/// What `poseidon377::hash_4` returns on these encodings.
pub uninterp spec fn poseidon4_of(
    ds: Seq<u8>,
    a: Seq<u8>,
    b: Seq<u8>,
    c: Seq<u8>,
    d: Seq<u8>,
) -> Seq<u8>;

/// What `poseidon377::hash_6` returns on these encodings.
pub uninterp spec fn poseidon6_of(
    ds: Seq<u8>,
    a: Seq<u8>,
    b: Seq<u8>,
    c: Seq<u8>,
    d: Seq<u8>,
    e: Seq<u8>,
    f: Seq<u8>,
) -> Seq<u8>;

/// What `decaf377::Element::encode_to_curve` gives, compressed.
pub uninterp spec fn curve_point_of(a: Seq<u8>) -> Seq<u8>;

/// What `Element * Fr` gives, compressed; `None` when `p` does not decompress.
pub uninterp spec fn scalar_mul_of(p: Seq<u8>, s: Seq<u8>) -> Option<Seq<u8>>;

/// What `Element + Element` gives, compressed; `None` when an operand does not decompress.
pub uninterp spec fn point_add_of(p: Seq<u8>, q: Seq<u8>) -> Option<Seq<u8>>;

/// What `-Element` gives, compressed; `None` when `p` does not decompress.
pub uninterp spec fn point_neg_of(p: Seq<u8>) -> Option<Seq<u8>>;

/// What `Element::is_identity` says; `None` when `p` does not decompress.
pub uninterp spec fn is_identity_of(p: Seq<u8>) -> Option<bool>;

/// Whether `Fq::from_bytes_checked` accepts these bytes.
pub uninterp spec fn fq_canonical_of(a: Seq<u8>) -> bool;

/// Whether `Fr::from_bytes_checked` accepts these bytes.
pub uninterp spec fn fr_canonical_of(a: Seq<u8>) -> bool;

/// What `VerificationKey<SpendAuth>::randomize` gives; `None` when `ak` is no key.
pub uninterp spec fn randomize_of(ak: Seq<u8>, r: Seq<u8>) -> Option<Seq<u8>>;

/// An `Option` of encodings, seen as an `Option` of byte sequences.
pub open spec fn opt_view(o: Option<Bytes32>) -> Option<Seq<u8>> {
    match o {
        Some(x) => Some(x@),
        None => None,
    }
}

/// Relies on `poseidon377::hash_1`: a deterministic function of the two field
/// elements, read with `Fq::from_le_bytes_mod_order` and written with `to_bytes`.
#[verifier::external_body]
pub(crate) fn poseidon1(ds: &Bytes32, a: &Bytes32) -> (r: Bytes32)
    ensures
        r@ == poseidon1_of(ds@, a@),
{
    let f = |x: &Bytes32| decaf377::Fq::from_le_bytes_mod_order(x);
    poseidon377::hash_1(&f(ds), f(a)).to_bytes()
}

/// Relies on `poseidon377::hash_2`, with field elements read and written as in `poseidon1`.
#[verifier::external_body]
pub(crate) fn poseidon2(ds: &Bytes32, a: &Bytes32, b: &Bytes32) -> (r: Bytes32)
    ensures
        r@ == poseidon2_of(ds@, a@, b@),
{
    let f = |x: &Bytes32| decaf377::Fq::from_le_bytes_mod_order(x);
    poseidon377::hash_2(&f(ds), (f(a), f(b))).to_bytes()
}

/// Relies on `poseidon377::hash_3`, with field elements read and written as in `poseidon1`.
#[verifier::external_body]
pub(crate) fn poseidon3(ds: &Bytes32, a: &Bytes32, b: &Bytes32, c: &Bytes32) -> (r: Bytes32)
    ensures
        r@ == poseidon3_of(ds@, a@, b@, c@),
{
    let f = |x: &Bytes32| decaf377::Fq::from_le_bytes_mod_order(x);
    poseidon377::hash_3(&f(ds), (f(a), f(b), f(c))).to_bytes()
}

/// Relies on `poseidon377::hash_4`, with field elements read and written as in `poseidon1`.
#[verifier::external_body]
pub(crate) fn poseidon4(
    ds: &Bytes32,
    a: &Bytes32,
    b: &Bytes32,
    c: &Bytes32,
    d: &Bytes32,
) -> (r: Bytes32)
    ensures
        r@ == poseidon4_of(ds@, a@, b@, c@, d@),
{
    let f = |x: &Bytes32| decaf377::Fq::from_le_bytes_mod_order(x);
    poseidon377::hash_4(&f(ds), (f(a), f(b), f(c), f(d))).to_bytes()
}

/// Relies on `poseidon377::hash_6`, with field elements read and written as in `poseidon1`.
#[verifier::external_body]
pub(crate) fn poseidon6(
    ds: &Bytes32,
    a: &Bytes32,
    b: &Bytes32,
    c: &Bytes32,
    d: &Bytes32,
    e: &Bytes32,
    g: &Bytes32,
) -> (r: Bytes32)
    ensures
        r@ == poseidon6_of(ds@, a@, b@, c@, d@, e@, g@),
{
    let f = |x: &Bytes32| decaf377::Fq::from_le_bytes_mod_order(x);
    poseidon377::hash_6(&f(ds), (f(a), f(b), f(c), f(d), f(e), f(g))).to_bytes()
}

/// Relies on `decaf377::Element::encode_to_curve`, a deterministic map from
/// field elements to the group, and on `vartime_compress` for the encoding.
#[verifier::external_body]
pub(crate) fn curve_point(a: &Bytes32) -> (r: Bytes32)
    ensures
        r@ == curve_point_of(a@),
{
    let x = decaf377::Fq::from_le_bytes_mod_order(a);
    decaf377::Element::encode_to_curve(&x).vartime_compress().0
}

/// Relies on `Encoding::vartime_decompress` and `Element * Fr` (the scalar read
/// with `Fr::from_le_bytes_mod_order`).
#[verifier::external_body]
pub(crate) fn scalar_mul(p: &Bytes32, s: &Bytes32) -> (r: Option<Bytes32>)
    ensures
        opt_view(r) == scalar_mul_of(p@, s@),
{
    let e = decaf377::Encoding(*p).vartime_decompress().ok()?;
    let k = decaf377::Fr::from_le_bytes_mod_order(s);
    Some((e * k).vartime_compress().0)
}

/// Relies on `Encoding::vartime_decompress` and `Element + Element`.
#[verifier::external_body]
pub(crate) fn point_add(p: &Bytes32, q: &Bytes32) -> (r: Option<Bytes32>)
    ensures
        opt_view(r) == point_add_of(p@, q@),
{
    let a = decaf377::Encoding(*p).vartime_decompress().ok()?;
    let b = decaf377::Encoding(*q).vartime_decompress().ok()?;
    Some((a + b).vartime_compress().0)
}

/// Relies on `Encoding::vartime_decompress` and `-Element`.
#[verifier::external_body]
pub(crate) fn point_neg(p: &Bytes32) -> (r: Option<Bytes32>)
    ensures
        opt_view(r) == point_neg_of(p@),
{
    let a = decaf377::Encoding(*p).vartime_decompress().ok()?;
    Some((-a).vartime_compress().0)
}

/// Relies on `Encoding::vartime_decompress` and `Element::is_identity`.
#[verifier::external_body]
pub(crate) fn is_identity(p: &Bytes32) -> (r: Option<bool>)
    ensures
        r == is_identity_of(p@),
{
    let a = decaf377::Encoding(*p).vartime_decompress().ok()?;
    Some(a.is_identity())
}

/// Relies on `Fq::from_bytes_checked`, which accepts exactly the reduced encodings.
#[verifier::external_body]
pub(crate) fn fq_canonical(a: &Bytes32) -> (r: bool)
    ensures
        r == fq_canonical_of(a@),
{
    decaf377::Fq::from_bytes_checked(a).is_ok()
}

/// Relies on `Fr::from_bytes_checked`, which accepts exactly the reduced encodings.
#[verifier::external_body]
pub(crate) fn fr_canonical(a: &Bytes32) -> (r: bool)
    ensures
        r == fr_canonical_of(a@),
{
    decaf377::Fr::from_bytes_checked(a).is_ok()
}

/// Relies on `VerificationKey<SpendAuth>::try_from([u8; 32])` and
/// `VerificationKey::randomize` (the randomizer read with `Fr::from_le_bytes_mod_order`).
#[verifier::external_body]
pub(crate) fn randomize(ak: &Bytes32, r: &Bytes32) -> (out: Option<Bytes32>)
    ensures
        opt_view(out) == randomize_of(ak@, r@),
{
    let key = decaf377_rdsa::VerificationKey::<decaf377_rdsa::SpendAuth>::try_from(*ak).ok()?;
    let k = decaf377::Fr::from_le_bytes_mod_order(r);
    Some(key.randomize(&k).into())
}

} // verus!
