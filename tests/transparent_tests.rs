use decaf377::{Element, Encoding, Fq, Fr};
use decaf377_rdsa::{SigningKey, SpendAuth, VerificationKey};
use shielded_pool::note::{derive_ivk, derive_nullifier, note_commitment, Address, Note, Value};
use shielded_pool::position::Position;
use shielded_pool::proofs::{OutputProof, SpendProof};
use shielded_pool::tree::{Tree, Witness};

fn fq(x: u64) -> [u8; 32] {
    Fq::from(x).to_bytes()
}

fn fr(x: u64) -> [u8; 32] {
    Fr::from(x).to_bytes()
}

fn mul(p: &[u8; 32], s: &[u8; 32]) -> [u8; 32] {
    (Encoding(*p).vartime_decompress().unwrap() * Fr::from_le_bytes_mod_order(s)).vartime_compress().0
}

/// A spend authorization key, a nullifier key and the address they control.
fn sender() -> ([u8; 32], [u8; 32], SigningKey<SpendAuth>, Address) {
    let sk = SigningKey::<SpendAuth>::new_from_field(Fr::from(1234u64));
    let ak: [u8; 32] = VerificationKey::from(&sk).into();
    let nk = fq(4321);
    let g_d = Element::encode_to_curve(&Fq::from(77u64)).vartime_compress().0;
    let pk_d = mul(&g_d, &derive_ivk(&ak, &nk));
    (ak, nk, sk, Address { g_d, pk_d, ck_d: [9u8; 32] })
}

fn value_to_send() -> Value {
    Value { amount: 10, asset_id: fq(0x75_70_65_6e) }
}

fn output_setup() -> (OutputProof, [u8; 32], [u8; 32], [u8; 32]) {
    let (_, _, _, dest) = sender();
    let value = value_to_send();
    let v_blinding = fr(31);
    let note = Note { address: dest, value, note_blinding: fq(32) };
    let esk = fr(33);
    let epk = mul(&dest.g_d, &esk);
    let proof = OutputProof {
        g_d: dest.g_d,
        pk_d: dest.pk_d,
        ck_d: dest.ck_d,
        value,
        v_blinding,
        note_blinding: note.note_blinding,
        esk,
    };
    (proof, value.commit_negated(&v_blinding).unwrap(), note.commit(), epk)
}

struct Spend {
    proof: SpendProof,
    anchor: [u8; 32],
    empty_anchor: [u8; 32],
    vc: [u8; 32],
    nf: [u8; 32],
    rk: [u8; 32],
    nk: [u8; 32],
    commitment: [u8; 32],
}

fn spend_setup() -> Spend {
    let (ak, nk, sk, address) = sender();
    let value = value_to_send();
    let v_blinding = fr(41);
    let note = Note { address, value, note_blinding: fq(42) };
    let commitment = note.commit();
    let randomizer = Fr::from(43u64);
    let rk: [u8; 32] = VerificationKey::from(&sk.randomize(&randomizer)).into();
    let mut nct = Tree::new();
    let empty_anchor = nct.root();
    nct.insert(Witness::Keep, commitment).unwrap();
    let anchor = nct.root();
    let proof = SpendProof {
        note_commitment_proof: nct.witness(&commitment).unwrap(),
        g_d: address.g_d,
        pk_d: address.pk_d,
        ck_d: address.ck_d,
        value,
        v_blinding,
        note_blinding: note.note_blinding,
        spend_auth_randomizer: randomizer.to_bytes(),
        ak,
        nk,
    };
    let nf = derive_nullifier(&nk, &Position::new(0, 0, 0), &commitment);
    Spend { proof, anchor, empty_anchor, vc: value.commit(&v_blinding).unwrap(), nf, rk, nk, commitment }
}

#[test]
fn test_output_proof_verification_success() {
    let (proof, vc, nc, epk) = output_setup();
    assert!(proof.verify(&vc, &nc, &epk).is_ok());
}

#[test]
fn test_output_proof_verification_note_commitment_integrity_failure() {
    let (proof, vc, _, epk) = output_setup();
    let incorrect_note_commitment = note_commitment(&fq(99), &proof.value, &Address { g_d: proof.g_d, pk_d: proof.pk_d, ck_d: proof.ck_d });
    assert!(proof.verify(&vc, &incorrect_note_commitment, &epk).is_err());
}

#[test]
fn test_output_proof_verification_value_commitment_integrity_failure() {
    let (proof, _, nc, epk) = output_setup();
    let incorrect_value_commitment = proof.value.commit(&fr(98)).unwrap();
    assert!(proof.verify(&incorrect_value_commitment, &nc, &epk).is_err());
}

#[test]
fn test_output_proof_verification_ephemeral_public_key_integrity_failure() {
    let (proof, vc, nc, _) = output_setup();
    let incorrect_epk = mul(&proof.g_d, &fr(97));
    assert!(proof.verify(&vc, &nc, &incorrect_epk).is_err());
}

#[test]
fn test_output_proof_verification_identity_check_failure() {
    let (mut proof, vc, nc, epk) = output_setup();
    proof.g_d = Element::default().vartime_compress().0;
    assert!(proof.verify(&vc, &nc, &epk).is_err());
}

#[test]
fn test_spend_proof_verification_success() {
    let s = spend_setup();
    assert!(s.proof.verify(&s.anchor, &s.vc, &s.nf, &s.rk).is_ok());
}

#[test]
fn test_spend_proof_verification_merkle_path_integrity_failure() {
    let s = spend_setup();
    assert!(s.proof.verify(&s.empty_anchor, &s.vc, &s.nf, &s.rk).is_err());
}

#[test]
fn test_spend_proof_verification_value_commitment_integrity_failure() {
    let s = spend_setup();
    let other = value_to_send().commit(&fr(96)).unwrap();
    assert!(s.proof.verify(&s.anchor, &other, &s.nf, &s.rk).is_err());
}

#[test]
fn test_spend_proof_verification_nullifier_integrity_failure() {
    let s = spend_setup();
    let incorrect_nf = derive_nullifier(&s.nk, &Position::new(0, 0, 5), &s.commitment);
    assert!(s.proof.verify(&s.anchor, &s.vc, &incorrect_nf, &s.rk).is_err());
}
