use decaf377::{Element, Encoding, Fq, Fr};
use decaf377_rdsa::{SigningKey, SpendAuth, VerificationKey};
use shielded_pool::note::{derive_ivk, derive_nullifier, note_commitment, swap_asset_id, Address, Fee, Note, TradingPair, Value};
use shielded_pool::plan::SwapClaimPlan;
use shielded_pool::pool::{NotePayload, PoolError, ShieldedPool};
use shielded_pool::proofs::{BatchSwapOutputData, OutputProof, ProofError, SpendProof, SwapClaimProof, SwapProof};
use shielded_pool::swap::{DecryptError, SwapCiphertext, SwapPlaintext, SWAP_CIPHERTEXT_BYTES};
use shielded_pool::tree::Witness;

fn fq(x: u64) -> [u8; 32] {
    Fq::from(x).to_bytes()
}

fn fr(x: u64) -> [u8; 32] {
    Fr::from(x).to_bytes()
}

fn point(seed: u64) -> [u8; 32] {
    Element::encode_to_curve(&Fq::from(seed)).vartime_compress().0
}

fn mul(p: &[u8; 32], s: &[u8; 32]) -> [u8; 32] {
    (Encoding(*p).vartime_decompress().unwrap() * Fr::from_le_bytes_mod_order(s)).vartime_compress().0
}

struct Keys {
    ak: [u8; 32],
    nk: [u8; 32],
    address: Address,
}

fn keys() -> Keys {
    let sk = SigningKey::<SpendAuth>::new_from_field(Fr::from(7u64));
    let ak: [u8; 32] = VerificationKey::from(&sk).into();
    let nk = fq(11);
    let g_d = point(5);
    let ivk = derive_ivk(&ak, &nk);
    let pk_d = mul(&g_d, &ivk);
    Keys { ak, nk, address: Address { g_d, pk_d, ck_d: [3u8; 32] } }
}

fn staking() -> [u8; 32] {
    fq(1234)
}

fn payload(c: [u8; 32]) -> NotePayload {
    NotePayload { note_commitment: c, ephemeral_key: [0u8; 32], encrypted_note: vec![1, 2, 3] }
}

struct SpendSetup {
    pool: ShieldedPool,
    proof: SpendProof,
    anchor: [u8; 32],
    vc: [u8; 32],
    nf: [u8; 32],
    rk: [u8; 32],
}

fn spend_setup(window: usize) -> SpendSetup {
    let k = keys();
    let value = Value { amount: 10, asset_id: staking() };
    let note = Note { address: k.address, value, note_blinding: fq(99) };
    let c = note.commit();
    let mut pool = ShieldedPool::new(100, window, Witness::Keep);
    pool.apply_transaction(&[0u8; 32], &vec![], vec![payload(c)]).unwrap();
    let block = pool.end_block().unwrap();
    assert_eq!(block.height, 0);
    assert_eq!(block.fragments.len(), 1);
    let anchor = pool.tree().root();
    let witness = pool.tree().witness(&c).unwrap();
    let v_blinding = fr(17);
    let vc = value.commit(&v_blinding).unwrap();
    let nf = derive_nullifier(&k.nk, &witness.position, &c);
    let r = fr(23);
    let rk: [u8; 32] = VerificationKey::<SpendAuth>::try_from(k.ak).unwrap().randomize(&Fr::from_le_bytes_mod_order(&r)).into();
    let proof = SpendProof {
        note_commitment_proof: witness,
        g_d: k.address.g_d,
        pk_d: k.address.pk_d,
        ck_d: k.address.ck_d,
        value,
        v_blinding,
        note_blinding: note.note_blinding,
        spend_auth_randomizer: r,
        ak: k.ak,
        nk: k.nk,
    };
    SpendSetup { pool, proof, anchor, vc, nf, rk }
}

#[test]
fn single_send_single_spend() {
    let s = spend_setup(10);
    assert_eq!(s.proof.verify(&s.anchor, &s.vc, &s.nf, &s.rk), Ok(()));
}

#[test]
fn spend_rejects_flipped_public_inputs() {
    let s = spend_setup(10);
    for i in [0usize, 13, 31] {
        let mut a = s.anchor;
        a[i] ^= 1 << (i % 8);
        assert_eq!(s.proof.verify(&a, &s.vc, &s.nf, &s.rk), Err(ProofError::MerkleRootMismatch));
        let mut v = s.vc;
        v[i] ^= 1;
        assert_eq!(s.proof.verify(&s.anchor, &v, &s.nf, &s.rk), Err(ProofError::ValueCommitmentMismatch));
        let mut n = s.nf;
        n[i] ^= 4;
        assert_eq!(s.proof.verify(&s.anchor, &s.vc, &n, &s.rk), Err(ProofError::BadNullifier));
        let mut r = s.rk;
        r[i] ^= 2;
        assert_eq!(s.proof.verify(&s.anchor, &s.vc, &s.nf, &r), Err(ProofError::BadSpendAuth));
    }
}

#[test]
fn spend_rejects_wrong_note_and_address() {
    let s = spend_setup(10);
    let mut p = s.proof.clone();
    p.note_blinding = fq(100);
    assert_eq!(p.verify(&s.anchor, &s.vc, &s.nf, &s.rk), Err(ProofError::NoteCommitmentMismatch));
    let mut p = s.proof.clone();
    p.g_d = [0u8; 32];
    assert_eq!(p.verify(&s.anchor, &s.vc, &s.nf, &s.rk), Err(ProofError::NoteCommitmentMismatch));
}

#[test]
fn double_spend_in_one_block_is_rejected() {
    let s = spend_setup(10);
    let mut pool = s.pool;
    assert_eq!(pool.apply_transaction(&s.anchor, &vec![s.nf], vec![]), Ok(()));
    assert_eq!(pool.apply_transaction(&s.anchor, &vec![s.nf], vec![]), Err(PoolError::NullifierAlreadySpent));
    assert!(pool.is_spent(&s.nf));
    assert_eq!(pool.apply_transaction(&s.anchor, &vec![fq(1), fq(1)], vec![]), Err(PoolError::NullifierAlreadySpent));
}

#[test]
fn anchor_outside_window_is_rejected() {
    let s = spend_setup(2);
    let mut pool = s.pool;
    assert!(pool.is_valid_anchor(&s.anchor));
    pool.end_block().unwrap();
    assert!(pool.is_valid_anchor(&s.anchor));
    pool.end_block().unwrap();
    assert!(!pool.is_valid_anchor(&s.anchor));
    assert_eq!(pool.apply_transaction(&s.anchor, &vec![s.nf], vec![]), Err(PoolError::AnchorUnknown));
}

#[test]
fn quarantine_releases_into_spent_set_or_reverts() {
    let mut pool = ShieldedPool::new(10, 5, Witness::Forget);
    assert_eq!(pool.quarantine_nullifier(&fq(1), 3), Ok(()));
    assert_eq!(pool.quarantine_nullifier(&fq(2), 4), Ok(()));
    assert_eq!(pool.quarantine_nullifier(&fq(1), 4), Err(PoolError::NullifierAlreadySpent));
    pool.apply_scheduled(3, false);
    assert!(pool.is_spent(&fq(1)));
    pool.apply_scheduled(4, true);
    assert!(!pool.is_spent(&fq(2)));
    assert_eq!(pool.quarantine_nullifier(&fq(2), 5), Ok(()));
}

#[test]
fn output_proof_checks() {
    let k = keys();
    let value = Value { amount: 10, asset_id: staking() };
    let nb = fq(44);
    let vb = fr(45);
    let esk = fr(46);
    let nc = note_commitment(&nb, &value, &k.address);
    let vc = value.commit_negated(&vb).unwrap();
    let epk = mul(&k.address.g_d, &esk);
    let proof = OutputProof { g_d: k.address.g_d, pk_d: k.address.pk_d, ck_d: k.address.ck_d, value, v_blinding: vb, note_blinding: nb, esk };
    assert_eq!(proof.verify(&vc, &nc, &epk), Ok(()));
    let mut bad = nc;
    bad[0] ^= 1;
    assert_eq!(proof.verify(&vc, &bad, &epk), Err(ProofError::NoteCommitmentMismatch));
    let positive = value.commit(&vb).unwrap();
    assert_eq!(proof.verify(&positive, &nc, &epk), Err(ProofError::ValueCommitmentMismatch));
    assert_eq!(proof.verify(&vc, &nc, &point(77)), Err(ProofError::EphemeralKeyMismatch));
}

#[test]
fn balanced_commitments_sum_to_identity() {
    let value = Value { amount: 10, asset_id: staking() };
    let input = value.commit(&fr(5)).unwrap();
    let output = value.commit_negated(&fr(5)).unwrap();
    let dec = |b: &[u8; 32]| Encoding(*b).vartime_decompress().unwrap();
    assert!((dec(&input) + dec(&output)).is_identity());
    let perturbed = Value { amount: 11, asset_id: staking() }.commit(&fr(5)).unwrap();
    assert!(!(dec(&perturbed) + dec(&output)).is_identity());
    let reblinded = value.commit(&fr(6)).unwrap();
    assert!(!(dec(&reblinded) + dec(&output)).is_identity());
}

#[test]
fn swap_then_claim() {
    let k = keys();
    let pair = TradingPair { asset_1: fq(500), asset_2: fq(600) };
    let fee = Fee { amount: 0, asset_id: staking() };
    let nft_id = swap_asset_id(&pair, 10, 0, &fee, &k.address);
    let nb = fq(31);
    let esk = fr(32);
    let nft = Value { amount: 1, asset_id: nft_id };
    let nc = note_commitment(&nb, &nft, &k.address);
    let fee_vc = Value { amount: 0, asset_id: staking() }.commit_negated(&[0u8; 32]).unwrap();
    let epk = mul(&k.address.g_d, &esk);
    let swap = SwapProof {
        claim_address: k.address,
        value_t1: Value { amount: 10, asset_id: pair.asset_1 },
        value_t2: Value { amount: 0, asset_id: pair.asset_2 },
        fee_delta: fee,
        swap_nft_asset_id: nft_id,
        note_blinding: nb,
        esk,
    };
    assert_eq!(swap.verify(&[0u8; 32], &[0u8; 32], &fee_vc, &nc, &epk), Ok(()));

    let mut pool = ShieldedPool::new(100, 10, Witness::Keep);
    pool.end_block().unwrap();
    pool.apply_transaction(&[0u8; 32], &vec![], vec![payload(nc)]).unwrap();
    let h_swap = pool.height();
    pool.end_block().unwrap();
    let anchor = pool.tree().root();
    let witness = pool.tree().witness(&nc).unwrap();
    let nf = derive_nullifier(&k.nk, &witness.position, &nc);
    let claim = SwapClaimProof {
        swap_nft_asset_id: nft_id,
        claim_address: k.address,
        note_commitment_proof: witness,
        note_blinding: nb,
        nk: k.nk,
        trading_pair: pair,
        delta_1: 10,
        delta_2: 0,
        lambda_1: 10,
        lambda_2: 0,
        note_blinding_1: fq(61),
        esk_1: fr(62),
        note_blinding_2: fq(63),
        esk_2: fr(64),
    };
    let output_data = BatchSwapOutputData { height: h_swap, trading_pair: pair, delta_1: 10, delta_2: 0, lambda_1: 10, lambda_2: 0 };
    let out_1 = note_commitment(&claim.note_blinding_1, &Value { amount: 10, asset_id: pair.asset_1 }, &k.address);
    let out_2 = note_commitment(&claim.note_blinding_2, &Value { amount: 0, asset_id: pair.asset_2 }, &k.address);
    let epk_1 = mul(&k.address.g_d, &claim.esk_1);
    let epk_2 = mul(&k.address.g_d, &claim.esk_2);
    assert_eq!(claim.verify(&anchor, &nf, &output_data, 100, &fee, &out_1, &epk_1, &out_2, &epk_2), Ok(()));
    let wrong_height = BatchSwapOutputData { height: h_swap + 1, ..output_data };
    assert_eq!(
        claim.verify(&anchor, &nf, &wrong_height, 100, &fee, &out_1, &epk_1, &out_2, &epk_2),
        Err(ProofError::ClearingPriceHeightMismatch)
    );
    let other_fee = Fee { amount: 1, asset_id: staking() };
    assert_eq!(
        claim.verify(&anchor, &nf, &output_data, 100, &other_fee, &out_1, &epk_1, &out_2, &epk_2),
        Err(ProofError::SwapAssetIdMismatch)
    );
    let wrong_output = note_commitment(&claim.note_blinding_1, &Value { amount: 11, asset_id: pair.asset_1 }, &k.address);
    assert_eq!(
        claim.verify(&anchor, &nf, &output_data, 100, &fee, &wrong_output, &epk_1, &out_2, &epk_2),
        Err(ProofError::NoteCommitmentMismatch)
    );
    assert_eq!(
        claim.verify(&anchor, &nf, &output_data, 100, &fee, &out_1, &epk_2, &out_2, &epk_2),
        Err(ProofError::EphemeralKeyMismatch)
    );

    let nft_note = Note { address: k.address, value: nft, note_blinding: nb };
    let plan = SwapClaimPlan::new(
        nft_note,
        claim.note_commitment_proof.position,
        k.address,
        fee,
        output_data,
        100,
        fq(61),
        fq(63),
        fr(62),
        fr(64),
    );
    assert!(plan.is_viewed_by(&derive_ivk(&k.ak, &k.nk)));
    assert!(!plan.is_viewed_by(&fq(5)));
    let planned = plan.swap_claim(claim.note_commitment_proof.clone(), k.nk, nb).unwrap();
    assert_eq!(planned.verify(&anchor), Ok(()));
    assert_eq!(planned.body.nullifier, nf);
    assert_eq!(planned.body.output_1.note_commitment, out_1);
    assert_eq!(planned.body.output_2.note_commitment, out_2);
    assert_eq!(planned.body.output_1.encrypted_note.len(), 168 + 16);
    assert_eq!(planned.value_commitment(), Value { amount: 0, asset_id: staking() }.commit(&[0u8; 32]));
    pool.apply_transaction(&anchor, &vec![nf], vec![payload(out_1), payload(out_2)]).unwrap();
    let block = pool.end_block().unwrap();
    assert_eq!(block.nullifiers, vec![nf]);
    assert_eq!(block.fragments.len(), 2);
    assert_eq!(block.fragments[0].note_commitment, out_1);
    assert_eq!(pool.apply_transaction(&anchor, &vec![nf], vec![]), Err(PoolError::NullifierAlreadySpent));
}

#[test]
fn swap_ciphertext_round_trip() {
    let k = keys();
    let plaintext = SwapPlaintext {
        trading_pair: TradingPair { asset_1: fq(500), asset_2: fq(600) },
        delta_1: 10,
        delta_2: 0,
        fee: Fee { amount: 3, asset_id: staking() },
        claim_address: k.address,
    };
    let esk = fr(71);
    let ct = plaintext.encrypt(&esk, &k.address.pk_d, &k.address.g_d).unwrap();
    assert_eq!(ct.0.len(), SWAP_CIPHERTEXT_BYTES);
    let opened = ct.decrypt(&esk, &k.address.pk_d, &k.address.g_d).unwrap();
    assert_eq!(opened.to_bytes(), plaintext.to_bytes());
    assert_eq!(opened.delta_1, 10);
    let mut tampered = ct.clone();
    tampered.0[5] ^= 1;
    assert_eq!(tampered.decrypt(&esk, &k.address.pk_d, &k.address.g_d).err(), Some(DecryptError::DecryptError));
    assert_eq!(ct.decrypt(&fr(72), &k.address.pk_d, &k.address.g_d).err(), Some(DecryptError::DecryptError));
    assert!(SwapCiphertext::from_slice(&ct.0).is_ok());
    assert!(SwapCiphertext::from_slice(&ct.0[1..].to_vec()).is_err());
}

#[test]
fn swap_balance_contribution() {
    check_swap_balance();
}

fn check_swap_balance() {
    let k = keys();
    let pair = TradingPair { asset_1: fq(500), asset_2: fq(600) };
    let fee = Fee { amount: 2, asset_id: staking() };
    let fee_commitment = Value { amount: 2, asset_id: staking() }.commit(&[0u8; 32]).unwrap();
    let plaintext = SwapPlaintext { trading_pair: pair, delta_1: 10, delta_2: 4, fee, claim_address: k.address };
    let ct = plaintext.encrypt(&fr(9), &k.address.pk_d, &k.address.g_d).unwrap();
    let swap = shielded_pool::action::swap::Swap {
        proof: SwapProof {
            claim_address: k.address,
            value_t1: Value { amount: 10, asset_id: pair.asset_1 },
            value_t2: Value { amount: 4, asset_id: pair.asset_2 },
            fee_delta: fee,
            swap_nft_asset_id: fq(1),
            note_blinding: fq(2),
            esk: fr(9),
        },
        body: shielded_pool::action::swap::Body {
            trading_pair: pair,
            delta_1: 10,
            delta_2: 4,
            fee_commitment,
            swap_nft: payload(fq(3)),
            swap_ciphertext: ct,
        },
    };
    let contribution = swap.value_commitment().unwrap();
    let dec = |b: &[u8; 32]| Encoding(*b).vartime_decompress().unwrap();
    let in_1 = Value { amount: 10, asset_id: pair.asset_1 }.commit(&[0u8; 32]).unwrap();
    let in_2 = Value { amount: 4, asset_id: pair.asset_2 }.commit(&[0u8; 32]).unwrap();
    assert!((dec(&contribution) + dec(&in_1) + dec(&in_2) + dec(&fee_commitment)).is_identity());
    assert!(!(dec(&contribution) + dec(&in_1) + dec(&in_2)).is_identity());
}

#[test]
fn swap_claim_plan_needs_decodable_address() {
    let k = keys();
    let mut bad = k.address;
    bad.g_d = [0xff; 32];
    let pair = TradingPair { asset_1: fq(500), asset_2: fq(600) };
    let fee = Fee { amount: 0, asset_id: staking() };
    let output_data = BatchSwapOutputData { height: 0, trading_pair: pair, delta_1: 1, delta_2: 0, lambda_1: 1, lambda_2: 0 };
    let note = Note { address: bad, value: Value { amount: 1, asset_id: fq(7) }, note_blinding: fq(8) };
    let plan = SwapClaimPlan::new(note, shielded_pool::position::Position::new(0, 0, 0), bad, fee, output_data, 10, fq(1), fq(2), fr(3), fr(4));
    assert!(plan.swap_claim_body(&k.nk).is_none());
    let good = SwapClaimPlan::new(Note { address: k.address, ..note }, shielded_pool::position::Position::new(0, 0, 0), k.address, fee, output_data, 10, fq(1), fq(2), fr(3), fr(4));
    let body = good.swap_claim_body(&k.nk).unwrap();
    assert_eq!(body.epoch_duration, 10);
    assert_eq!(body.output_1.ephemeral_key, mul(&k.address.g_d, &fr(3)));
}
