use shielded_pool::codec::{
    decode_compact_block, decode_note, decode_output_proof, decode_proof, decode_spend_proof, decode_swap_claim_proof,
    decode_swap_proof, encode_compact_block, encode_note, encode_output_proof, encode_proof, encode_spend_proof,
    encode_swap_claim_proof, encode_swap_proof, DecodeError, NOTE_LEN, PROOF_LEN,
};
use shielded_pool::note::{Address, Fee, Note, TradingPair, Value};
use shielded_pool::pool::{CompactBlock, NotePayload};
use shielded_pool::proofs::{OutputProof, SpendProof, SwapClaimProof, SwapProof};
use shielded_pool::tree::{Tree, Witness};

fn b(x: u8) -> [u8; 32] {
    decaf377::Fq::from(x as u64 * 0x0101_0101 + 7).to_bytes()
}

fn pt(x: u8) -> [u8; 32] {
    decaf377::Element::encode_to_curve(&decaf377::Fq::from(x as u64)).vartime_compress().0
}

fn sample_note() -> Note {
    Note {
        address: Address { g_d: b(1), pk_d: b(2), ck_d: b(3) },
        value: Value { amount: 0x0102_0304_0506_0708, asset_id: b(4) },
        note_blinding: b(5),
    }
}

fn sample_proof() -> shielded_pool::tree::Proof {
    let mut tree = Tree::new();
    tree.insert(Witness::Forget, b(8)).unwrap();
    tree.end_block().unwrap();
    tree.insert(Witness::Keep, b(9)).unwrap();
    tree.witness(&b(9)).unwrap()
}

#[test]
fn note_round_trip() {
    let n = sample_note();
    let bytes = encode_note(&n);
    assert_eq!(bytes.len(), NOTE_LEN);
    let d = decode_note(&bytes).unwrap();
    assert_eq!(encode_note(&d), bytes);
    assert_eq!(d.value.amount, n.value.amount);
    assert_eq!(d.note_blinding, n.note_blinding);
    assert_eq!(decode_note(&bytes[..NOTE_LEN - 1].to_vec()).err(), Some(DecodeError::MalformedEncoding));
}

#[test]
fn proof_round_trip() {
    let p = sample_proof();
    let bytes = encode_proof(&p);
    assert_eq!(bytes.len(), PROOF_LEN);
    let d = decode_proof(&bytes).unwrap();
    assert_eq!(d.position, p.position);
    assert_eq!(d.commitment, p.commitment);
    assert_eq!(d.path, p.path);
    let mut longer = bytes.clone();
    longer.push(0);
    assert!(decode_proof(&longer).is_err());
}

#[test]
fn action_proofs_round_trip() {
    let spend = SpendProof {
        note_commitment_proof: sample_proof(),
        g_d: pt(10),
        pk_d: b(11),
        ck_d: b(12),
        value: Value { amount: 77, asset_id: b(13) },
        v_blinding: b(14),
        note_blinding: b(15),
        spend_auth_randomizer: b(16),
        ak: pt(17),
        nk: b(18),
    };
    let bytes = encode_spend_proof(&spend);
    let d = decode_spend_proof(&bytes).unwrap();
    assert_eq!(encode_spend_proof(&d), bytes);
    assert_eq!(d.nk, spend.nk);
    assert_eq!(d.note_commitment_proof.path, spend.note_commitment_proof.path);
    let mut bad_point = bytes.clone();
    bad_point[2342 + 31] = 0xff;
    assert_eq!(decode_spend_proof(&bad_point).err(), Some(DecodeError::MalformedEncoding));
    let mut bad_field = bytes.clone();
    for i in 0..32 {
        bad_field[2606 + i] = 0xff;
    }
    assert_eq!(decode_spend_proof(&bad_field).err(), Some(DecodeError::MalformedEncoding));

    let output = OutputProof { g_d: pt(20), pk_d: b(21), ck_d: b(22), value: Value { amount: 3, asset_id: b(23) }, v_blinding: b(24), note_blinding: b(25), esk: b(26) };
    let bytes = encode_output_proof(&output);
    let d = decode_output_proof(&bytes).unwrap();
    assert_eq!(encode_output_proof(&d), bytes);
    assert_eq!(d.esk, output.esk);
    let mut bad_scalar = bytes.clone();
    for i in 0..32 {
        bad_scalar[200 + i] = 0xff;
    }
    assert!(decode_output_proof(&bad_scalar).is_err());

    let swap = SwapProof {
        claim_address: Address { g_d: pt(30), pk_d: b(31), ck_d: b(32) },
        value_t1: Value { amount: 10, asset_id: b(33) },
        value_t2: Value { amount: 0, asset_id: b(34) },
        fee_delta: Fee { amount: 5, asset_id: b(35) },
        swap_nft_asset_id: b(36),
        note_blinding: b(37),
        esk: b(38),
    };
    let bytes = encode_swap_proof(&swap);
    let d = decode_swap_proof(&bytes).unwrap();
    assert_eq!(encode_swap_proof(&d), bytes);
    assert_eq!(d.fee_delta.amount, 5);

    let claim = SwapClaimProof {
        swap_nft_asset_id: b(40),
        claim_address: Address { g_d: pt(41), pk_d: b(42), ck_d: b(43) },
        note_commitment_proof: sample_proof(),
        note_blinding: b(44),
        nk: b(45),
        trading_pair: TradingPair { asset_1: b(46), asset_2: b(47) },
        delta_1: 10,
        delta_2: 0,
        lambda_1: 10,
        lambda_2: 0,
        note_blinding_1: b(48),
        esk_1: b(49),
        note_blinding_2: b(50),
        esk_2: b(51),
    };
    let bytes = encode_swap_claim_proof(&claim);
    let d = decode_swap_claim_proof(&bytes).unwrap();
    assert_eq!(encode_swap_claim_proof(&d), bytes);
    assert_eq!(d.delta_1, 10);
    assert!(decode_swap_claim_proof(&bytes[1..].to_vec()).is_err());
}

#[test]
fn compact_block_round_trip() {
    let block = CompactBlock {
        height: 42,
        fragments: vec![
            NotePayload { note_commitment: b(60), ephemeral_key: b(61), encrypted_note: vec![1, 2, 3, 4, 5] },
            NotePayload { note_commitment: b(62), ephemeral_key: b(63), encrypted_note: vec![] },
        ],
        nullifiers: vec![b(64), b(65), b(66)],
    };
    let bytes = encode_compact_block(&block);
    assert_eq!(bytes.len(), 8 + 8 + (72 + 5) + 72 + 8 + 3 * 32);
    let d = decode_compact_block(&bytes).unwrap();
    assert_eq!(d.height, 42);
    assert_eq!(d.fragments.len(), 2);
    assert_eq!(d.fragments[0].encrypted_note, vec![1, 2, 3, 4, 5]);
    assert_eq!(d.fragments[1].note_commitment, b(62));
    assert_eq!(d.nullifiers, block.nullifiers);
    assert_eq!(encode_compact_block(&d), bytes);
    let mut extra = bytes.clone();
    extra.push(9);
    assert!(decode_compact_block(&extra).is_err());
    assert!(decode_compact_block(&bytes[..bytes.len() - 1].to_vec()).is_err());
}
