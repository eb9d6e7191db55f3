use shielded_pool::proposal::{ProposalKind, ProposalPayload};
use shielded_pool::state_key;

#[test]
fn height_keys() {
    assert_eq!(state_key::compact_block(7), "shielded_pool/compact_block/7");
    assert_eq!(state_key::anchor_by_height(1234567890), "shielded_pool/anchor/1234567890");
    assert_eq!(state_key::epoch_anchor_by_index(0), "shielded_pool/epoch_anchor/0");
    assert_eq!(state_key::block_anchor_by_height(10), "shielded_pool/block_anchor/10");
    assert_eq!(state_key::commission_amounts(u64::MAX), "staking/commission_amounts/18446744073709551615");
    assert_eq!(state_key::claimed_swap_outputs(42), "dex/claimed_swap_outputs/42");
    assert_eq!(state_key::scheduled_to_apply(3), "shielded_pool/quarantined_to_apply_in_epoch/3");
    assert_eq!(state_key::known_assets(), "shielded_pool/known_assets");
}

#[test]
fn hash_keys() {
    let mut b = [0u8; 32];
    b[0] = 0xab;
    b[31] = 0x01;
    let hex = format!("ab{}01", "00".repeat(30));
    assert_eq!(state_key::anchor_lookup(&b), format!("shielded_pool/valid_anchors/{}", hex));
    assert_eq!(state_key::spent_nullifier_lookup(&b), format!("shielded_pool/spent_nullifiers/{}", hex));
    assert_eq!(state_key::token_supply(&b), format!("shielded_pool/assets/{}/token_supply", hex));
    assert_eq!(state_key::denom_by_asset(&b), format!("shielded_pool/assets/{}/denom", hex));
    assert_eq!(state_key::note_source(&b), format!("shielded_pool/note_source/{}", hex));
    assert_eq!(
        state_key::quarantined_spent_nullifier_lookup(&b),
        format!("shielded_pool/quarantined_spent_nullifiers/{}", hex)
    );
}

#[test]
fn proposal_templates() {
    for kind in [ProposalKind::Signaling, ProposalKind::Emergency, ProposalKind::ParameterChange, ProposalKind::DaoSpend] {
        let p = kind.template_proposal("testnet-1".to_string());
        assert_eq!(p.kind(), kind);
        assert_eq!(p.title, "A short title describing the intent of the proposal.");
        assert_eq!(p.payload.is_signaling(), kind == ProposalKind::Signaling);
        assert_eq!(p.payload.is_emergency(), kind == ProposalKind::Emergency);
        assert_eq!(p.payload.is_parameter_change(), kind == ProposalKind::ParameterChange);
        assert_eq!(p.payload.is_dao_spend(), kind == ProposalKind::DaoSpend);
    }
    match ProposalKind::DaoSpend.template_proposal("chain-1".to_string()).payload {
        ProposalPayload::DaoSpend { schedule_transactions, cancel_transactions } => {
            assert_eq!(schedule_transactions[0].1.chain_id, "chain-1");
            assert_eq!(cancel_transactions, vec![(0, [0u8; 32])]);
        }
        _ => panic!("wrong payload"),
    }
}

#[test]
fn proposal_kind_from_name() {
    assert_eq!(ProposalKind::from_str("signaling"), Ok(ProposalKind::Signaling));
    assert_eq!(ProposalKind::from_str("Emergency"), Ok(ProposalKind::Emergency));
    assert_eq!(ProposalKind::from_str("parameter-change"), Ok(ProposalKind::ParameterChange));
    assert_eq!(ProposalKind::from_str("DAO _spend"), Ok(ProposalKind::DaoSpend));
    assert!(ProposalKind::from_str("daospends").is_err());
    assert!(ProposalKind::from_str("").is_err());
}

#[test]
fn proposal_deposit_leaves_balance() {
    check_deposit(
        shielded_pool::note::Address { g_d: [1u8; 32], pk_d: [2u8; 32], ck_d: [3u8; 32] },
        shielded_pool::note::Value { amount: 100, asset_id: [4u8; 32] },
    );
}

fn check_deposit(address: shielded_pool::note::Address, deposit: shielded_pool::note::Value) {
    let submit = shielded_pool::proposal::ProposalSubmit {
        proposal: ProposalKind::Signaling.template_proposal("testnet-1".to_string()),
        deposit_refund_address: address,
        deposit_amount: deposit.amount,
        withdraw_proposal_key: [0u8; 32],
    };
    let c = submit.value_commitment(&deposit.asset_id).unwrap();
    assert_eq!(Some(c), deposit.commit_negated(&[0u8; 32]));
    assert_ne!(Some(c), deposit.commit(&[0u8; 32]));
}
