//! Governance proposals carried by transactions.
use crate::note::{negated_commitment_spec, Address, Value};
use crate::primitives::{opt_view, zero_bytes, zero_spec, Bytes32};
use vstd::prelude::*;
use vstd::string::{StringExecFns, StringSliceAdditionalSpecFns};

verus! {

/// A planned transaction, as far as a proposal names it.
#[derive(Clone, Debug)]
pub struct TransactionPlan {
    pub chain_id: String,
}

/// A governance proposal.
#[derive(Clone, Debug)]
pub struct Proposal {
    pub title: String,
    pub description: String,
    pub payload: ProposalPayload,
}

/// The kind of a proposal.
#[derive(Clone, Copy, Debug, PartialEq, Eq, Structural)]
pub enum ProposalKind {
    Signaling,
    Emergency,
    ParameterChange,
    DaoSpend,
}

/// The machine-interpretable body of a proposal.
#[derive(Clone, Debug)]
pub enum ProposalPayload {
    /// Coordination only; enacts nothing by itself.
    Signaling { commit: Option<String> },
    /// Passed at once on 2/3 of validators; may halt the chain.
    Emergency { halt_chain: bool },
    /// Parameter changes, as parameter name and new value, enacted at a height.
    ParameterChange { effective_height: u64, new_parameters: Vec<(String, String)> },
    /// Transactions to schedule and scheduled ones to cancel, by height.
    DaoSpend { schedule_transactions: Vec<(u64, TransactionPlan)>, cancel_transactions: Vec<(u64, Bytes32)> },
}

/// A proposal submission: the proposal, where its deposit is refunded, the
/// deposit, and the key that may later withdraw it.
#[derive(Clone, Debug)]
pub struct ProposalSubmit {
    pub proposal: Proposal,
    pub deposit_refund_address: Address,
    pub deposit_amount: u64,
    pub withdraw_proposal_key: Bytes32,
}

impl ProposalSubmit {
    /// What the submission contributes to its transaction's balance: the
    /// deposit, in the staking asset, taken out, with a public (zero) blinding.
    pub fn value_commitment(&self, staking_asset_id: &Bytes32) -> (r: Option<Bytes32>)
        ensures
            opt_view(r) == negated_commitment_spec(Value { amount: self.deposit_amount, asset_id: *staking_asset_id }, zero_spec()),
    {
        let deposit = Value { amount: self.deposit_amount, asset_id: *staking_asset_id };
        deposit.commit_negated(&zero_bytes())
    }
}

/// A request to withdraw a proposal, signed with the submission's key.
#[derive(Clone, Debug)]
pub struct ProposalWithdraw {
    pub body: ProposalWithdrawBody,
    pub auth_sig: Vec<u8>,
}

/// The body of a request to withdraw a proposal.
#[derive(Clone, Debug)]
pub struct ProposalWithdrawBody {
    pub proposal: u64,
    pub reason: String,
}

/// The kind that a payload belongs to.
pub open spec fn kind_of(p: ProposalPayload) -> ProposalKind {
    match p {
        ProposalPayload::Signaling { .. } => ProposalKind::Signaling,
        ProposalPayload::Emergency { .. } => ProposalKind::Emergency,
        ProposalPayload::ParameterChange { .. } => ProposalKind::ParameterChange,
        ProposalPayload::DaoSpend { .. } => ProposalKind::DaoSpend,
    }
}

impl Proposal {
    pub fn kind(&self) -> (r: ProposalKind)
        ensures
            r == kind_of(self.payload),
    {
        match self.payload {
            ProposalPayload::Signaling { .. } => ProposalKind::Signaling,
            ProposalPayload::Emergency { .. } => ProposalKind::Emergency,
            ProposalPayload::ParameterChange { .. } => ProposalKind::ParameterChange,
            ProposalPayload::DaoSpend { .. } => ProposalKind::DaoSpend,
        }
    }
}

impl ProposalPayload {
    pub fn is_signaling(&self) -> (r: bool)
        ensures
            r == (kind_of(*self) == ProposalKind::Signaling),
    {
        matches!(self, ProposalPayload::Signaling { .. })
    }

    pub fn is_emergency(&self) -> (r: bool)
        ensures
            r == (kind_of(*self) == ProposalKind::Emergency),
    {
        matches!(self, ProposalPayload::Emergency { .. })
    }

    pub fn is_parameter_change(&self) -> (r: bool)
        ensures
            r == (kind_of(*self) == ProposalKind::ParameterChange),
    {
        matches!(self, ProposalPayload::ParameterChange { .. })
    }

    pub fn is_dao_spend(&self) -> (r: bool)
        ensures
            r == (kind_of(*self) == ProposalKind::DaoSpend),
    {
        matches!(self, ProposalPayload::DaoSpend { .. })
    }
}

/// What the template of each kind holds.
pub open spec fn is_template(k: ProposalKind, chain_id: Seq<char>, p: Proposal) -> bool {
    &&& p.title@ == "A short title describing the intent of the proposal."@
    &&& p.description@ == "A human readable description of the proposal."@
    &&& kind_of(p.payload) == k
    &&& match p.payload {
        ProposalPayload::Signaling { commit } => commit is None,
        ProposalPayload::Emergency { halt_chain } => !halt_chain,
        ProposalPayload::ParameterChange { effective_height, new_parameters } => {
            &&& effective_height == 0
            &&& new_parameters@.len() == 1
            &&& new_parameters@[0].0@ == "parameter name"@
            &&& new_parameters@[0].1@ == "new parameter value"@
        },
        ProposalPayload::DaoSpend { schedule_transactions, cancel_transactions } => {
            &&& schedule_transactions@.len() == 1
            &&& schedule_transactions@[0].0 == 0
            &&& schedule_transactions@[0].1.chain_id@ == chain_id
            &&& cancel_transactions@.len() == 1
            &&& cancel_transactions@[0].0 == 0
            &&& cancel_transactions@[0].1@ == zero_spec()
        },
    }
}

impl ProposalKind {
    /// A default proposal of this kind, to be filled in by its author.
    pub fn template_proposal(&self, chain_id: String) -> (r: Proposal)
        ensures
            is_template(*self, chain_id@, r),
    {
        let title = String::from_str("A short title describing the intent of the proposal.");
        let description = String::from_str("A human readable description of the proposal.");
        let payload = match self {
            ProposalKind::Signaling => ProposalPayload::Signaling { commit: None },
            ProposalKind::Emergency => ProposalPayload::Emergency { halt_chain: false },
            ProposalKind::ParameterChange => {
                let mut new_parameters: Vec<(String, String)> = Vec::new();
                new_parameters.push((String::from_str("parameter name"), String::from_str("new parameter value")));
                ProposalPayload::ParameterChange { effective_height: 0, new_parameters }
            },
            ProposalKind::DaoSpend => {
                let mut schedule_transactions: Vec<(u64, TransactionPlan)> = Vec::new();
                schedule_transactions.push((0, TransactionPlan { chain_id }));
                let mut cancel_transactions: Vec<(u64, Bytes32)> = Vec::new();
                cancel_transactions.push((0, zero_bytes()));
                ProposalPayload::DaoSpend { schedule_transactions, cancel_transactions }
            },
        };
        Proposal { title, description, payload }
    }
}

/// A kind name that names no kind.
#[derive(Clone, Copy, Debug, PartialEq, Eq, Structural)]
pub struct InvalidProposalKind;

/// The byte lowered if it is an ASCII capital.
pub open spec fn lower_byte(c: u8) -> u8 {
    if 65 <= c <= 90 {
        (c + 32) as u8
    } else {
        c
    }
}

/// The bytes of a kind name with `-`, `_` and spaces dropped and ASCII lowered.
pub open spec fn normalized(b: Seq<u8>) -> Seq<u8>
    decreases b.len(),
{
    if b.len() == 0 {
        b
    } else {
        let rest = normalized(b.drop_last());
        let c = b.last();
        if c == 45 || c == 95 || c == 32 {
            rest
        } else {
            rest.push(lower_byte(c))
        }
    }
}

pub open spec fn signaling_name() -> Seq<u8> {
    seq![115u8, 105, 103, 110, 97, 108, 105, 110, 103]
}

pub open spec fn emergency_name() -> Seq<u8> {
    seq![101u8, 109, 101, 114, 103, 101, 110, 99, 121]
}

pub open spec fn parameter_change_name() -> Seq<u8> {
    seq![112u8, 97, 114, 97, 109, 101, 116, 101, 114, 99, 104, 97, 110, 103, 101]
}

pub open spec fn dao_spend_name() -> Seq<u8> {
    seq![100u8, 97, 111, 115, 112, 101, 110, 100]
}

/// The kind a normalized name stands for.
pub open spec fn kind_named(n: Seq<u8>) -> Result<ProposalKind, InvalidProposalKind> {
    if n == signaling_name() {
        Ok(ProposalKind::Signaling)
    } else if n == emergency_name() {
        Ok(ProposalKind::Emergency)
    } else if n == parameter_change_name() {
        Ok(ProposalKind::ParameterChange)
    } else if n == dao_spend_name() {
        Ok(ProposalKind::DaoSpend)
    } else {
        Err(InvalidProposalKind)
    }
}

fn bytes_equal(a: &Vec<u8>, b: &[u8]) -> (r: bool)
    ensures
        r == (a@ == b@),
{
    if a.len() != b.len() {
        return false;
    }
    let mut i: usize = 0;
    while i < a.len()
        invariant
            0 <= i <= a.len(),
            a.len() == b@.len(),
            forall|j: int| 0 <= j < i ==> a@[j] == b@[j],
        decreases a.len() - i,
    {
        if a[i] != b[i] {
            return false;
        }
        i = i + 1;
    }
    assert(a@ =~= b@);
    true
}

impl ProposalKind {
    /// Reads a kind from its name, ignoring case, `-`, `_` and spaces
    /// (`"parameter-change"`, `"DAO spend"`).
    pub fn from_str(s: &str) -> (r: Result<ProposalKind, InvalidProposalKind>)
        ensures
            r == kind_named(normalized(s.spec_bytes())),
    {
        let b = s.as_bytes();
        let ghost bs = b@;
        let mut n: Vec<u8> = Vec::new();
        let mut i: usize = 0;
        while i < b.len()
            invariant
                0 <= i <= b.len(),
                bs == b@,
                n@ == normalized(bs.subrange(0, i as int)),
            decreases b.len() - i,
        {
            let c = b[i];
            proof {
                assert(bs.subrange(0, i + 1).drop_last() =~= bs.subrange(0, i as int));
            }
            if !(c == 45 || c == 95 || c == 32) {
                let l: u8 = if 65 <= c && c <= 90 { c + 32 } else { c };
                n.push(l);
            }
            i = i + 1;
        }
        assert(bs.subrange(0, b.len() as int) =~= bs);
        let signaling: [u8; 9] = [115, 105, 103, 110, 97, 108, 105, 110, 103];
        let emergency: [u8; 9] = [101, 109, 101, 114, 103, 101, 110, 99, 121];
        let parameter_change: [u8; 15] = [112, 97, 114, 97, 109, 101, 116, 101, 114, 99, 104, 97, 110, 103, 101];
        let dao_spend: [u8; 8] = [100, 97, 111, 115, 112, 101, 110, 100];
        assert(signaling@ =~= signaling_name());
        assert(emergency@ =~= emergency_name());
        assert(parameter_change@ =~= parameter_change_name());
        assert(dao_spend@ =~= dao_spend_name());
        if bytes_equal(&n, &signaling) {
            Ok(ProposalKind::Signaling)
        } else if bytes_equal(&n, &emergency) {
            Ok(ProposalKind::Emergency)
        } else if bytes_equal(&n, &parameter_change) {
            Ok(ProposalKind::ParameterChange)
        } else if bytes_equal(&n, &dao_spend) {
            Ok(ProposalKind::DaoSpend)
        } else {
            Err(InvalidProposalKind)
        }
    }
}

} // verus!
