//! Requests the ledger takes and the messages and answers it produces.

use vstd::prelude::*;
use crate::claims::Claim;
use crate::weight::{Config, Denom, Duration};

verus! {

#[derive(Debug)]
pub struct InstantiateMsg {
    /// The asset that is staked.
    pub denom: Denom,
    pub tokens_per_weight: u128,
    pub min_bond: u128,
    pub unbonding_period: Duration,
    /// May only add and remove hooks, not change other parameters.
    pub admin: Option<String>,
}

/// Names the successor ledger that migration hands everything to.
#[derive(Debug)]
pub struct MigrateMsg {
    pub dao_dao_addr: String,
}

/// Opaque data that a payout carries back to the claimant's handler.
#[derive(Debug)]
pub struct CallbackData {
    pub data: Vec<u8>,
}

#[derive(Debug)]
pub enum ExecuteMsg {
    /// Moves a batch of stakes and claims to the successor ledger.
    MigrateToDaoDao { num: u64, num_claims: u64 },
    /// Pays out the caller's matured claims, optionally through a callback.
    Claim { callback: Option<CallbackData> },
}

#[derive(Debug)]
pub enum QueryMsg {
    /// The tokens in process of unbonding for this address.
    Claims { address: String },
    /// The tokens currently staked by this address.
    Staked { address: String },
    Admin {},
    TotalWeight {},
    ListMembers { start_after: Option<String>, limit: Option<u32> },
    Member { addr: String, at_height: Option<u64> },
    /// All registered hooks.
    Hooks {},
    Config {},
}

/// An amount of one denomination.
#[derive(Debug)]
pub struct Coin {
    pub denom: String,
    pub amount: u128,
}

#[derive(Debug)]
pub struct StakedResponse {
    pub stake: u128,
    pub denom: Denom,
}

#[derive(Debug)]
pub struct Member {
    pub addr: String,
    pub weight: u128,
}

/// A change of one member's weight.
#[derive(Debug)]
pub struct MemberDiff {
    pub key: String,
    pub old: Option<u128>,
    pub new: Option<u128>,
}

/// A notification of `diff` to the subscriber `hook`.
#[derive(Debug)]
pub struct HookMessage {
    pub hook: String,
    pub diff: MemberDiff,
}

/// What the successor ledger receives from one migration call, with a
/// transfer of `amount` of `denom` attached.
#[derive(Debug)]
pub struct MigrationMsg {
    pub contract: String,
    pub weights: Vec<(String, u128)>,
    pub claims: Vec<(String, Vec<Claim>)>,
    pub amount: u128,
    pub denom: String,
}

/// The payout of a claim.
#[derive(Debug)]
pub enum PayoutMsg {
    /// A plain transfer to `to`.
    Send { to: String, amount: u128, denom: String },
    /// The transfer, attached to a call of `to`'s handler with `callback`.
    Callback { to: String, callback: CallbackData, amount: u128, denom: String },
}

#[derive(Debug)]
pub enum OutMsg {
    Migrate(MigrationMsg),
    Payout(PayoutMsg),
}

/// The answer to a query.
#[derive(Debug)]
pub enum QueryResponse {
    Claims(Vec<Claim>),
    Staked(StakedResponse),
    Admin(Option<String>),
    TotalWeight(u128),
    ListMembers(Vec<Member>),
    Member(Option<u128>),
    Hooks(Vec<String>),
    Config(Config),
}

#[derive(Debug)]
pub struct Response {
    pub messages: Vec<OutMsg>,
    pub attributes: Vec<(String, String)>,
}

} // verus!
