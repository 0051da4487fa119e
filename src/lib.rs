//! A stake-weighted membership ledger: weights derived from staked amounts,
//! a historical weight snapshot with a running total, unbonding claims and a
//! batched hand-over of the whole population to a successor ledger.

pub mod claims;
pub mod contract;
pub mod funds;
pub mod msg;
pub mod order;
pub mod snapshot;
pub mod sorted_map;
pub mod weight;

pub use claims::{BlockInfo, Claim, Expiration};
pub use contract::{ContractError, Ledger, LedgerParts};
pub use snapshot::Change;
pub use funds::must_pay_funds;
pub use msg::{
    CallbackData, Coin, ExecuteMsg, HookMessage, InstantiateMsg, Member, MemberDiff, MigrateMsg,
    MigrationMsg, OutMsg, PayoutMsg, QueryMsg, QueryResponse, Response, StakedResponse,
};
pub use weight::{compute_weight, Config, Denom, Duration};
