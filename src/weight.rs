//! The ledger's configuration and the policy that turns a staked amount
//! into a membership weight.

use vstd::prelude::*;
use vstd::arithmetic::div_mod::lemma_div_is_ordered;

verus! {

/// The asset that is staked.
#[derive(Debug, PartialEq, Eq)]
pub enum Denom {
    /// A native asset, named by its denomination.
    Native(String),
    /// A token contract; described by the messages but never supported.
    Cw20(String),
}

/// How long unbonded tokens stay locked.
#[derive(Clone, Copy, Debug, PartialEq, Eq, Structural)]
pub enum Duration {
    Height(u64),
    Time(u64),
}

impl Denom {
    pub fn duplicate(&self) -> (r: Denom)
        ensures
            r == *self,
    {
        match self {
            Denom::Native(d) => Denom::Native(d.clone()),
            Denom::Cw20(a) => Denom::Cw20(a.clone()),
        }
    }
}

#[derive(Debug)]
pub struct Config {
    pub denom: Denom,
    pub tokens_per_weight: u128,
    pub min_bond: u128,
    pub unbonding_period: Duration,
}

impl Config {
    pub fn duplicate(&self) -> (r: Config)
        ensures
            r == *self,
    {
        Config {
            denom: self.denom.duplicate(),
            tokens_per_weight: self.tokens_per_weight,
            min_bond: self.min_bond,
            unbonding_period: self.unbonding_period,
        }
    }

    pub open spec fn wf(&self) -> bool {
        self.tokens_per_weight > 0 && self.min_bond >= 1
    }
}

/// The weight that a stake of `stake` earns under `config`: none below the
/// minimum bond, else the stake divided by the tokens per weight, rounded down.
pub open spec fn config_weight(config: &Config, stake: u128) -> Option<u128> {
    if stake < config.min_bond {
        None
    } else {
        Some(stake / config.tokens_per_weight)
    }
}

/// The membership weight of a stake under `config`.
pub fn compute_weight(stake: u128, config: &Config) -> (r: Option<u128>)
    requires
        config.wf(),
    ensures
        r == config_weight(config, stake),
{
    if stake < config.min_bond {
        None
    } else {
        Some(stake / config.tokens_per_weight)
    }
}

/// A stake has a weight exactly when it reaches the minimum bond; the weight
/// is then the stake divided by the tokens per weight, rounded down; and a
/// larger stake never earns less.
pub proof fn lemma_weight_policy(config: &Config, s1: u128, s2: u128)
    requires
        config.wf(),
        s1 <= s2,
    ensures
        config_weight(config, s1) is None <==> s1 < config.min_bond,
        s1 >= config.min_bond ==> config_weight(config, s1) == Some(
            (s1 as int / config.tokens_per_weight as int) as u128,
        ),
        config_weight(config, s1) matches Some(w1) ==> (config_weight(config, s2) matches Some(w2)
            && w1 <= w2),
{
    lemma_div_is_ordered(s1 as int, s2 as int, config.tokens_per_weight as int);
}

} // verus!
