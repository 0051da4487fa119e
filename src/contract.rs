//! The ledger: stakes, membership weights with their history and running
//! total, claims, subscribers, and the operations on them.

use vstd::prelude::*;
use crate::claims::{
    BlockInfo, Claim, ClaimStore, Expiration, Release, amount_sum, amount_total, claims_of,
    lemma_amount_sum_nonneg, matured_sum, pending,
};
use crate::msg::{
    CallbackData, ExecuteMsg, HookMessage, InstantiateMsg, Member, MemberDiff, MigrateMsg,
    MigrationMsg, OutMsg, PayoutMsg, QueryMsg, QueryResponse, Response, StakedResponse,
};
use crate::snapshot::{Change, WeightSnapshot, total_of};
use crate::sorted_map::{
    Entries, SortedMap, entries_view, front_len, has_key, keys_sorted, lemma_sum_nonneg,
    lemma_sum_split, lemma_value_le_sum, sum_by, value_of,
};
use crate::weight::{Config, Denom, compute_weight, config_weight};
use crate::funds::{coin_to_string, decimal};
use crate::order::{lemma_lex_asymmetric, lemma_lex_irreflexive, lemma_lex_total, lex_lt, same_text};

verus! {

#[derive(Debug, PartialEq, Eq)]
pub enum ContractError {
    /// The caller has no matured claim.
    NothingToClaim,
    /// No funds were sent.
    NoFunds,
    /// The funds sent are not of this denomination.
    MissingDenom(String),
    /// Funds of more than one denomination were sent.
    ExtraDenoms(String),
    /// The ledger is configured with a token contract, which it cannot pay out.
    UnsupportedDenom,
    /// No successor ledger has been named.
    NoSuccessor,
    /// A total left the range of 128-bit amounts.
    Overflow,
}

/// The weight or amount as an integer, absence counting as zero.
pub open spec fn or_zero(w: Option<u128>) -> int {
    match w {
        Some(v) => v as int,
        None => 0,
    }
}

pub open spec fn stake_term() -> spec_fn(u128) -> int {
    |v: u128| v as int
}

pub open spec fn claim_term() -> spec_fn(Vec<Claim>) -> int {
    |v: Vec<Claim>| amount_sum(v@)
}

/// The sum of the staked amounts in `s`.
pub open spec fn staked_sum(s: Entries<u128>) -> int {
    sum_by(s, stake_term())
}

/// The sum of all claim amounts in `s`, matured or not.
pub open spec fn claim_list_sum(s: Entries<Vec<Claim>>) -> int {
    sum_by(s, claim_term())
}

/// The sum of the weights in `w` of the addresses of `s`.
pub open spec fn weight_of_keys(w: Entries<u128>, s: Entries<u128>) -> int
    decreases s.len(),
{
    if s.len() == 0 {
        0
    } else {
        weight_of_keys(w, s.drop_last()) + or_zero(value_of(w, s.last().0))
    }
}

/// How many of `len` entries a request for `n` takes.
pub open spec fn batch_len(len: nat, n: u64) -> int {
    if (n as nat) < len { n as int } else { len as int }
}

proof fn lemma_weight_of_keys_prefix(w: Entries<u128>, s: Entries<u128>, i: int)
    requires
        0 <= i <= s.len(),
    ensures
        weight_of_keys(w, s.take(i)) <= weight_of_keys(w, s),
    decreases s.len() - i,
{
    if i < s.len() {
        lemma_weight_of_keys_prefix(w, s, i + 1);
        assert(s.take(i + 1).drop_last() =~= s.take(i));
    } else {
        assert(s.take(i) =~= s);
    }
}

proof fn lemma_prefix_sum_le<V>(s: Entries<V>, i: int, k: int, f: spec_fn(V) -> int)
    requires
        0 <= i <= k <= s.len(),
        forall|v: V| #[trigger] f(v) >= 0,
    ensures
        sum_by(s.take(i), f) <= sum_by(s.take(k), f),
{
    lemma_sum_split(s.take(k), i, f);
    assert(s.take(k).take(i) =~= s.take(i));
    lemma_sum_nonneg(s.take(k).skip(i), f);
}

/// A request for `n` entries, as a length that a vector can have.
fn batch_size(n: u64) -> (r: usize)
    ensures
        r as int == n || (r == usize::MAX && n > usize::MAX),
{
    if n as u128 > usize::MAX as u128 {
        usize::MAX
    } else {
        n as usize
    }
}

/// Everything a ledger holds, as plain values, for storing it between calls.
#[derive(Debug)]
pub struct LedgerParts {
    pub config: Config,
    pub stakes: Vec<(String, u128)>,
    pub weights: Vec<(String, u128)>,
    pub history: Vec<Change>,
    pub total: u128,
    pub claims: Vec<(String, Vec<Claim>)>,
    pub hooks: Vec<String>,
    pub admin: Option<String>,
    pub successor: Option<String>,
    pub height: u64,
}

/// The parts make a well-formed ledger: a valid configuration, addresses
/// strictly ascending in each store, no change after `height`, and a total
/// that is the sum of the weights.
pub open spec fn parts_valid(p: LedgerParts) -> bool {
    &&& p.config.wf()
    &&& keys_sorted(entries_view(p.stakes@))
    &&& keys_sorted(entries_view(p.weights@))
    &&& keys_sorted(entries_view(p.claims@))
    &&& forall|j: int| 0 <= j < p.history@.len() ==> (#[trigger] p.history@[j]).height <= p.height
    &&& p.total == total_of(entries_view(p.weights@))
}

pub const MAX_LIMIT: u32 = 30;
pub const DEFAULT_LIMIT: u32 = 10;

pub struct Ledger {
    config: Config,
    stake: SortedMap<u128>,
    members: WeightSnapshot,
    total: u128,
    claims: ClaimStore,
    hooks: Vec<String>,
    admin: Option<String>,
    successor: Option<String>,
    height: u64,
}

impl Ledger {
    pub closed spec fn config(&self) -> Config {
        self.config
    }

    /// Staked amount of each address, ascending by address.
    pub closed spec fn stakes(&self) -> Entries<u128> {
        self.stake@
    }

    /// Current weight of each member, ascending by address.
    pub closed spec fn weights(&self) -> Entries<u128> {
        self.members.current()
    }

    /// The weight of `k` as of height `h`.
    pub closed spec fn weight_at(&self, k: Seq<char>, h: int) -> Option<u128> {
        self.members.at(k, h)
    }

    pub closed spec fn total(&self) -> int {
        self.total as int
    }

    pub closed spec fn claims(&self) -> Entries<Vec<Claim>> {
        self.claims.view()
    }

    pub closed spec fn hooks(&self) -> Seq<String> {
        self.hooks@
    }

    pub closed spec fn admin(&self) -> Option<String> {
        self.admin
    }

    pub closed spec fn successor(&self) -> Option<String> {
        self.successor
    }

    /// The latest height at which a weight changed.
    pub closed spec fn height(&self) -> int {
        self.height as int
    }

    pub closed spec fn wf(&self) -> bool {
        &&& self.config.wf()
        &&& self.stake.wf()
        &&& self.members.wf()
        &&& self.claims.wf()
        &&& self.members.settled_by(self.height as int)
        &&& self.total as int == total_of(self.members.current())
    }

    /// The running total is always the sum of all current weights: every
    /// operation keeps the ledger well formed, and well-formedness includes
    /// this, so it holds after any sequence of updates and migrations.
    pub proof fn lemma_total_is_sum(&self)
        requires
            self.wf(),
        ensures
            self.total() == total_of(self.weights()),
    {
    }

    /// Each store lists its addresses strictly ascending; with
    /// `lemma_sorted_unique`, its contents determine it.
    pub proof fn lemma_stores_sorted(&self)
        requires
            self.wf(),
        ensures
            keys_sorted(self.stakes()),
            keys_sorted(self.weights()),
            keys_sorted(self.claims()),
    {
        self.members.lemma_sorted();
        self.claims.lemma_sorted();
    }

    /// Once no stake is left, no weight is left either, and the total is 0.
    pub proof fn lemma_no_stake_no_weight(&self)
        requires
            self.wf(),
            self.stake_tracked(),
            self.stakes().len() == 0,
        ensures
            self.weights().len() == 0,
            self.total() == 0,
    {
        let e = Seq::<(Seq<char>, u128)>::empty();
        self.members.lemma_sorted();
        assert forall|k: Seq<char>| #[trigger] value_of(self.weights(), k) == value_of(e, k) by {
            assert(value_of(self.stakes(), k) is None);
        }
        crate::sorted_map::lemma_sorted_unique(self.weights(), e);
        assert(total_of(e) == 0);
    }

    /// A fresh ledger; the minimum bond is raised to 1, so that a zero stake
    /// never makes a member.
    pub fn instantiate(msg: InstantiateMsg) -> (r: Ledger)
        requires
            msg.tokens_per_weight > 0,
        ensures
            r.wf(),
            r.config() == (Config {
                denom: msg.denom,
                tokens_per_weight: msg.tokens_per_weight,
                min_bond: if msg.min_bond < 1 { 1 } else { msg.min_bond },
                unbonding_period: msg.unbonding_period,
            }),
            r.stakes().len() == 0,
            r.weights().len() == 0,
            forall|x: Seq<char>, h: int| #[trigger] r.weight_at(x, h) is None,
            r.claims().len() == 0,
            r.hooks().len() == 0,
            r.total() == 0,
            r.height() == 0,
            r.successor() is None,
            r.admin() == msg.admin,
            r.stake_tracked(),
    {
        let min_bond = if msg.min_bond < 1 { 1 } else { msg.min_bond };
        let config = Config {
            denom: msg.denom,
            tokens_per_weight: msg.tokens_per_weight,
            min_bond,
            unbonding_period: msg.unbonding_period,
        };
        let r = Ledger {
            config,
            stake: SortedMap::new(),
            members: WeightSnapshot::new(),
            total: 0,
            claims: ClaimStore::new(),
            hooks: Vec::new(),
            admin: msg.admin,
            successor: None,
            height: 0,
        };
        proof {
            assert(sum_by(r.members.current(), |w: u128| crate::snapshot::weight_value(w)) == 0);
            assert forall|x: Seq<char>, h: int| #[trigger] r.weight_at(x, h) is None by {
                assert(crate::snapshot::first_change_after(r.members.history(), x, h, 0) is None);
            }
        }
        r
    }

    /// Names (or renames) the successor ledger.
    pub fn migrate(&mut self, msg: MigrateMsg)
        requires
            old(self).wf(),
        ensures
            final(self).wf(),
            final(self).successor() == Some(msg.dao_dao_addr),
            final(self).height() == old(self).height(),
            final(self).config() == old(self).config(),
            final(self).hooks() == old(self).hooks(),
            final(self).admin() == old(self).admin(),
            forall|x: Seq<char>, h: int| #[trigger] final(self).weight_at(x, h) == old(self).weight_at(x, h),
            old(self).stake_tracked() ==> final(self).stake_tracked(),
            final(self).stakes() == old(self).stakes(),
            final(self).weights() == old(self).weights(),
            final(self).claims() == old(self).claims(),
            final(self).total() == old(self).total(),
    {
        self.successor = Some(msg.dao_dao_addr);
    }

    /// Registers a subscriber of weight changes.
    pub fn add_hook(&mut self, hook: String)
        requires
            old(self).wf(),
        ensures
            final(self).wf(),
            final(self).hooks() == old(self).hooks().push(hook),
            final(self).height() == old(self).height(),
            final(self).config() == old(self).config(),
            final(self).admin() == old(self).admin(),
            final(self).successor() == old(self).successor(),
            final(self).claims() == old(self).claims(),
            old(self).stake_tracked() ==> final(self).stake_tracked(),
            final(self).weights() == old(self).weights(),
            final(self).stakes() == old(self).stakes(),
            final(self).total() == old(self).total(),
    {
        self.hooks.push(hook);
    }

    /// Every address's weight is the one its stake earns: none without a
    /// stake or below the minimum bond.
    pub open spec fn stake_tracked(&self) -> bool {
        forall|k: Seq<char>| #[trigger] value_of(self.weights(), k) == match value_of(self.stakes(), k) {
            Some(s) => self.weight_for_stake(s),
            None => None,
        }
    }

    /// The weight of `addr` is the one `stake` earns, so an update of `addr`
    /// to `stake` finds nothing to do.
    pub open spec fn weight_in_line(&self, addr: Seq<char>, stake: u128) -> bool {
        self.weight_for_stake(stake) == value_of(self.weights(), addr)
    }

    /// The weight that `stake` earns under this ledger's configuration.
    pub open spec fn weight_for_stake(&self, stake: u128) -> Option<u128> {
        config_weight(&self.config(), stake)
    }

    /// Notifies every subscriber, in order, of `diff`.
    fn hook_messages(&self, key: &String, old_w: Option<u128>, new_w: Option<u128>) -> (r: Vec<
        HookMessage,
    >)
        ensures
            r@.len() == self.hooks().len(),
            forall|i: int|
                0 <= i < r@.len() ==> (#[trigger] r@[i]).hook == self.hooks()[i] && r@[i].diff.key
                    == *key && r@[i].diff.old == old_w && r@[i].diff.new == new_w,
    {
        let mut out: Vec<HookMessage> = Vec::new();
        let mut i: usize = 0;
        while i < self.hooks.len()
            invariant
                i <= self.hooks@.len(),
                out@.len() == i,
                forall|j: int|
                    0 <= j < i ==> (#[trigger] out@[j]).hook == self.hooks@[j] && out@[j].diff.key
                        == *key && out@[j].diff.old == old_w && out@[j].diff.new == new_w,
            decreases self.hooks@.len() - i,
        {
            let diff = MemberDiff { key: key.clone(), old: old_w, new: new_w };
            out.push(HookMessage { hook: self.hooks[i].clone(), diff });
            i = i + 1;
        }
        out
    }

    /// Brings the weight of `addr` in line with a stake of `new_stake`, at
    /// `height`: records the new weight in the history, adjusts the total and
    /// notifies every subscriber. Nothing happens when the weight is unchanged.
    pub fn update_membership(&mut self, addr: String, new_stake: u128, height: u64) -> (r: Result<
        Vec<HookMessage>,
        ContractError,
    >)
        requires
            old(self).wf(),
            old(self).height() <= height,
        ensures
            final(self).wf(),
            final(self).config() == old(self).config(),
            final(self).stakes() == old(self).stakes(),
            final(self).claims() == old(self).claims(),
            same_settings(*old(self), *final(self)),
            final(self).height() <= height,
            r matches Ok(m) ==> update_outcome(*old(self), *final(self), addr@, new_stake, m@.len()),
            r is Err <==> old(self).weight_for_stake(new_stake) != value_of(old(self).weights(), addr@)
                && old(self).total() - or_zero(value_of(old(self).weights(), addr@)) + or_zero(
                old(self).weight_for_stake(new_stake),
            ) > u128::MAX,
            r is Err ==> r == Err::<Vec<HookMessage>, ContractError>(ContractError::Overflow),
            r is Err || old(self).weight_for_stake(new_stake) == value_of(old(self).weights(), addr@)
                ==> *final(self) == *old(self),
            old(self).weight_for_stake(new_stake) == value_of(old(self).weights(), addr@) ==> (r matches Ok(
                m,
            ) && m@.len() == 0),
            r is Ok ==> value_of(final(self).weights(), addr@) == old(self).weight_for_stake(new_stake),
            r is Ok ==> forall|x: Seq<char>|
                x != addr@ ==> value_of(final(self).weights(), x) == value_of(old(self).weights(), x),
            r is Ok ==> final(self).total() == old(self).total() - or_zero(
                value_of(old(self).weights(), addr@),
            ) + or_zero(old(self).weight_for_stake(new_stake)),
            r is Ok ==> forall|x: Seq<char>, h: int|
                h < height ==> #[trigger] final(self).weight_at(x, h) == old(self).weight_at(x, h),
            r is Ok ==> forall|x: Seq<char>, h: int|
                h >= height ==> #[trigger] final(self).weight_at(x, h) == value_of(
                    final(self).weights(),
                    x,
                ),
            r is Ok && old(self).weight_for_stake(new_stake) != value_of(old(self).weights(), addr@)
                ==> final(self).height() == height,
            r matches Ok(m) ==> (old(self).weight_for_stake(new_stake) != value_of(
                old(self).weights(),
                addr@,
            ) ==> m@.len() == old(self).hooks().len() && forall|i: int|
                0 <= i < m@.len() ==> (#[trigger] m@[i]).hook == old(self).hooks()[i] && m@[i].diff.key@
                    == addr@ && m@[i].diff.old == value_of(old(self).weights(), addr@) && m@[i].diff.new
                    == old(self).weight_for_stake(new_stake)),
    {
        let new_w = compute_weight(new_stake, &self.config);
        let old_w = self.members.may_load(addr.as_str());
        if new_w == old_w {
            proof {
                assert forall|x: Seq<char>, h: int| h >= height implies #[trigger] self.weight_at(x, h)
                    == value_of(self.weights(), x) by {
                    self.members.lemma_settled(x, h, self.height as int);
                }
            }
            return Ok(Vec::new());
        }
        let ghost f = |w: u128| crate::snapshot::weight_value(w);
        let old_v: u128 = match old_w {
            Some(w) => {
                proof {
                    let i = crate::sorted_map::key_index(self.members.current(), addr@);
                    lemma_value_le_sum(self.members.current(), i, f);
                }
                w
            },
            None => 0,
        };
        let new_v: u128 = match new_w {
            Some(w) => w,
            None => 0,
        };
        let rest = self.total - old_v;
        let total = match rest.checked_add(new_v) {
            Some(t) => t,
            None => return Err(ContractError::Overflow),
        };
        self.members.write(addr.clone(), new_w, height);
        self.total = total;
        self.height = height;
        Ok(self.hook_messages(&addr, old_w, new_w))
    }

    /// Records a stake of `amount` for `addr` at `height` (none, for zero),
    /// and brings its weight in line as `update_membership` does. On overflow
    /// nothing changes.
    pub fn set_stake(&mut self, addr: String, amount: u128, height: u64) -> (r: Result<
        Vec<HookMessage>,
        ContractError,
    >)
        requires
            old(self).wf(),
            old(self).height() <= height,
        ensures
            final(self).wf(),
            r is Err <==> old(self).weight_for_stake(amount) != value_of(old(self).weights(), addr@)
                && old(self).total() - or_zero(value_of(old(self).weights(), addr@)) + or_zero(
                old(self).weight_for_stake(amount),
            ) > u128::MAX,
            r is Err ==> *final(self) == *old(self),
            r is Ok ==> value_of(final(self).stakes(), addr@) == if amount == 0 {
                None
            } else {
                Some(amount)
            },
            r is Ok ==> forall|x: Seq<char>|
                x != addr@ ==> value_of(final(self).stakes(), x) == value_of(old(self).stakes(), x),
            r is Ok ==> value_of(final(self).weights(), addr@) == old(self).weight_for_stake(amount),
            r is Ok ==> forall|x: Seq<char>|
                x != addr@ ==> value_of(final(self).weights(), x) == value_of(old(self).weights(), x),
            r is Ok ==> final(self).total() == old(self).total() - or_zero(
                value_of(old(self).weights(), addr@),
            ) + or_zero(old(self).weight_for_stake(amount)),
            r is Ok ==> forall|x: Seq<char>, h: int|
                h < height ==> #[trigger] final(self).weight_at(x, h) == old(self).weight_at(x, h),
            r is Ok ==> forall|x: Seq<char>, h: int|
                h >= height ==> #[trigger] final(self).weight_at(x, h) == value_of(
                    final(self).weights(),
                    x,
                ),
            final(self).claims() == old(self).claims(),
            same_settings(*old(self), *final(self)),
            old(self).stake_tracked() ==> final(self).stake_tracked(),
            final(self).height() <= height,
    {
        let msgs = self.update_membership(addr.clone(), amount, height);
        if msgs.is_ok() {
            let ghost mid = *self;
            if amount == 0 {
                let _ = self.stake.remove(addr.as_str());
            } else {
                self.stake.set(addr, amount);
            }
            assert forall|x: Seq<char>, h: int| #[trigger] self.weight_at(x, h) == mid.weight_at(x, h) by {
                assert(self.members == mid.members);
            }
        }
        msgs
    }

    /// Why a migration of `num` stakes and `num_claims` claim lists fails,
    /// if it does.
    pub open spec fn migration_error(&self, num: u64, num_claims: u64) -> Option<ContractError> {
        let moved = self.stakes().take(batch_len(self.stakes().len(), num));
        if self.config().denom is Cw20 {
            Some(ContractError::UnsupportedDenom)
        } else if self.successor() is None {
            Some(ContractError::NoSuccessor)
        } else if staked_sum(moved) + claim_list_sum(
            self.claims().take(batch_len(self.claims().len(), num_claims)),
        ) > u128::MAX || weight_of_keys(self.weights(), moved) > self.total() {
            Some(ContractError::Overflow)
        } else {
            None
        }
    }

    /// Why paying out the matured claims of `sender` fails, if it does.
    pub open spec fn claim_error(&self, block: BlockInfo, sender: Seq<char>) -> Option<ContractError> {
        let due = matured_sum(claims_of(self.claims(), sender), block);
        if self.config().denom is Cw20 {
            Some(ContractError::UnsupportedDenom)
        } else if due > u128::MAX {
            Some(ContractError::Overflow)
        } else if due == 0 {
            Some(ContractError::NothingToClaim)
        } else {
            None
        }
    }

    /// Pays out the claims of `sender` that have matured by `block`: a plain
    /// transfer, or with `callback` a call of the sender's handler carrying
    /// the funds. On any error nothing changes.
    pub fn claim(&mut self, block: &BlockInfo, sender: String, callback: Option<CallbackData>) -> (r:
        Result<Response, ContractError>)
        requires
            old(self).wf(),
        ensures
            final(self).wf(),
            r is Err <==> old(self).claim_error(*block, sender@) is Some,
            r matches Err(e) ==> old(self).claim_error(*block, sender@) == Some(e),
            r is Err ==> *final(self) == *old(self),
            r is Ok ==> claims_of(final(self).claims(), sender@) == pending(
                claims_of(old(self).claims(), sender@),
                *block,
            ),
            forall|x: Seq<char>|
                x != sender@ ==> value_of(final(self).claims(), x) == value_of(old(self).claims(), x),
            r matches Ok(resp) ==> claimed(*old(self), *block, sender, callback, resp),
            final(self).stakes() == old(self).stakes(),
            final(self).weights() == old(self).weights(),
            final(self).total() == old(self).total(),
            final(self).height() == old(self).height(),
            forall|x: Seq<char>, h: int| #[trigger] final(self).weight_at(x, h) == old(self).weight_at(x, h),
            same_settings(*old(self), *final(self)),
            old(self).stake_tracked() ==> final(self).stake_tracked(),
    {
        let denom = match &self.config.denom {
            Denom::Native(d) => d.clone(),
            Denom::Cw20(_) => return Err(ContractError::UnsupportedDenom),
        };
        let ghost before = *self;
        let amount = match self.claims.release(&sender, block) {
            Release::Overflow => return Err(ContractError::Overflow),
            Release::Paid(a) => a,
        };
        if amount == 0 {
            return Err(ContractError::NothingToClaim);
        }
        let tokens = coin_to_string(amount, denom.as_str());
        let payout = match callback {
            None => PayoutMsg::Send { to: sender.clone(), amount, denom },
            Some(cb) => PayoutMsg::Callback { to: sender.clone(), callback: cb, amount, denom },
        };
        let mut attributes: Vec<(String, String)> = Vec::new();
        attributes.push((String::from_str("action"), String::from_str("claim")));
        attributes.push((String::from_str("tokens"), tokens));
        attributes.push((String::from_str("sender"), sender));
        let mut messages: Vec<OutMsg> = Vec::new();
        messages.push(OutMsg::Payout(payout));
        proof {
            reveal_strlit("action");
            reveal_strlit("claim");
            reveal_strlit("tokens");
            reveal_strlit("sender");
            assert(messages@ =~= seq![messages@[0]]);
        }
        Ok(Response { messages, attributes })
    }

    /// Moves the first `num` stakes and the first `num_claims` claim lists, in
    /// ascending order of address, to the successor ledger: the stakes and
    /// their weights (as of `block`'s height) leave this ledger, the total
    /// drops by those weights, and one message carries them, the claim lists
    /// and a transfer of all their tokens. The message is sent even when both
    /// stores are already empty. On any error nothing changes.
    #[verifier::rlimit(50)]
    pub fn migrate_batch(&mut self, block: &BlockInfo, num: u64, num_claims: u64) -> (r: Result<
        MigrationMsg,
        ContractError,
    >)
        requires
            old(self).wf(),
            old(self).height() <= block.height,
        ensures
            final(self).wf(),
            r is Err ==> *final(self) == *old(self),
            r is Err <==> old(self).migration_error(num, num_claims) is Some,
            r matches Err(e) ==> old(self).migration_error(num, num_claims) == Some(e),
            r matches Ok(m) ==> migrated(*old(self), *final(self), *block, num, num_claims, m),
            r matches Ok(m) ==> migration_step(*old(self), *final(self), m),
            final(self).height() <= block.height,
            same_settings(*old(self), *final(self)),
            old(self).stake_tracked() ==> final(self).stake_tracked(),
    {
        let denom = match &self.config.denom {
            Denom::Native(d) => d.clone(),
            Denom::Cw20(_) => return Err(ContractError::UnsupportedDenom),
        };
        let contract = match &self.successor {
            Some(a) => a.clone(),
            None => return Err(ContractError::NoSuccessor),
        };
        let ghost stakes0 = self.stake@;
        let ghost claims0 = self.claims.view();
        let ghost w0 = self.members.current();
        let n = batch_size(num);
        let nc = batch_size(num_claims);
        let k = if n < self.stake.len() { n } else { self.stake.len() };
        let kc = if nc < self.claims.len() { nc } else { self.claims.len() };
        assert(k == batch_len(stakes0.len(), num));
        assert(kc == batch_len(claims0.len(), num_claims));
        proof {
            assert forall|v: Vec<Claim>| #[trigger] claim_term()(v) >= 0 by {
                lemma_amount_sum_nonneg(v@);
            }
            assert forall|v: u128| #[trigger] stake_term()(v) >= 0 by {}
            lemma_sum_nonneg(claims0.take(kc as int), claim_term());
            lemma_sum_nonneg(stakes0.take(k as int), stake_term());
        }
        // Add everything up first, so that an overflow leaves all as it was.
        let mut token_sum: u128 = 0;
        let mut weight_sum: u128 = 0;
        let mut i: usize = 0;
        while i < k
            invariant
                *self == *old(self),
                self.height <= block.height,
                k == batch_len(stakes0.len(), num),
                kc == batch_len(claims0.len(), num_claims),
                stakes0 == self.stake@,
                claims0 == self.claims.view(),
                w0 == self.members.current(),
                staked_sum(stakes0.take(k as int)) >= 0,
                claim_list_sum(claims0.take(kc as int)) >= 0,
                self.config.denom is Native,
                self.successor is Some,
                forall|v: u128| #[trigger] stake_term()(v) >= 0,
                stakes0 == self.stake@,
                w0 == self.members.current(),
                self.wf(),
                k <= stakes0.len(),
                i <= k,
                token_sum == staked_sum(stakes0.take(i as int)),
                weight_sum == weight_of_keys(w0, stakes0.take(i as int)),
            decreases k - i,
        {
            assert(stakes0.take(i + 1).drop_last() =~= stakes0.take(i as int));
            assert(stakes0.take(i + 1).last() == stakes0[i as int]);
            assert(staked_sum(stakes0.take(i + 1)) == staked_sum(stakes0.take(i as int)) + stakes0[i as int].1);
            match token_sum.checked_add(*self.stake.value_at(i)) {
                Some(t) => token_sum = t,
                None => {
                    proof {
                        lemma_prefix_sum_le(stakes0, (i + 1) as int, k as int, stake_term());
                    }
                    return Err(ContractError::Overflow);
                },
            }
            let w = match self.members.may_load(self.stake.key_at(i).as_str()) {
                Some(w) => w,
                None => 0,
            };
            match weight_sum.checked_add(w) {
                Some(t) => weight_sum = t,
                None => {
                    proof {
                        lemma_weight_of_keys_prefix(w0, stakes0.take(k as int), (i + 1) as int);
                        assert(stakes0.take(k as int).take(i + 1) =~= stakes0.take(i + 1));
                    }
                    return Err(ContractError::Overflow);
                },
            }
            i = i + 1;
        }
        if weight_sum > self.total {
            return Err(ContractError::Overflow);
        }
        let mut j: usize = 0;
        while j < kc
            invariant
                *self == *old(self),
                self.height <= block.height,
                k == batch_len(stakes0.len(), num),
                kc == batch_len(claims0.len(), num_claims),
                stakes0 == self.stake@,
                claims0 == self.claims.view(),
                w0 == self.members.current(),
                staked_sum(stakes0.take(k as int)) >= 0,
                claim_list_sum(claims0.take(kc as int)) >= 0,
                self.config.denom is Native,
                self.successor is Some,
                forall|v: u128| #[trigger] stake_term()(v) >= 0,
                claims0 == self.claims.view(),
                self.wf(),
                kc <= claims0.len(),
                j <= kc,
                token_sum == staked_sum(stakes0.take(k as int)) + claim_list_sum(claims0.take(j as int)),
                forall|v: Vec<Claim>| #[trigger] claim_term()(v) >= 0,
            decreases kc - j,
        {
            assert(claims0.take(j + 1).drop_last() =~= claims0.take(j as int));
            assert(claims0.take(j + 1).last() == claims0[j as int]);
            assert(claim_list_sum(claims0.take(j + 1)) == claim_list_sum(claims0.take(j as int))
                + amount_sum(claims0[j as int].1@));
            let t = match amount_total(self.claims.value_at(j)) {
                Some(t) => t,
                None => {
                    proof {
                        lemma_prefix_sum_le(claims0, (j + 1) as int, kc as int, claim_term());
                        lemma_sum_nonneg(claims0.take(j as int), claim_term());
                    }
                    return Err(ContractError::Overflow);
                },
            };
            match token_sum.checked_add(t) {
                Some(s) => token_sum = s,
                None => {
                    proof {
                        lemma_prefix_sum_le(claims0, (j + 1) as int, kc as int, claim_term());
                    }
                    return Err(ContractError::Overflow);
                },
            }
            j = j + 1;
        }
        proof {
            lemma_prefix_sum_le(stakes0, k as int, k as int, stake_term());
        }
        let weights = self.stake.split_front(n);
        let ghost moved = stakes0.take(k as int);
        assert(keys_sorted(moved)) by {
            assert forall|a: int, b: int| 0 <= a < b < moved.len() implies crate::order::lex_lt(
                #[trigger] moved[a].0,
                #[trigger] moved[b].0,
            ) by {
                assert(crate::order::lex_lt(stakes0[a].0, stakes0[b].0));
            }
        }
        let ghost members0 = self.members;
        let ghost stake1 = self.stake;
        let mut i: usize = 0;
        while i < weights.len()
            invariant
                entries_view(weights@) == moved,
                keys_sorted(moved),
                self.stake == stake1,
                self.total == old(self).total,
                self.claims == old(self).claims,
                self.config == old(self).config,
                self.hooks == old(self).hooks,
                self.successor == old(self).successor,
                self.admin == old(self).admin,
                self.height == old(self).height,
                weight_sum <= self.total,
                weight_sum == weight_of_keys(w0, moved),
                self.claims.wf(),
                i <= moved.len(),
                self.members.wf(),
                self.members.settled_by(block.height as int),
                forall|x: Seq<char>| #[trigger] value_of(self.members.current(), x) == if has_key(
                    moved.take(i as int),
                    x,
                ) {
                    None
                } else {
                    value_of(w0, x)
                },
                total_of(self.members.current()) == total_of(w0) - weight_of_keys(w0, moved.take(i as int)),
                forall|x: Seq<char>, h: int|
                    h < block.height ==> #[trigger] self.members.at(x, h) == members0.at(x, h),
            decreases moved.len() - i,
        {
            let key = weights[i].0.clone();
            let ghost kv = key@;
            assert(moved[i as int].0 == kv);
            assert(!has_key(moved.take(i as int), kv)) by {
                if has_key(moved.take(i as int), kv) {
                    let q = crate::sorted_map::key_index(moved.take(i as int), kv);
                    assert(crate::order::lex_lt(moved[q].0, moved[i as int].0));
                    crate::order::lemma_lex_irreflexive(kv);
                }
            }
            assert(moved.take(i + 1).drop_last() =~= moved.take(i as int));
            assert forall|x: Seq<char>| has_key(moved.take(i + 1), x) == (has_key(moved.take(i as int), x) || x == kv) by {
                if has_key(moved.take(i + 1), x) {
                    let q = crate::sorted_map::key_index(moved.take(i + 1), x);
                    if q < i {
                        assert(moved.take(i as int)[q].0 == x);
                    }
                }
                if has_key(moved.take(i as int), x) {
                    let q = crate::sorted_map::key_index(moved.take(i as int), x);
                    assert(moved.take(i + 1)[q].0 == x);
                }
                if x == kv {
                    assert(moved.take(i + 1)[i as int].0 == x);
                }
            }
            self.members.write(key, None, block.height);
            i = i + 1;
        }
        assert(moved.take(moved.len() as int) =~= moved);
        self.total = self.total - weight_sum;
        self.height = block.height;
        let claims = self.claims.split_front(nc);
        proof {
            lemma_sum_split(stakes0, k as int, stake_term());
            lemma_sum_split(claims0, kc as int, claim_term());
            assert(stakes0.take(k as int) + stakes0.skip(k as int) =~= stakes0);
            assert(claims0.take(kc as int) + claims0.skip(kc as int) =~= claims0);
            if old(self).stake_tracked() {
                assert forall|x: Seq<char>| #[trigger] value_of(self.weights(), x) == match value_of(
                    self.stakes(),
                    x,
                ) {
                    Some(s) => self.weight_for_stake(s),
                    None => None,
                } by {
                    crate::sorted_map::lemma_value_skip(stakes0, k as int, x);
                    assert(value_of(old(self).weights(), x) == match value_of(old(self).stakes(), x) {
                        Some(s) => old(self).weight_for_stake(s),
                        None => None,
                    });
                }
            }
        }
        Ok(MigrationMsg { contract, weights, claims, amount: token_sum, denom })
    }

    /// The weight of `addr` as of `at_height`, or now.
    pub fn query_member(&self, addr: &str, at_height: Option<u64>) -> (r: Option<u128>)
        requires
            self.wf(),
        ensures
            r == match at_height {
                Some(h) => self.weight_at(addr@, h as int),
                None => value_of(self.weights(), addr@),
            },
    {
        match at_height {
            Some(h) => self.members.may_load_at_height(addr, h),
            None => self.members.may_load(addr),
        }
    }

    /// Members ascending by address, after `start_after`; a larger `limit`
    /// than the page size allows is cut down, not refused.
    pub fn list_members(&self, start_after: Option<String>, limit: Option<u32>) -> (r: Vec<Member>)
        requires
            self.wf(),
        ensures
            is_member_page(self.weights(), opt_view(start_after), limit, r@),
    {
        let lim = match limit {
            Some(l) => l,
            None => DEFAULT_LIMIT,
        };
        let lim: usize = if lim > MAX_LIMIT { MAX_LIMIT as usize } else { lim as usize };
        let ghost w = self.members.current();
        let n = self.members.len();
        let start: usize = match &start_after {
            None => 0,
            Some(a) => {
                let i = self.members.lower_bound(a.as_str());
                let s = if i < n && same_text(self.members.key_at(i).as_str(), a.as_str()) {
                    i + 1
                } else {
                    i
                };
                proof {
                    assert forall|j: int| 0 <= j < s implies !lex_lt(a@, #[trigger] w[j].0) by {
                        if j < i {
                            lemma_lex_asymmetric(w[j].0, a@);
                        } else {
                            lemma_lex_irreflexive(a@);
                        }
                    }
                    if s < w.len() {
                        if s == i {
                            lemma_lex_total(w[i as int].0, a@);
                        } else {
                            self.members.lemma_sorted();
                            assert(lex_lt(w[i as int].0, w[s as int].0));
                        }
                    }
                    assert(is_page_start(w, a@, s as int));
                    let c = page_start(w, Some(a@));
                    if c < s {
                        if c < w.len() {
                            assert(lex_lt(a@, w[c].0));
                        }
                    } else if c > s {
                        assert(!lex_lt(a@, w[s as int].0));
                    }
                    assert(page_start(w, opt_view(start_after)) == s);
                }
                s
            },
        };
        let end = if n - start < lim { n } else { start + lim };
        let mut out: Vec<Member> = Vec::new();
        let mut i: usize = start;
        while i < end
            invariant
                self.wf(),
                w == self.members.current(),
                start <= i <= end <= w.len(),
                out@.len() == i - start,
                forall|q: int|
                    0 <= q < out@.len() ==> (#[trigger] out@[q]).addr@ == w[start + q].0 && out@[q].weight
                        == w[start + q].1,
            decreases end - i,
        {
            out.push(Member { addr: self.members.key_at(i).clone(), weight: self.members.value_at(i) });
            i = i + 1;
        }
        out
    }

    /// The latest height at which a weight changed; later calls must not
    /// come from an earlier block.
    pub fn last_height(&self) -> (r: u64)
        ensures
            r == self.height(),
    {
        self.height
    }

    pub fn query_total_weight(&self) -> (r: u128)
        ensures
            r == self.total(),
    {
        self.total
    }

    /// The stake of `addr` (zero if it has none) and the staked asset.
    pub fn query_staked(&self, addr: &str) -> (r: StakedResponse)
        requires
            self.wf(),
        ensures
            r.stake == or_zero(value_of(self.stakes(), addr@)),
            r.denom == self.config().denom,
    {
        let stake = match self.stake.find(addr) {
            Some(i) => *self.stake.value_at(i),
            None => 0,
        };
        StakedResponse { stake, denom: self.config.denom.duplicate() }
    }

    pub fn query_claims(&self, addr: &str) -> (r: Vec<Claim>)
        requires
            self.wf(),
        ensures
            r@ == claims_of(self.claims(), addr@),
    {
        self.claims.query_claims(addr)
    }

    pub fn query_admin(&self) -> (r: Option<String>)
        ensures
            r == self.admin(),
    {
        match &self.admin {
            Some(a) => Some(a.clone()),
            None => None,
        }
    }

    pub fn query_hooks(&self) -> (r: Vec<String>)
        ensures
            r@ == self.hooks(),
    {
        let mut out: Vec<String> = Vec::new();
        let mut i: usize = 0;
        while i < self.hooks.len()
            invariant
                i <= self.hooks@.len(),
                out@ == self.hooks@.take(i as int),
            decreases self.hooks@.len() - i,
        {
            out.push(self.hooks[i].clone());
            i = i + 1;
            assert(out@ =~= self.hooks@.take(i as int));
        }
        assert(self.hooks@.take(self.hooks@.len() as int) =~= self.hooks@);
        out
    }

    pub fn query_config(&self) -> (r: Config)
        ensures
            r == self.config(),
    {
        self.config.duplicate()
    }

    /// Adds a claim of `amount` for `addr`, payable at `release_at`.
    pub fn add_claim(&mut self, addr: String, amount: u128, release_at: Expiration)
        requires
            old(self).wf(),
        ensures
            final(self).wf(),
            claims_of(final(self).claims(), addr@) == claims_of(old(self).claims(), addr@).push(
                Claim { amount, release_at },
            ),
            forall|x: Seq<char>|
                x != addr@ ==> value_of(final(self).claims(), x) == value_of(old(self).claims(), x),
            final(self).stakes() == old(self).stakes(),
            final(self).weights() == old(self).weights(),
            final(self).total() == old(self).total(),
            final(self).height() == old(self).height(),
            same_settings(*old(self), *final(self)),
            old(self).stake_tracked() ==> final(self).stake_tracked(),
    {
        self.claims.create_claim(addr, amount, release_at);
    }

    /// Carries out a request: a migration batch or a claim.
    pub fn execute(&mut self, block: &BlockInfo, sender: String, msg: ExecuteMsg) -> (r: Result<
        Response,
        ContractError,
    >)
        requires
            old(self).wf(),
            old(self).height() <= block.height,
        ensures
            final(self).wf(),
            final(self).height() <= block.height,
            r is Err ==> *final(self) == *old(self),
            msg matches ExecuteMsg::MigrateToDaoDao { num, num_claims } ==> {
                &&& r is Err <==> old(self).migration_error(num, num_claims) is Some
                &&& r matches Err(e) ==> old(self).migration_error(num, num_claims) == Some(e)
                &&& r matches Ok(resp) ==> resp.messages@.len() == 1 && (resp.messages@[0] matches OutMsg::Migrate(
                    m,
                ) && migrated(*old(self), *final(self), *block, num, num_claims, m) && migration_step(
                    *old(self),
                    *final(self),
                    m,
                )) && resp.attributes@.len() == 1 && resp.attributes@[0].0@ == "action"@
                    && resp.attributes@[0].1@ == "migrate"@
            },
            msg matches ExecuteMsg::Claim { callback } ==> {
                &&& r is Err <==> old(self).claim_error(*block, sender@) is Some
                &&& r matches Err(e) ==> old(self).claim_error(*block, sender@) == Some(e)
                &&& r is Ok ==> claims_of(final(self).claims(), sender@) == pending(
                    claims_of(old(self).claims(), sender@),
                    *block,
                )
                &&& forall|x: Seq<char>|
                    x != sender@ ==> value_of(final(self).claims(), x) == value_of(old(self).claims(), x)
                &&& r matches Ok(resp) ==> claimed(*old(self), *block, sender, callback, resp)
                &&& final(self).stakes() == old(self).stakes()
                &&& final(self).weights() == old(self).weights()
                &&& final(self).total() == old(self).total()
                &&& forall|x: Seq<char>, h: int| #[trigger] final(self).weight_at(x, h) == old(self).weight_at(x, h)
            },
            same_settings(*old(self), *final(self)),
            old(self).stake_tracked() ==> final(self).stake_tracked(),
    {
        match msg {
            ExecuteMsg::MigrateToDaoDao { num, num_claims } => {
                let m = match self.migrate_batch(block, num, num_claims) {
                    Ok(m) => m,
                    Err(e) => return Err(e),
                };
                let mut messages: Vec<OutMsg> = Vec::new();
                messages.push(OutMsg::Migrate(m));
                let mut attributes: Vec<(String, String)> = Vec::new();
                attributes.push((String::from_str("action"), String::from_str("migrate")));
                proof {
                    reveal_strlit("action");
                    reveal_strlit("migrate");
                }
                Ok(Response { messages, attributes })
            },
            ExecuteMsg::Claim { callback } => self.claim(block, sender, callback),
        }
    }

    /// Answers a read-only request.
    pub fn query(&self, msg: QueryMsg) -> (r: QueryResponse)
        requires
            self.wf(),
        ensures
            match msg {
                QueryMsg::Claims { address } => r matches QueryResponse::Claims(v) && v@ == claims_of(
                    self.claims(),
                    address@,
                ),
                QueryMsg::Staked { address } => r matches QueryResponse::Staked(v) && v.stake == or_zero(
                    value_of(self.stakes(), address@),
                ) && v.denom == self.config().denom,
                QueryMsg::Admin {  } => r == QueryResponse::Admin(self.admin()),
                QueryMsg::TotalWeight {  } => r == QueryResponse::TotalWeight(self.total() as u128),
                QueryMsg::ListMembers { start_after, limit } => r matches QueryResponse::ListMembers(v)
                    && is_member_page(self.weights(), opt_view(start_after), limit, v@),
                QueryMsg::Member { addr, at_height } => r == QueryResponse::Member(
                    match at_height {
                        Some(h) => self.weight_at(addr@, h as int),
                        None => value_of(self.weights(), addr@),
                    },
                ),
                QueryMsg::Hooks {  } => r matches QueryResponse::Hooks(v) && v@ == self.hooks(),
                QueryMsg::Config {  } => r == QueryResponse::Config(self.config()),
            },
    {
        match msg {
            QueryMsg::Claims { address } => QueryResponse::Claims(self.query_claims(address.as_str())),
            QueryMsg::Staked { address } => QueryResponse::Staked(self.query_staked(address.as_str())),
            QueryMsg::Admin {  } => QueryResponse::Admin(self.query_admin()),
            QueryMsg::TotalWeight {  } => QueryResponse::TotalWeight(self.query_total_weight()),
            QueryMsg::ListMembers { start_after, limit } => QueryResponse::ListMembers(
                self.list_members(start_after, limit),
            ),
            QueryMsg::Member { addr, at_height } => QueryResponse::Member(
                self.query_member(addr.as_str(), at_height),
            ),
            QueryMsg::Hooks {  } => QueryResponse::Hooks(self.query_hooks()),
            QueryMsg::Config {  } => QueryResponse::Config(self.query_config()),
        }
    }

    /// Takes the ledger apart into plain values.
    pub fn into_parts(self) -> (r: LedgerParts)
        requires
            self.wf(),
        ensures
            parts_valid(r),
            r.config == self.config(),
            entries_view(r.stakes@) == self.stakes(),
            entries_view(r.weights@) == self.weights(),
            entries_view(r.claims@) == self.claims(),
            r.total == self.total(),
            r.hooks@ == self.hooks(),
            r.successor == self.successor(),
            r.height == self.height(),
    {
        proof {
            self.members.lemma_sorted();
            self.claims.lemma_sorted();
        }
        let ghost h0 = self.members.history();
        let ghost height = self.height;
        let (weights, history) = self.members.into_parts();
        proof {
            assert forall|j: int| 0 <= j < history@.len() implies (#[trigger] history@[j]).height <= height by {
                assert(crate::snapshot::history_view(history@)[j].1 == history@[j].height);
                assert(h0[j].1 <= height);
            }
        }
        LedgerParts {
            config: self.config,
            stakes: self.stake.into_vec(),
            weights,
            history,
            total: self.total,
            claims: self.claims.into_vec(),
            hooks: self.hooks,
            admin: self.admin,
            successor: self.successor,
            height: self.height,
        }
    }

    /// Puts a ledger together from plain values, when they make a
    /// well-formed one.
    pub fn from_parts(p: LedgerParts) -> (r: Option<Ledger>)
        ensures
            r is Some <==> parts_valid(p),
            r matches Some(l) ==> {
                &&& l.wf()
                &&& l.config() == p.config
                &&& l.stakes() == entries_view(p.stakes@)
                &&& l.weights() == entries_view(p.weights@)
                &&& l.claims() == entries_view(p.claims@)
                &&& l.total() == p.total
                &&& l.hooks() == p.hooks@
                &&& l.successor() == p.successor
                &&& l.height() == p.height
            },
    {
        if p.config.tokens_per_weight == 0 || p.config.min_bond == 0 {
            return None;
        }
        let mut j: usize = 0;
        while j < p.history.len()
            invariant
                j <= p.history@.len(),
                forall|q: int| 0 <= q < j ==> (#[trigger] p.history@[q]).height <= p.height,
            decreases p.history@.len() - j,
        {
            if p.history[j].height > p.height {
                return None;
            }
            j = j + 1;
        }
        match crate::snapshot::sum_weights(&p.weights) {
            Some(t) => {
                if t != p.total {
                    return None;
                }
            },
            None => return None,
        }
        let ghost hist = p.history@;
        let stake = match SortedMap::from_vec(p.stakes) {
            Some(m) => m,
            None => return None,
        };
        let members = match WeightSnapshot::from_parts(p.weights, p.history) {
            Some(m) => m,
            None => return None,
        };
        let claims = match ClaimStore::from_vec(p.claims) {
            Some(c) => c,
            None => return None,
        };
        proof {
            assert forall|q: int| 0 <= q < members.history().len() implies (#[trigger] members.history()[q]).1
                <= p.height by {
                assert(members.history()[q].1 == hist[q].height);
            }
        }
        Some(Ledger {
            config: p.config,
            stake,
            members,
            total: p.total,
            claims,
            hooks: p.hooks,
            admin: p.admin,
            successor: p.successor,
            height: p.height,
        })
    }
}


/// Where a page of members starts: after every address not above
/// `start_after`.
pub open spec fn page_start(w: Entries<u128>, start_after: Option<Seq<char>>) -> int {
    match start_after {
        None => 0,
        Some(a) => choose|s: int| is_page_start(w, a, s),
    }
}

/// Every address before `s` is at most `a`, and the one at `s` is above it.
pub open spec fn is_page_start(w: Entries<u128>, a: Seq<char>, s: int) -> bool {
    0 <= s <= w.len() && (forall|j: int| 0 <= j < s ==> !lex_lt(a, #[trigger] w[j].0)) && (s < w.len()
        ==> lex_lt(a, w[s].0))
}

/// How many members a page holds at most: 10 unless asked otherwise, and
/// never more than 30.
pub open spec fn page_limit(limit: Option<u32>) -> int {
    let l = match limit {
        Some(l) => l as int,
        None => DEFAULT_LIMIT as int,
    };
    if l > MAX_LIMIT { MAX_LIMIT as int } else { l }
}

/// `page` lists, in order, the members of `w` from `page_start` on, as many
/// as `page_limit` allows.
pub open spec fn is_member_page(
    w: Entries<u128>,
    start_after: Option<Seq<char>>,
    limit: Option<u32>,
    page: Seq<Member>,
) -> bool {
    let s = page_start(w, start_after);
    &&& page.len() == if w.len() - s < page_limit(limit) { w.len() - s } else { page_limit(limit) }
    &&& forall|i: int|
        0 <= i < page.len() ==> (#[trigger] page[i]).addr@ == w[s + i].0 && page[i].weight == w[s
            + i].1
}

pub open spec fn opt_view(a: Option<String>) -> Option<Seq<char>> {
    match a {
        Some(s) => Some(s@),
        None => None,
    }
}

/// The settings no operation but their own setters change: configuration,
/// subscribers, admin and successor.
pub open spec fn same_settings(before: Ledger, after: Ledger) -> bool {
    &&& after.config() == before.config()
    &&& after.hooks() == before.hooks()
    &&& after.admin() == before.admin()
    &&& after.successor() == before.successor()
}

/// A successful migration of `num` stakes and `num_claims` claim lists at
/// `block`, taking `before` to `after` and sending `m`: the first entries in
/// ascending order of address go to the successor in the native
/// denomination, with their tokens; the rest stay; the migrated addresses
/// lose their weight now but keep their history, and the total drops by
/// that weight.
pub open spec fn migrated(
    before: Ledger,
    after: Ledger,
    block: BlockInfo,
    num: u64,
    num_claims: u64,
    m: MigrationMsg,
) -> bool {
    let k = batch_len(before.stakes().len(), num);
    let kc = batch_len(before.claims().len(), num_claims);
    let moved = before.stakes().take(k);
    &&& Some(m.contract) == before.successor()
    &&& before.config().denom == Denom::Native(m.denom)
    &&& entries_view(m.weights@) == moved
    &&& entries_view(m.claims@) == before.claims().take(kc)
    &&& m.amount == staked_sum(moved) + claim_list_sum(before.claims().take(kc))
    &&& after.stakes() == before.stakes().skip(k)
    &&& after.claims() == before.claims().skip(kc)
    &&& after.total() == before.total() - weight_of_keys(before.weights(), moved)
    &&& forall|x: Seq<char>| #[trigger] has_key(moved, x) ==> value_of(after.weights(), x) is None
    &&& forall|x: Seq<char>|
        !has_key(moved, x) ==> #[trigger] value_of(after.weights(), x) == value_of(before.weights(), x)
    &&& forall|x: Seq<char>, h: int|
        h < block.height ==> #[trigger] after.weight_at(x, h) == before.weight_at(x, h)
}

/// The answer to a successful claim by `sender` at `block`: one payout of
/// the matured amount in the native denomination, plain or through
/// `callback`, and the attributes action, tokens and sender.
pub open spec fn claimed(
    before: Ledger,
    block: BlockInfo,
    sender: String,
    callback: Option<CallbackData>,
    resp: Response,
) -> bool {
    let due = matured_sum(claims_of(before.claims(), sender@), block) as u128;
    before.config().denom matches Denom::Native(d) && resp.messages@ == seq![
        OutMsg::Payout(
            match callback {
                None => PayoutMsg::Send { to: sender, amount: due, denom: d },
                Some(cb) => PayoutMsg::Callback { to: sender, callback: cb, amount: due, denom: d },
            },
        ),
    ] && resp.attributes@.len() == 3 && resp.attributes@[0].0@ == "action"@ && resp.attributes@[0].1@
        == "claim"@ && resp.attributes@[1].0@ == "tokens"@ && resp.attributes@[1].1@ == decimal(
        due as nat,
    ) + seq![' '] + d@ && resp.attributes@[2].0@ == "sender"@ && resp.attributes@[2].1 == sender
}

/// What one migration call does to the two stores: the entries it sends,
/// followed by those that stay, are the entries there were, and it transfers
/// exactly the tokens of what it sends.
pub open spec fn migration_step(before: Ledger, after: Ledger, m: MigrationMsg) -> bool {
    &&& entries_view(m.weights@) + after.stakes() == before.stakes()
    &&& entries_view(m.claims@) + after.claims() == before.claims()
    &&& m.amount == staked_sum(entries_view(m.weights@)) + claim_list_sum(entries_view(m.claims@))
}

/// The stake entries sent by a run of migration messages, in order.
pub open spec fn sent_stakes(msgs: Seq<MigrationMsg>) -> Entries<u128>
    decreases msgs.len(),
{
    if msgs.len() == 0 {
        Seq::empty()
    } else {
        entries_view(msgs[0].weights@) + sent_stakes(msgs.drop_first())
    }
}

/// The claim entries sent by a run of migration messages, in order.
pub open spec fn sent_claims(msgs: Seq<MigrationMsg>) -> Entries<Vec<Claim>>
    decreases msgs.len(),
{
    if msgs.len() == 0 {
        Seq::empty()
    } else {
        entries_view(msgs[0].claims@) + sent_claims(msgs.drop_first())
    }
}

/// The tokens transferred by a run of migration messages.
pub open spec fn sent_amount(msgs: Seq<MigrationMsg>) -> int
    decreases msgs.len(),
{
    if msgs.len() == 0 {
        0
    } else {
        msgs[0].amount + sent_amount(msgs.drop_first())
    }
}

/// Migration calls repeated until both stores are empty send every stake and
/// every claim list exactly once, in ascending order of address, and
/// transfer in all exactly the tokens that were staked plus those that were
/// claimed.
pub proof fn lemma_migration_run(states: Seq<Ledger>, msgs: Seq<MigrationMsg>)
    requires
        states.len() == msgs.len() + 1,
        forall|i: int| 0 <= i < msgs.len() ==> migration_step(states[i], states[i + 1], #[trigger] msgs[i]),
        states.last().stakes().len() == 0,
        states.last().claims().len() == 0,
    ensures
        sent_stakes(msgs) == states[0].stakes(),
        sent_claims(msgs) == states[0].claims(),
        sent_amount(msgs) == staked_sum(states[0].stakes()) + claim_list_sum(states[0].claims()),
        states[0].wf() ==> keys_sorted(sent_stakes(msgs)) && keys_sorted(sent_claims(msgs)),
    decreases msgs.len(),
{
    if msgs.len() == 0 {
        assert(states[0].stakes() =~= Seq::<(Seq<char>, u128)>::empty());
        assert(states[0].claims() =~= Seq::<(Seq<char>, Vec<Claim>)>::empty());
        assert(staked_sum(states[0].stakes()) == 0);
        assert(claim_list_sum(states[0].claims()) == 0);
    } else {
        let rest_states = states.drop_first();
        let rest = msgs.drop_first();
        assert forall|i: int| 0 <= i < rest.len() implies migration_step(
            rest_states[i],
            rest_states[i + 1],
            #[trigger] rest[i],
        ) by {
            assert(migration_step(states[i + 1], states[i + 2], msgs[i + 1]));
        }
        lemma_migration_run(rest_states, rest);
        assert(migration_step(states[0], states[1], msgs[0]));
        crate::sorted_map::lemma_sum_concat(entries_view(msgs[0].weights@), states[1].stakes(), stake_term());
        crate::sorted_map::lemma_sum_concat(entries_view(msgs[0].claims@), states[1].claims(), claim_term());
    }
    if states[0].wf() {
        states[0].claims.lemma_sorted();
    }
}

/// What a successful update of `addr` to `stake` guarantees, with `sent`
/// notifications: afterwards the weight is in line with the stake, and if it
/// already was, nothing changed and nobody was notified.
pub open spec fn update_outcome(before: Ledger, after: Ledger, addr: Seq<char>, stake: u128, sent: nat) -> bool {
    &&& after.weight_in_line(addr, stake)
    &&& before.weight_in_line(addr, stake) ==> after == before && sent == 0
}

/// Updating twice with the same stake: the second update is a no-op, it
/// leaves the ledger as the first left it and sends no notification.
pub proof fn lemma_update_idempotent(
    start: Ledger,
    mid: Ledger,
    end: Ledger,
    addr: Seq<char>,
    stake: u128,
    first_sent: nat,
    second_sent: nat,
)
    requires
        update_outcome(start, mid, addr, stake, first_sent),
        update_outcome(mid, end, addr, stake, second_sent),
    ensures
        end == mid,
        second_sent == 0,
{
}

} // verus!
