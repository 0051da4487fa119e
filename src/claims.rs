//! Unbonding claims: amounts that leave the stake and become payable once
//! their release point has passed.

use vstd::prelude::*;
use crate::sorted_map::{Entries, SortedMap, entries_view, front_len, keys_sorted, value_of};

verus! {

/// The block that a call runs in: its height and its time in nanoseconds.
#[derive(Clone, Copy, Debug, PartialEq, Eq, Structural)]
pub struct BlockInfo {
    pub height: u64,
    pub time: u64,
}

/// When a claim becomes payable.
#[derive(Clone, Copy, Debug, PartialEq, Eq, Structural)]
pub enum Expiration {
    AtHeight(u64),
    AtTime(u64),
    Never,
}

pub open spec fn expired(e: Expiration, b: BlockInfo) -> bool {
    match e {
        Expiration::AtHeight(h) => b.height >= h,
        Expiration::AtTime(t) => b.time >= t,
        Expiration::Never => false,
    }
}

impl Expiration {
    pub fn is_expired(&self, b: &BlockInfo) -> (r: bool)
        ensures
            r == expired(*self, *b),
    {
        match self {
            Expiration::AtHeight(h) => b.height >= *h,
            Expiration::AtTime(t) => b.time >= *t,
            Expiration::Never => false,
        }
    }
}

#[derive(Clone, Copy, Debug, PartialEq, Eq, Structural)]
pub struct Claim {
    pub amount: u128,
    pub release_at: Expiration,
}

/// The sum of all amounts in `s`.
pub open spec fn amount_sum(s: Seq<Claim>) -> int
    decreases s.len(),
{
    if s.len() == 0 {
        0
    } else {
        amount_sum(s.drop_last()) + s.last().amount
    }
}

/// The sum of the amounts in `s` that have matured by `b`.
pub open spec fn matured_sum(s: Seq<Claim>, b: BlockInfo) -> int
    decreases s.len(),
{
    if s.len() == 0 {
        0
    } else {
        matured_sum(s.drop_last(), b) + if expired(s.last().release_at, b) {
            s.last().amount as int
        } else {
            0
        }
    }
}

/// The claims of `s` that have not matured by `b`, in their order.
pub open spec fn pending(s: Seq<Claim>, b: BlockInfo) -> Seq<Claim>
    decreases s.len(),
{
    if s.len() == 0 {
        s
    } else if expired(s.last().release_at, b) {
        pending(s.drop_last(), b)
    } else {
        pending(s.drop_last(), b).push(s.last())
    }
}

/// The claims recorded for `k` (none if it has no entry).
pub open spec fn claims_of(s: Entries<Vec<Claim>>, k: Seq<char>) -> Seq<Claim> {
    match value_of(s, k) {
        Some(v) => v@,
        None => Seq::empty(),
    }
}

/// What a release of the matured claims comes to.
pub enum Release {
    /// The matured amounts were taken out; this is their sum.
    Paid(u128),
    /// Their sum does not fit in 128 bits.
    Overflow,
}

/// The pending claims of every address.
pub struct ClaimStore {
    map: SortedMap<Vec<Claim>>,
}

impl ClaimStore {
    pub closed spec fn view(&self) -> Entries<Vec<Claim>> {
        self.map@
    }

    pub closed spec fn wf(&self) -> bool {
        self.map.wf()
    }

    pub proof fn lemma_sorted(&self)
        requires
            self.wf(),
        ensures
            keys_sorted(self.view()),
    {
    }

    /// The store holding `entries`, when their addresses are strictly
    /// ascending.
    pub fn from_vec(entries: Vec<(String, Vec<Claim>)>) -> (r: Option<Self>)
        ensures
            r is Some <==> keys_sorted(entries_view(entries@)),
            r matches Some(m) ==> m.wf() && m.view() == entries_view(entries@),
    {
        match SortedMap::from_vec(entries) {
            Some(map) => Some(ClaimStore { map }),
            None => None,
        }
    }

    pub fn into_vec(self) -> (r: Vec<(String, Vec<Claim>)>)
        ensures
            entries_view(r@) == self.view(),
    {
        self.map.into_vec()
    }

    pub fn new() -> (r: Self)
        ensures
            r.wf(),
            r.view() == Seq::<(Seq<char>, Vec<Claim>)>::empty(),
    {
        ClaimStore { map: SortedMap::new() }
    }

    /// The claims of `addr`, oldest first.
    pub fn query_claims(&self, addr: &str) -> (r: Vec<Claim>)
        requires
            self.wf(),
        ensures
            r@ == claims_of(self.view(), addr@),
    {
        match self.map.find(addr) {
            Some(i) => {
                let v = self.map.value_at(i);
                let mut out: Vec<Claim> = Vec::new();
                let mut j: usize = 0;
                while j < v.len()
                    invariant
                        j <= v@.len(),
                        out@ == v@.take(j as int),
                    decreases v@.len() - j,
                {
                    out.push(v[j]);
                    j = j + 1;
                    assert(out@ =~= v@.take(j as int));
                }
                assert(v@.take(v@.len() as int) =~= v@);
                out
            },
            None => Vec::new(),
        }
    }

    pub fn len(&self) -> (r: usize)
        ensures
            r == self.view().len(),
    {
        self.map.len()
    }

    pub fn value_at(&self, i: usize) -> (r: &Vec<Claim>)
        requires
            i < self.view().len(),
        ensures
            *r == self.view()[i as int].1,
    {
        self.map.value_at(i)
    }

    /// Takes out the entries of the first `n` addresses (all of them if
    /// there are fewer), in ascending order of address.
    pub fn split_front(&mut self, n: usize) -> (r: Vec<(String, Vec<Claim>)>)
        requires
            old(self).wf(),
        ensures
            final(self).wf(),
            entries_view(r@) == old(self).view().take(front_len(old(self).view().len(), n)),
            final(self).view() == old(self).view().skip(front_len(old(self).view().len(), n)),
    {
        self.map.split_front(n)
    }

    /// Adds a claim of `amount` for `addr`, payable at `release_at`.
    pub fn create_claim(&mut self, addr: String, amount: u128, release_at: Expiration)
        requires
            old(self).wf(),
        ensures
            final(self).wf(),
            claims_of(final(self).view(), addr@) == claims_of(old(self).view(), addr@).push(
                Claim { amount, release_at },
            ),
            forall|x: Seq<char>| x != addr@ ==> value_of(final(self).view(), x) == value_of(
                old(self).view(),
                x,
            ),
    {
        let mut list = self.query_claims(addr.as_str());
        list.push(Claim { amount, release_at });
        self.map.set(addr, list);
    }

    /// Takes out the claims of `addr` that have matured by `block`, and hands
    /// back the sum of their amounts. On overflow nothing changes.
    pub fn release(&mut self, addr: &String, block: &BlockInfo) -> (r: Release)
        requires
            old(self).wf(),
        ensures
            final(self).wf(),
            r matches Release::Overflow <==> matured_sum(claims_of(old(self).view(), addr@), *block)
                > u128::MAX,
            r matches Release::Paid(x) ==> x == matured_sum(claims_of(old(self).view(), addr@), *block),
            r matches Release::Paid(x) && x > 0 ==> claims_of(final(self).view(), addr@) == pending(
                claims_of(old(self).view(), addr@),
                *block,
            ),
            (r matches Release::Paid(x) && x > 0) || *final(self) == *old(self),
            forall|x: Seq<char>| x != addr@ ==> value_of(final(self).view(), x) == value_of(
                old(self).view(),
                x,
            ),
    {
        let list = self.query_claims(addr.as_str());
        let ghost s = list@;
        let mut kept: Vec<Claim> = Vec::new();
        let mut sum: u128 = 0;
        let mut j: usize = 0;
        while j < list.len()
            invariant
                s == list@,
                s == claims_of(self.view(), addr@),
                self.wf(),
                *self == *old(self),
                j <= s.len(),
                kept@ == pending(s.take(j as int), *block),
                sum == matured_sum(s.take(j as int), *block),
            decreases s.len() - j,
        {
            let c = list[j];
            assert(s.take(j + 1).drop_last() =~= s.take(j as int));
            proof { lemma_matured_sum_grows(s.take(j + 1), *block); }
            if c.release_at.is_expired(block) {
                match sum.checked_add(c.amount) {
                    Some(t) => sum = t,
                    None => {
                        proof {
                            lemma_matured_sum_prefix(s, (j + 1) as int, *block);
                            assert(s.take(s.len() as int) =~= s);
                        }
                        return Release::Overflow;
                    },
                }
            } else {
                kept.push(c);
            }
            j = j + 1;
        }
        assert(s.take(s.len() as int) =~= s);
        if sum > 0 {
            self.map.set(addr.clone(), kept);
        }
        Release::Paid(sum)
    }
}

/// The sum of all amounts in `v`, or `None` when it does not fit.
pub fn amount_total(v: &Vec<Claim>) -> (r: Option<u128>)
    ensures
        r is None <==> amount_sum(v@) > u128::MAX,
        r matches Some(t) ==> t == amount_sum(v@),
{
    let mut sum: u128 = 0;
    let mut j: usize = 0;
    while j < v.len()
        invariant
            j <= v@.len(),
            sum == amount_sum(v@.take(j as int)),
        decreases v@.len() - j,
    {
        assert(v@.take(j + 1).drop_last() =~= v@.take(j as int));
        match sum.checked_add(v[j].amount) {
            Some(t) => sum = t,
            None => {
                proof {
                    lemma_amount_sum_prefix(v@, (j + 1) as int);
                }
                return None;
            },
        }
        j = j + 1;
    }
    assert(v@.take(v@.len() as int) =~= v@);
    Some(sum)
}

proof fn lemma_amount_sum_prefix(s: Seq<Claim>, k: int)
    requires
        0 <= k <= s.len(),
    ensures
        amount_sum(s.take(k)) <= amount_sum(s),
    decreases s.len() - k,
{
    if k < s.len() {
        lemma_amount_sum_prefix(s, k + 1);
        assert(s.take(k + 1).drop_last() =~= s.take(k));
    } else {
        assert(s.take(k) =~= s);
    }
}

pub proof fn lemma_amount_sum_nonneg(s: Seq<Claim>)
    ensures
        amount_sum(s) >= 0,
    decreases s.len(),
{
    if s.len() > 0 {
        lemma_amount_sum_nonneg(s.drop_last());
    }
}

proof fn lemma_matured_sum_grows(s: Seq<Claim>, b: BlockInfo)
    ensures
        matured_sum(s, b) >= 0,
    decreases s.len(),
{
    if s.len() > 0 {
        lemma_matured_sum_grows(s.drop_last(), b);
    }
}

proof fn lemma_matured_sum_prefix(s: Seq<Claim>, k: int, b: BlockInfo)
    requires
        0 <= k <= s.len(),
    ensures
        matured_sum(s.take(k), b) <= matured_sum(s, b),
    decreases s.len() - k,
{
    if k < s.len() {
        lemma_matured_sum_prefix(s, k + 1, b);
        assert(s.take(k + 1).drop_last() =~= s.take(k));
    } else {
        assert(s.take(k) =~= s);
    }
}

} // verus!
