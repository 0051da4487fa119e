//! Membership weights with their history: the current weights, plus a log of
//! every change with the height it happened at and the value it replaced.

use vstd::prelude::*;
use crate::sorted_map::{
    Entries, SortedMap, entries_view, keys_sorted, lemma_sum_nonneg, lemma_sum_split, sum_by, value_of,
};

verus! {

/// One change of an address's weight: at `height`, replacing `before`.
#[derive(Debug)]
pub struct Change {
    pub addr: String,
    pub height: u64,
    pub before: Option<u128>,
}

pub type ChangeView = (Seq<char>, u64, Option<u128>);

pub open spec fn history_view(h: Seq<Change>) -> Seq<ChangeView> {
    h.map_values(|c: Change| (c.addr@, c.height, c.before))
}

/// The sum of the weights in `v`, or `None` when it does not fit.
pub fn sum_weights(v: &Vec<(String, u128)>) -> (r: Option<u128>)
    ensures
        r is None <==> total_of(entries_view(v@)) > u128::MAX,
        r matches Some(t) ==> t == total_of(entries_view(v@)),
{
    let ghost s = entries_view(v@);
    let ghost f = |w: u128| weight_value(w);
    assert forall|w: u128| #[trigger] f(w) >= 0 by {}
    let mut sum: u128 = 0;
    let mut i: usize = 0;
    while i < v.len()
        invariant
            s == entries_view(v@),
            f == (|w: u128| weight_value(w)),
            forall|w: u128| #[trigger] f(w) >= 0,
            i <= s.len(),
            sum == sum_by(s.take(i as int), f),
        decreases s.len() - i,
    {
        assert(s.take(i + 1).drop_last() =~= s.take(i as int));
        assert(s.take(i + 1).last() == s[i as int]);
        assert(s[i as int].1 == v@[i as int].1);
        match sum.checked_add(v[i].1) {
            Some(t) => sum = t,
            None => {
                proof {
                    lemma_sum_split(s, i + 1, f);
                    lemma_sum_nonneg(s.skip(i + 1), f);
                }
                return None;
            },
        }
        i = i + 1;
    }
    assert(s.take(s.len() as int) =~= s);
    Some(sum)
}

/// The value that the first change of `k` after height `h`, from index `i`
/// on, replaced; `None` when there is no such change.
pub open spec fn first_change_after(hist: Seq<ChangeView>, k: Seq<char>, h: int, i: int) -> Option<
    Option<u128>,
>
    decreases hist.len() - i,
{
    if i < 0 || i >= hist.len() {
        None
    } else if hist[i].0 == k && hist[i].1 > h {
        Some(hist[i].2)
    } else {
        first_change_after(hist, k, h, i + 1)
    }
}

/// The weight of `k` as of height `h`: what the first later change replaced,
/// else the current value.
pub open spec fn weight_at(hist: Seq<ChangeView>, cur: Entries<u128>, k: Seq<char>, h: int) -> Option<u128> {
    match first_change_after(hist, k, h, 0) {
        Some(v) => v,
        None => value_of(cur, k),
    }
}

pub open spec fn weight_value(w: u128) -> int {
    w as int
}

/// The sum of all current weights.
pub open spec fn total_of(cur: Entries<u128>) -> int {
    sum_by(cur, |w: u128| weight_value(w))
}

proof fn lemma_first_change_push(hist: Seq<ChangeView>, c: ChangeView, k: Seq<char>, h: int, i: int)
    requires
        0 <= i <= hist.len(),
    ensures
        first_change_after(hist.push(c), k, h, i) == (match first_change_after(hist, k, h, i) {
            Some(v) => Some(v),
            None => if c.0 == k && c.1 > h { Some(c.2) } else { None },
        }),
    decreases hist.len() - i,
{
    assert(hist.push(c)[i] == if i < hist.len() { hist[i] } else { c });
    if i < hist.len() {
        lemma_first_change_push(hist, c, k, h, i + 1);
    } else {
        assert(first_change_after(hist.push(c), k, h, i + 1) is None);
    }
}

proof fn lemma_no_change_after(hist: Seq<ChangeView>, k: Seq<char>, h: int, i: int)
    requires
        forall|j: int| 0 <= j < hist.len() ==> (#[trigger] hist[j]).1 <= h,
    ensures
        first_change_after(hist, k, h, i) is None,
    decreases hist.len() - i,
{
    if 0 <= i < hist.len() {
        lemma_no_change_after(hist, k, h, i + 1);
    }
}

pub struct WeightSnapshot {
    current: SortedMap<u128>,
    history: Vec<Change>,
}

impl WeightSnapshot {
    pub closed spec fn current(&self) -> Entries<u128> {
        self.current@
    }

    pub closed spec fn history(&self) -> Seq<ChangeView> {
        history_view(self.history@)
    }

    /// The weight of `k` as of height `h`.
    pub open spec fn at(&self, k: Seq<char>, h: int) -> Option<u128> {
        weight_at(self.history(), self.current(), k, h)
    }

    /// Every recorded change happened at or before height `h`.
    pub open spec fn settled_by(&self, h: int) -> bool {
        forall|j: int| 0 <= j < self.history().len() ==> (#[trigger] self.history()[j]).1 <= h
    }

    pub closed spec fn wf(&self) -> bool {
        self.current.wf()
    }

    pub proof fn lemma_sorted(&self)
        requires
            self.wf(),
        ensures
            keys_sorted(self.current()),
    {
    }

    /// Past the last recorded change, the weight as of a height is the
    /// current weight.
    pub proof fn lemma_settled(&self, x: Seq<char>, h: int, h0: int)
        requires
            self.settled_by(h0),
            h0 <= h,
        ensures
            self.at(x, h) == value_of(self.current(), x),
    {
        lemma_no_change_after(self.history(), x, h, 0);
    }

    /// The snapshot with current weights `current` and change log `history`,
    /// when the addresses of `current` are strictly ascending.
    pub fn from_parts(current: Vec<(String, u128)>, history: Vec<Change>) -> (r: Option<Self>)
        ensures
            r is Some <==> keys_sorted(entries_view(current@)),
            r matches Some(m) ==> m.wf() && m.current() == entries_view(current@) && m.history()
                == history_view(history@),
    {
        match SortedMap::from_vec(current) {
            Some(c) => Some(WeightSnapshot { current: c, history }),
            None => None,
        }
    }

    pub fn into_parts(self) -> (r: (Vec<(String, u128)>, Vec<Change>))
        ensures
            entries_view(r.0@) == self.current(),
            history_view(r.1@) == self.history(),
    {
        (self.current.into_vec(), self.history)
    }

    pub fn new() -> (r: Self)
        ensures
            r.wf(),
            r.current() == Seq::<(Seq<char>, u128)>::empty(),
            r.history() == Seq::<ChangeView>::empty(),
    {
        let r = WeightSnapshot { current: SortedMap::new(), history: Vec::new() };
        assert(r.history() =~= Seq::<ChangeView>::empty());
        r
    }

    /// The current weight of `k`.
    pub fn may_load(&self, k: &str) -> (r: Option<u128>)
        requires
            self.wf(),
        ensures
            r == value_of(self.current(), k@),
    {
        match self.current.find(k) {
            Some(i) => Some(*self.current.value_at(i)),
            None => None,
        }
    }

    /// The weight of `k` as of height `h`.
    pub fn may_load_at_height(&self, k: &str, h: u64) -> (r: Option<u128>)
        requires
            self.wf(),
        ensures
            r == self.at(k@, h as int),
    {
        let n = self.history.len();
        let mut i: usize = 0;
        while i < n
            invariant
                n == self.history().len(),
                i <= n,
                first_change_after(self.history(), k@, h as int, 0) == first_change_after(
                    self.history(),
                    k@,
                    h as int,
                    i as int,
                ),
            decreases n - i,
        {
            let c = &self.history[i];
            assert(self.history()[i as int] == (c.addr@, c.height, c.before));
            if c.height > h && crate::order::same_text(c.addr.as_str(), k) {
                return c.before;
            }
            i = i + 1;
        }
        self.may_load(k)
    }

    pub fn len(&self) -> (r: usize)
        ensures
            r == self.current().len(),
    {
        self.current.len()
    }

    pub fn key_at(&self, i: usize) -> (r: &String)
        requires
            i < self.current().len(),
        ensures
            r@ == self.current()[i as int].0,
    {
        self.current.key_at(i)
    }

    pub fn value_at(&self, i: usize) -> (r: u128)
        requires
            i < self.current().len(),
        ensures
            r == self.current()[i as int].1,
    {
        *self.current.value_at(i)
    }

    pub fn lower_bound(&self, k: &str) -> (r: usize)
        requires
            self.wf(),
        ensures
            r <= self.current().len(),
            forall|j: int| 0 <= j < r ==> crate::order::lex_lt(#[trigger] self.current()[j].0, k@),
            r < self.current().len() ==> !crate::order::lex_lt(self.current()[r as int].0, k@),
    {
        self.current.lower_bound(k)
    }

    /// Sets the weight of `k` (or takes it away, for `None`) at `height`,
    /// keeping what it was at every earlier height.
    pub fn write(&mut self, k: String, v: Option<u128>, height: u64)
        requires
            old(self).wf(),
            old(self).settled_by(height as int),
        ensures
            final(self).wf(),
            final(self).settled_by(height as int),
            value_of(final(self).current(), k@) == v,
            forall|x: Seq<char>| x != k@ ==> value_of(final(self).current(), x) == value_of(
                old(self).current(),
                x,
            ),
            total_of(final(self).current()) == total_of(old(self).current()) - (match value_of(
                old(self).current(),
                k@,
            ) {
                Some(o) => o as int,
                None => 0,
            }) + (match v {
                Some(w) => w as int,
                None => 0,
            }),
            forall|x: Seq<char>, h: int| h < height ==> #[trigger] final(self).at(x, h) == old(self).at(x, h),
            forall|x: Seq<char>, h: int| h >= height ==> #[trigger] final(self).at(x, h) == value_of(
                final(self).current(),
                x,
            ),
    {
        let ghost hist0 = self.history();
        let ghost cur0 = self.current();
        let before = self.may_load(k.as_str());
        let change = Change { addr: k.clone(), height, before };
        self.history.push(change);
        let ghost c: ChangeView = (k@, height, before);
        proof {
            assert(self.history() =~= hist0.push(c));
        }
        let f = Ghost(|w: u128| weight_value(w));
        match v {
            Some(w) => {
                self.current.set(k, w);
                assert(sum_by(self.current@, f@) == sum_by(cur0, f@) + f@(w) - (match value_of(cur0, c.0) {
                    Some(o) => f@(o),
                    None => 0,
                }));
            },
            None => {
                let _ = self.current.remove(k.as_str());
                assert(sum_by(self.current@, f@) == sum_by(cur0, f@) - (match value_of(cur0, c.0) {
                    Some(o) => f@(o),
                    None => 0,
                }));
            },
        }
        proof {
            assert forall|x: Seq<char>, h: int| h < height implies #[trigger] self.at(x, h) == weight_at(
                hist0,
                cur0,
                x,
                h,
            ) by {
                lemma_first_change_push(hist0, c, x, h, 0);
            }
            assert forall|x: Seq<char>, h: int| h >= height implies #[trigger] self.at(x, h) == value_of(
                self.current(),
                x,
            ) by {
                lemma_first_change_push(hist0, c, x, h, 0);
                lemma_no_change_after(hist0, x, h, 0);
            }
        }
    }
}

} // verus!
