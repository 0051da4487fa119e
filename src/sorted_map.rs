//! A map from addresses to values kept as a vector sorted strictly ascending
//! by address, so that walking it visits addresses in ascending order.

use vstd::prelude::*;
use crate::order::{
    key_lt, lemma_lex_asymmetric, lemma_lex_irreflexive, lemma_lex_total, lemma_lex_transitive, lex_lt,
    same_text,
};

verus! {

/// The abstract contents: (address, value) pairs.
pub type Entries<V> = Seq<(Seq<char>, V)>;

pub open spec fn entries_view<V>(v: Seq<(String, V)>) -> Entries<V> {
    v.map_values(|e: (String, V)| (e.0@, e.1))
}

/// Addresses strictly ascending, hence unique.
pub open spec fn keys_sorted<V>(s: Entries<V>) -> bool {
    forall|i: int, j: int| 0 <= i < j < s.len() ==> lex_lt(#[trigger] s[i].0, #[trigger] s[j].0)
}

pub open spec fn has_key<V>(s: Entries<V>, k: Seq<char>) -> bool {
    exists|i: int| 0 <= i < s.len() && s[i].0 == k
}

/// Where `k` stands, when it is recorded.
pub open spec fn key_index<V>(s: Entries<V>, k: Seq<char>) -> int {
    choose|i: int| 0 <= i < s.len() && s[i].0 == k
}

/// The value recorded for `k`, if any.
pub open spec fn value_of<V>(s: Entries<V>, k: Seq<char>) -> Option<V> {
    if has_key(s, k) {
        Some(s[key_index(s, k)].1)
    } else {
        None
    }
}

/// The sum of `f` over all values.
pub open spec fn sum_by<V>(s: Entries<V>, f: spec_fn(V) -> int) -> int
    decreases s.len(),
{
    if s.len() == 0 {
        0
    } else {
        sum_by(s.drop_last(), f) + f(s.last().1)
    }
}

pub proof fn lemma_value_at<V>(s: Entries<V>, i: int)
    requires
        keys_sorted(s),
        0 <= i < s.len(),
    ensures
        value_of(s, s[i].0) == Some(s[i].1),
{
    let k = s[i].0;
    assert(has_key(s, k));
    let j = key_index(s, k);
    if j < i {
        assert(lex_lt(s[j].0, s[i].0));
        lemma_lex_irreflexive(k);
    } else if i < j {
        assert(lex_lt(s[i].0, s[j].0));
        lemma_lex_irreflexive(k);
    }
}

proof fn lemma_value_drop_first<V>(s: Entries<V>, k: Seq<char>)
    requires
        keys_sorted(s),
        s.len() > 0,
    ensures
        value_of(s.drop_first(), k) == if k == s[0].0 { None } else { value_of(s, k) },
{
    let t = s.drop_first();
    if has_key(t, k) {
        let j = key_index(t, k);
        assert(t[j] == s[j + 1]);
        lemma_value_at(s, j + 1);
        assert(keys_sorted(t)) by {
            assert forall|a: int, b: int| 0 <= a < b < t.len() implies lex_lt(#[trigger] t[a].0, #[trigger] t[b].0) by {
                assert(lex_lt(s[a + 1].0, s[b + 1].0));
            }
        }
        lemma_value_at(t, j);
        if k == s[0].0 {
            assert(lex_lt(s[0].0, s[j + 1].0));
            lemma_lex_irreflexive(k);
        }
    } else if k != s[0].0 && has_key(s, k) {
        let i = key_index(s, k);
        assert(t[i - 1].0 == k);
    }
}

pub proof fn lemma_sorted_skip<V>(s: Entries<V>, k: int)
    requires
        keys_sorted(s),
        0 <= k <= s.len(),
    ensures
        keys_sorted(s.skip(k)),
{
    let t = s.skip(k);
    assert forall|a: int, b: int| 0 <= a < b < t.len() implies lex_lt(#[trigger] t[a].0, #[trigger] t[b].0) by {
        assert(lex_lt(s[a + k].0, s[b + k].0));
    }
}

/// Past the first `k` entries, an address has its value unless it is among
/// those entries.
pub proof fn lemma_value_skip<V>(s: Entries<V>, k: int, x: Seq<char>)
    requires
        keys_sorted(s),
        0 <= k <= s.len(),
    ensures
        value_of(s.skip(k), x) == if has_key(s.take(k), x) { None } else { value_of(s, x) },
    decreases k,
{
    if k == 0 {
        assert(s.skip(0) =~= s);
    } else {
        lemma_value_skip(s, k - 1, x);
        let t = s.skip(k - 1);
        lemma_sorted_skip(s, k - 1);
        lemma_value_drop_first(t, x);
        assert(t.drop_first() =~= s.skip(k));
        assert(t[0] == s[k - 1]);
        if has_key(s.take(k), x) {
            let q = key_index(s.take(k), x);
            if q < k - 1 {
                assert(s.take(k - 1)[q].0 == x);
            }
        }
        if has_key(s.take(k - 1), x) {
            let q = key_index(s.take(k - 1), x);
            assert(s.take(k)[q].0 == x);
        }
        if s[k - 1].0 == x {
            assert(s.take(k)[k - 1].0 == x);
        }
    }
}

/// Two sorted sequences that record the same value for every address are
/// the same sequence: the contents fix the order.
pub proof fn lemma_sorted_unique<V>(s1: Entries<V>, s2: Entries<V>)
    requires
        keys_sorted(s1),
        keys_sorted(s2),
        forall|k: Seq<char>| #[trigger] value_of(s1, k) == value_of(s2, k),
    ensures
        s1 == s2,
    decreases s1.len(),
{
    if s1.len() == 0 || s2.len() == 0 {
        if s1.len() > 0 {
            lemma_value_at(s1, 0);
            assert(value_of(s2, s1[0].0) is None);
        }
        if s2.len() > 0 {
            lemma_value_at(s2, 0);
            assert(value_of(s1, s2[0].0) is None);
        }
        assert(s1 =~= s2);
    } else {
        let k1 = s1[0].0;
        let k2 = s2[0].0;
        lemma_value_at(s1, 0);
        lemma_value_at(s2, 0);
        assert(value_of(s2, k1) is Some);
        assert(value_of(s1, k2) is Some);
        let j = key_index(s2, k1);
        let i = key_index(s1, k2);
        lemma_value_at(s2, j);
        lemma_value_at(s1, i);
        if j > 0 && i > 0 {
            assert(lex_lt(s2[0].0, s2[j].0));
            assert(lex_lt(s1[0].0, s1[i].0));
            lemma_lex_asymmetric(k2, k1);
        }
        assert(k1 == k2);
        let t1 = s1.drop_first();
        let t2 = s2.drop_first();
        assert forall|k: Seq<char>| #[trigger] value_of(t1, k) == value_of(t2, k) by {
            lemma_value_drop_first(s1, k);
            lemma_value_drop_first(s2, k);
            assert(value_of(s1, k) == value_of(s2, k));
        }
        assert(keys_sorted(t1)) by {
            assert forall|a: int, b: int| 0 <= a < b < t1.len() implies lex_lt(#[trigger] t1[a].0, #[trigger] t1[b].0) by {
                assert(lex_lt(s1[a + 1].0, s1[b + 1].0));
            }
        }
        assert(keys_sorted(t2)) by {
            assert forall|a: int, b: int| 0 <= a < b < t2.len() implies lex_lt(#[trigger] t2[a].0, #[trigger] t2[b].0) by {
                assert(lex_lt(s2[a + 1].0, s2[b + 1].0));
            }
        }
        lemma_sorted_unique(t1, t2);
        assert(s1 =~= seq![s1[0]] + t1);
        assert(s2 =~= seq![s2[0]] + t2);
    }
}

pub proof fn lemma_sum_concat<V>(a: Entries<V>, b: Entries<V>, f: spec_fn(V) -> int)
    ensures
        sum_by(a + b, f) == sum_by(a, f) + sum_by(b, f),
    decreases b.len(),
{
    if b.len() == 0 {
        assert(a + b =~= a);
    } else {
        lemma_sum_concat(a, b.drop_last(), f);
        assert((a + b).drop_last() =~= a + b.drop_last());
    }
}

pub proof fn lemma_sum_split<V>(s: Entries<V>, k: int, f: spec_fn(V) -> int)
    requires
        0 <= k <= s.len(),
    ensures
        sum_by(s, f) == sum_by(s.take(k), f) + sum_by(s.skip(k), f),
{
    assert(s =~= s.take(k) + s.skip(k));
    lemma_sum_concat(s.take(k), s.skip(k), f);
}

proof fn lemma_sum_single<V>(e: (Seq<char>, V), f: spec_fn(V) -> int)
    ensures
        sum_by(seq![e], f) == f(e.1),
{
    assert(seq![e].drop_last() =~= Seq::<(Seq<char>, V)>::empty());
    assert(sum_by(Seq::<(Seq<char>, V)>::empty(), f) == 0);
}

pub proof fn lemma_sum_update<V>(s: Entries<V>, i: int, e: (Seq<char>, V), f: spec_fn(V) -> int)
    requires
        0 <= i < s.len(),
    ensures
        sum_by(s.update(i, e), f) == sum_by(s, f) - f(s[i].1) + f(e.1),
{
    let t = s.update(i, e);
    assert(s =~= s.take(i) + seq![s[i]] + s.skip(i + 1));
    assert(t =~= s.take(i) + seq![e] + s.skip(i + 1));
    lemma_sum_concat(s.take(i) + seq![s[i]], s.skip(i + 1), f);
    lemma_sum_concat(s.take(i), seq![s[i]], f);
    lemma_sum_concat(s.take(i) + seq![e], s.skip(i + 1), f);
    lemma_sum_concat(s.take(i), seq![e], f);
    lemma_sum_single(s[i], f);
    lemma_sum_single(e, f);
}

pub proof fn lemma_sum_insert<V>(s: Entries<V>, i: int, e: (Seq<char>, V), f: spec_fn(V) -> int)
    requires
        0 <= i <= s.len(),
    ensures
        sum_by(s.insert(i, e), f) == sum_by(s, f) + f(e.1),
{
    assert(s =~= s.take(i) + s.skip(i));
    assert(s.insert(i, e) =~= s.take(i) + seq![e] + s.skip(i));
    lemma_sum_concat(s.take(i) + seq![e], s.skip(i), f);
    lemma_sum_concat(s.take(i), seq![e], f);
    lemma_sum_concat(s.take(i), s.skip(i), f);
    lemma_sum_single(e, f);
}

pub proof fn lemma_sum_remove<V>(s: Entries<V>, i: int, f: spec_fn(V) -> int)
    requires
        0 <= i < s.len(),
    ensures
        sum_by(s.remove(i), f) == sum_by(s, f) - f(s[i].1),
{
    assert(s =~= s.take(i) + seq![s[i]] + s.skip(i + 1));
    assert(s.remove(i) =~= s.take(i) + s.skip(i + 1));
    lemma_sum_concat(s.take(i) + seq![s[i]], s.skip(i + 1), f);
    lemma_sum_concat(s.take(i), seq![s[i]], f);
    lemma_sum_concat(s.take(i), s.skip(i + 1), f);
    lemma_sum_single(s[i], f);
}

pub proof fn lemma_sum_nonneg<V>(s: Entries<V>, f: spec_fn(V) -> int)
    requires
        forall|v: V| #[trigger] f(v) >= 0,
    ensures
        sum_by(s, f) >= 0,
    decreases s.len(),
{
    if s.len() > 0 {
        lemma_sum_nonneg(s.drop_last(), f);
    }
}

/// With no negative terms, one term is at most the sum.
pub proof fn lemma_value_le_sum<V>(s: Entries<V>, i: int, f: spec_fn(V) -> int)
    requires
        0 <= i < s.len(),
        forall|v: V| #[trigger] f(v) >= 0,
    ensures
        f(s[i].1) <= sum_by(s, f),
{
    lemma_sum_remove(s, i, f);
    lemma_sum_nonneg(s.remove(i), f);
}

pub struct SortedMap<V> {
    entries: Vec<(String, V)>,
}

impl<V> View for SortedMap<V> {
    type V = Entries<V>;

    closed spec fn view(&self) -> Entries<V> {
        entries_view(self.entries@)
    }
}

impl<V> SortedMap<V> {
    pub open spec fn wf(&self) -> bool {
        keys_sorted(self@)
    }

    pub fn new() -> (r: Self)
        ensures
            r.wf(),
            r@ == Seq::<(Seq<char>, V)>::empty(),
    {
        let r = SortedMap { entries: Vec::new() };
        assert(r@ =~= Seq::<(Seq<char>, V)>::empty());
        r
    }

    pub fn len(&self) -> (r: usize)
        ensures
            r == self@.len(),
    {
        self.entries.len()
    }

    pub fn key_at(&self, i: usize) -> (r: &String)
        requires
            i < self@.len(),
        ensures
            r@ == self@[i as int].0,
    {
        &self.entries[i].0
    }

    pub fn value_at(&self, i: usize) -> (r: &V)
        requires
            i < self@.len(),
        ensures
            *r == self@[i as int].1,
    {
        &self.entries[i].1
    }

    /// The first index whose address is not below `k` (the length if none).
    pub fn lower_bound(&self, k: &str) -> (r: usize)
        requires
            self.wf(),
        ensures
            r <= self@.len(),
            forall|j: int| 0 <= j < r ==> lex_lt(#[trigger] self@[j].0, k@),
            r < self@.len() ==> !lex_lt(self@[r as int].0, k@),
    {
        let n = self.entries.len();
        let mut i: usize = 0;
        while i < n
            invariant
                n == self@.len(),
                i <= n,
                forall|j: int| 0 <= j < i ==> lex_lt(#[trigger] self@[j].0, k@),
            decreases n - i,
        {
            if !key_lt(self.entries[i].0.as_str(), k) {
                return i;
            }
            i = i + 1;
        }
        i
    }

    /// Where `k` stands, if it is recorded.
    pub fn find(&self, k: &str) -> (r: Option<usize>)
        requires
            self.wf(),
        ensures
            r == None::<usize> <==> !has_key(self@, k@),
            r matches Some(i) ==> i < self@.len() && self@[i as int].0 == k@
                && value_of(self@, k@) == Some(self@[i as int].1),
            !has_key(self@, k@) ==> value_of(self@, k@) == None::<V>,
    {
        let i = self.lower_bound(k);
        if i < self.entries.len() && same_text(self.entries[i].0.as_str(), k) {
            proof { lemma_value_at(self@, i as int); }
            return Some(i);
        }
        proof {
            if has_key(self@, k@) {
                let j = choose|j: int| 0 <= j < self@.len() && self@[j].0 == k@;
                if j < i {
                    lemma_lex_irreflexive(k@);
                } else {
                    if j > i {
                        lemma_lex_total(self@[i as int].0, k@);
                        assert(lex_lt(self@[i as int].0, self@[j].0));
                        lemma_lex_asymmetric(self@[i as int].0, k@);
                    }
                }
            }
        }
        None
    }

    /// Records `v` for `k`, replacing any earlier value.
    pub fn set(&mut self, k: String, v: V)
        requires
            old(self).wf(),
        ensures
            final(self).wf(),
            value_of(final(self)@, k@) == Some(v),
            forall|x: Seq<char>| x != k@ ==> value_of(final(self)@, x) == value_of(old(self)@, x),
            forall|f: spec_fn(V) -> int| #[trigger] sum_by(final(self)@, f) == sum_by(old(self)@, f) + f(v)
                - (match value_of(old(self)@, k@) { Some(o) => f(o), None => 0 }),
    {
        let ghost s = self@;
        let i = self.lower_bound(k.as_str());
        if i < self.entries.len() && same_text(self.entries[i].0.as_str(), k.as_str()) {
            proof { lemma_value_at(s, i as int); }
            self.entries.set(i, (k, v));
            proof {
                let e = (k@, v);
                assert(self@ =~= s.update(i as int, e));
                assert forall|a: int, b: int| 0 <= a < b < self@.len() implies lex_lt(
                    #[trigger] self@[a].0,
                    #[trigger] self@[b].0,
                ) by {
                    assert(s[a].0 == self@[a].0 && s[b].0 == self@[b].0);
                }
                lemma_value_at(self@, i as int);
                assert forall|x: Seq<char>| x != k@ implies value_of(self@, x) == value_of(s, x) by {
                    if has_key(s, x) {
                        let j = choose|j: int| 0 <= j < s.len() && s[j].0 == x;
                        lemma_value_at(s, j);
                        lemma_value_at(self@, j);
                    }
                    if has_key(self@, x) {
                        let j = choose|j: int| 0 <= j < self@.len() && self@[j].0 == x;
                        assert(s[j].0 == x);
                    }
                }
                assert forall|f: spec_fn(V) -> int| #[trigger] sum_by(self@, f) == sum_by(s, f) + f(v)
                    - (match value_of(s, k@) { Some(o) => f(o), None => 0 }) by {
                    lemma_sum_update(s, i as int, e, f);
                }
            }
        } else {
            proof {
                if i < s.len() {
                    lemma_lex_total(s[i as int].0, k@);
                }
                if has_key(s, k@) {
                    let j = choose|j: int| 0 <= j < s.len() && s[j].0 == k@;
                    if j < i {
                        lemma_lex_irreflexive(k@);
                    } else if j > i {
                        assert(lex_lt(s[i as int].0, s[j].0));
                        lemma_lex_asymmetric(s[i as int].0, k@);
                    }
                }
            }
            self.entries.insert(i, (k, v));
            proof {
                let e = (k@, v);
                assert(self@ =~= s.insert(i as int, e));
                assert forall|a: int, b: int| 0 <= a < b < self@.len() implies lex_lt(
                    #[trigger] self@[a].0,
                    #[trigger] self@[b].0,
                ) by {
                    if b < i {
                    } else if b == i {
                        assert(lex_lt(s[a].0, k@));
                    } else if a == i {
                        assert(self@[b].0 == s[b - 1].0);
                        if b - 1 > i {
                            assert(lex_lt(s[i as int].0, s[b - 1].0));
                            lemma_lex_transitive(k@, s[i as int].0, s[b - 1].0);
                        }
                    } else if a < i {
                        assert(lex_lt(s[a].0, s[b - 1].0));
                    } else {
                        assert(lex_lt(s[a - 1].0, s[b - 1].0));
                    }
                }
                lemma_value_at(self@, i as int);
                assert forall|x: Seq<char>| x != k@ implies value_of(self@, x) == value_of(s, x) by {
                    if has_key(s, x) {
                        let j = choose|j: int| 0 <= j < s.len() && s[j].0 == x;
                        lemma_value_at(s, j);
                        if j < i {
                            lemma_value_at(self@, j);
                        } else {
                            assert(self@[j + 1] == s[j]);
                            lemma_value_at(self@, j + 1);
                        }
                    }
                    if has_key(self@, x) {
                        let j = choose|j: int| 0 <= j < self@.len() && self@[j].0 == x;
                        if j < i {
                            assert(s[j].0 == x);
                        } else if j > i {
                            assert(s[j - 1].0 == x);
                        }
                    }
                }
                assert forall|f: spec_fn(V) -> int| #[trigger] sum_by(self@, f) == sum_by(s, f) + f(v)
                    - (match value_of(s, k@) { Some(o) => f(o), None => 0 }) by {
                    lemma_sum_insert(s, i as int, e, f);
                }
            }
        }
    }

    /// The map holding `entries`, when their addresses are strictly
    /// ascending.
    pub fn from_vec(entries: Vec<(String, V)>) -> (r: Option<Self>)
        ensures
            r is Some <==> keys_sorted(entries_view(entries@)),
            r matches Some(m) ==> m.wf() && m@ == entries_view(entries@),
    {
        let ghost s = entries_view(entries@);
        let n = entries.len();
        let mut i: usize = 1;
        while i < n
            invariant
                n == s.len(),
                s == entries_view(entries@),
                1 <= i || n == 0,
                forall|a: int, b: int| 0 <= a < b < i && b < n ==> lex_lt(#[trigger] s[a].0, #[trigger] s[b].0),
            decreases n - i,
        {
            if !key_lt(entries[i - 1].0.as_str(), entries[i].0.as_str()) {
                assert(s[i - 1].0 == entries@[i - 1].0@);
                assert(s[i as int].0 == entries@[i as int].0@);
                return None;
            }
            assert forall|a: int, b: int| 0 <= a < b < i + 1 && b < n implies lex_lt(
                #[trigger] s[a].0,
                #[trigger] s[b].0,
            ) by {
                if b == i && a < i - 1 {
                    lemma_lex_transitive(s[a].0, s[i - 1].0, s[b].0);
                }
            }
            i = i + 1;
        }
        Some(SortedMap { entries })
    }

    pub fn into_vec(self) -> (r: Vec<(String, V)>)
        ensures
            entries_view(r@) == self@,
    {
        self.entries
    }

    /// Takes `k` out, handing back its value.
    pub fn remove(&mut self, k: &str) -> (r: Option<V>)
        requires
            old(self).wf(),
        ensures
            final(self).wf(),
            r == value_of(old(self)@, k@),
            value_of(final(self)@, k@) == None::<V>,
            forall|x: Seq<char>| x != k@ ==> value_of(final(self)@, x) == value_of(old(self)@, x),
            forall|f: spec_fn(V) -> int| #[trigger] sum_by(final(self)@, f) == sum_by(old(self)@, f)
                - (match r { Some(o) => f(o), None => 0 }),
    {
        let ghost s = self@;
        match self.find(k) {
            None => None,
            Some(i) => {
                let (_, v) = self.entries.remove(i);
                proof {
                    assert(self@ =~= s.remove(i as int));
                    assert forall|a: int, b: int| 0 <= a < b < self@.len() implies lex_lt(
                        #[trigger] self@[a].0,
                        #[trigger] self@[b].0,
                    ) by {
                        if b < i {
                        } else if a < i {
                            assert(lex_lt(s[a].0, s[b + 1].0));
                        } else {
                            assert(lex_lt(s[a + 1].0, s[b + 1].0));
                        }
                    }
                    if has_key(self@, k@) {
                        let j = key_index(self@, k@);
                        if j < i {
                            assert(lex_lt(s[j].0, s[i as int].0));
                        } else {
                            assert(lex_lt(s[i as int].0, s[j + 1].0));
                        }
                        lemma_lex_irreflexive(k@);
                    }
                    assert forall|x: Seq<char>| x != k@ implies value_of(self@, x) == value_of(s, x) by {
                        if has_key(s, x) {
                            let j = key_index(s, x);
                            lemma_value_at(s, j);
                            if j < i {
                                lemma_value_at(self@, j);
                            } else {
                                assert(self@[j - 1] == s[j]);
                                lemma_value_at(self@, j - 1);
                            }
                        }
                        if has_key(self@, x) {
                            let j = key_index(self@, x);
                            if j < i {
                                assert(s[j].0 == x);
                            } else {
                                assert(s[j + 1].0 == x);
                            }
                        }
                    }
                    assert forall|f: spec_fn(V) -> int| #[trigger] sum_by(self@, f) == sum_by(s, f)
                        - f(v) by {
                        lemma_sum_remove(s, i as int, f);
                    }
                }
                Some(v)
            },
        }
    }

    /// Takes out the first `n` entries (all of them if there are fewer), in
    /// ascending order of address.
    pub fn split_front(&mut self, n: usize) -> (r: Vec<(String, V)>)
        requires
            old(self).wf(),
        ensures
            final(self).wf(),
            entries_view(r@) == old(self)@.take(front_len(old(self)@.len(), n)),
            final(self)@ == old(self)@.skip(front_len(old(self)@.len(), n)),
    {
        let ghost s = self@;
        let c = if n < self.entries.len() { n } else { self.entries.len() };
        let mut rest = self.entries.split_off(c);
        std::mem::swap(&mut self.entries, &mut rest);
        proof {
            assert(entries_view(rest@) =~= s.take(c as int));
            assert(self@ =~= s.skip(c as int));
            assert forall|a: int, b: int| 0 <= a < b < self@.len() implies lex_lt(
                #[trigger] self@[a].0,
                #[trigger] self@[b].0,
            ) by {
                assert(lex_lt(s[a + c].0, s[b + c].0));
            }
        }
        rest
    }
}

/// How many entries a request for `n` takes out of `len`.
pub open spec fn front_len(len: nat, n: usize) -> int {
    if (n as nat) < len { n as int } else { len as int }
}

} // verus!
