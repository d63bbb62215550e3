//! Small keyed tables (association lists with distinct keys) and the counters
//! built on them.

use vstd::prelude::*;

verus! {

/// Keys of a table: comparable and copyable by their view.
pub trait TableKey: View + Sized {
    fn same_key(&self, other: &Self) -> (r: bool)
        ensures
            r == (self@ == other@),
    ;

    fn copy_key(&self) -> (r: Self)
        ensures
            r@ == self@,
    ;
}

impl TableKey for String {
    fn same_key(&self, other: &Self) -> (r: bool) {
        *self == *other
    }

    fn copy_key(&self) -> (r: Self) {
        self.clone()
    }
}

impl TableKey for u64 {
    fn same_key(&self, other: &Self) -> (r: bool) {
        *self == *other
    }

    fn copy_key(&self) -> (r: Self) {
        *self
    }
}

impl TableKey for (String, String) {
    fn same_key(&self, other: &Self) -> (r: bool) {
        self.0 == other.0 && self.1 == other.1
    }

    fn copy_key(&self) -> (r: Self) {
        (self.0.clone(), self.1.clone())
    }
}

impl TableKey for u16 {
    fn same_key(&self, other: &Self) -> (r: bool) {
        *self == *other
    }

    fn copy_key(&self) -> (r: Self) {
        *self
    }
}

/// The map that an association list describes (later pairs win, though keys of a
/// well-formed table are distinct).
pub open spec fn pairs_map<KV, V>(s: Seq<(KV, V)>) -> Map<KV, V>
    decreases s.len(),
{
    if s.len() == 0 {
        Map::empty()
    } else {
        pairs_map(s.drop_last()).insert(s.last().0, s.last().1)
    }
}

/// The pairs with keys taken by their view.
pub open spec fn key_views<K: View, V>(s: Seq<(K, V)>) -> Seq<(K::V, V)> {
    s.map_values(|e: (K, V)| (e.0@, e.1))
}

/// No key occurs twice.
pub open spec fn distinct_keys<KV, V>(s: Seq<(KV, V)>) -> bool {
    forall|i: int, j: int| 0 <= i < j < s.len() ==> s[i].0 != s[j].0
}

pub proof fn lemma_pairs_map_dom<KV, V>(s: Seq<(KV, V)>, k: KV)
    ensures
        pairs_map(s).dom().contains(k) <==> exists|i: int| 0 <= i < s.len() && s[i].0 == k,
    decreases s.len(),
{
    if s.len() > 0 {
        lemma_pairs_map_dom(s.drop_last(), k);
        if pairs_map(s).dom().contains(k) && k != s.last().0 {
            let i = choose|i: int| 0 <= i < s.drop_last().len() && s.drop_last()[i].0 == k;
            assert(s[i].0 == k);
        }
        if exists|i: int| 0 <= i < s.len() && s[i].0 == k {
            let i = choose|i: int| 0 <= i < s.len() && s[i].0 == k;
            if i < s.len() - 1 {
                assert(s.drop_last()[i].0 == k);
            }
        }
    }
}

pub proof fn lemma_pairs_map_at<KV, V>(s: Seq<(KV, V)>, i: int)
    requires
        distinct_keys(s),
        0 <= i < s.len(),
    ensures
        pairs_map(s).dom().contains(s[i].0),
        pairs_map(s)[s[i].0] == s[i].1,
    decreases s.len(),
{
    if i < s.len() - 1 {
        lemma_pairs_map_at(s.drop_last(), i);
        assert(s[i].0 != s.last().0);
    }
}

pub proof fn lemma_pairs_map_update<KV, V>(s: Seq<(KV, V)>, i: int, v: V)
    requires
        distinct_keys(s),
        0 <= i < s.len(),
    ensures
        pairs_map(s.update(i, (s[i].0, v))) == pairs_map(s).insert(s[i].0, v),
        distinct_keys(s.update(i, (s[i].0, v))),
    decreases s.len(),
{
    let u = s.update(i, (s[i].0, v));
    if i < s.len() - 1 {
        lemma_pairs_map_update(s.drop_last(), i, v);
        assert(u.drop_last() == s.drop_last().update(i, (s[i].0, v)));
        assert(s[i].0 != s.last().0);
        assert(pairs_map(u) =~= pairs_map(s).insert(s[i].0, v));
    } else {
        assert(u.drop_last() == s.drop_last());
        assert(pairs_map(u) =~= pairs_map(s).insert(s[i].0, v));
    }
}

pub proof fn lemma_pairs_map_insert_at<KV, V>(s: Seq<(KV, V)>, pos: int, k: KV, v: V)
    requires
        distinct_keys(s),
        0 <= pos <= s.len(),
        !pairs_map(s).dom().contains(k),
    ensures
        pairs_map(s.insert(pos, (k, v))) == pairs_map(s).insert(k, v),
        distinct_keys(s.insert(pos, (k, v))),
    decreases s.len(),
{
    let t = s.insert(pos, (k, v));
    assert forall|i: int| 0 <= i < s.len() implies s[i].0 != k by {
        lemma_pairs_map_at(s, i);
    }
    if pos == s.len() {
        assert(t.drop_last() == s);
        assert(t == s.push((k, v)));
    } else {
        let d = s.drop_last();
        lemma_pairs_map_dom(s, k);
        lemma_pairs_map_dom(d, k);
        lemma_pairs_map_insert_at(d, pos, k, v);
        assert(t.drop_last() == d.insert(pos, (k, v)));
        assert(t.last() == s.last());
        assert(s.last().0 != k);
        assert(pairs_map(t) =~= pairs_map(s).insert(k, v));
    }
}

/// An association list with distinct keys.
pub struct Table<K, V> {
    pub(crate) entries: Vec<(K, V)>,
}

impl<K: TableKey, V> Table<K, V> {
    /// The pairs of the table, keys taken by their view.
    pub closed spec fn pairs(&self) -> Seq<(K::V, V)> {
        self.entries@.map_values(|e: (K, V)| (e.0@, e.1))
    }

    pub closed spec fn wf(&self) -> bool {
        distinct_keys(self.pairs())
    }

    /// The map the table holds.
    pub closed spec fn view(&self) -> Map<K::V, V> {
        pairs_map(self.pairs())
    }

    /// The facts that tie the spec views to the stored entries.
    pub(crate) proof fn lemma_reveal(&self)
        ensures
            self.pairs().len() == self.entries@.len(),
            forall|i: int|
                0 <= i < self.entries@.len() ==> #[trigger] self.pairs()[i] == (
                    self.entries@[i].0@,
                    self.entries@[i].1,
                ),
            self.view() == pairs_map(self.pairs()),
            self.wf() == distinct_keys(self.pairs()),
    {
    }

    pub fn new() -> (res: Self)
        ensures
            res.wf(),
            res.view() == Map::<K::V, V>::empty(),
            res.pairs() == Seq::<(K::V, V)>::empty(),
    {
        let res = Table { entries: Vec::new() };
        assert(res.pairs() == Seq::<(K::V, V)>::empty());
        res
    }

    pub fn len(&self) -> (n: usize)
        requires
            self.wf(),
        ensures
            n == self.view().dom().len(),
    {
        proof {
            self.lemma_dom_len();
        }
        self.entries.len()
    }

    pub(crate) proof fn lemma_dom_len(&self)
        requires
            self.wf(),
        ensures
            self.view().dom().len() == self.entries@.len(),
            self.view().dom().finite(),
    {
        lemma_pairs_map_len(self.pairs());
    }

    /// The position of `k`, if present.
    pub(crate) fn find(&self, k: &K) -> (res: Option<usize>)
        requires
            self.wf(),
        ensures
            match res {
                Some(i) => i < self.entries@.len() && self.entries@[i as int].0@ == k@
                    && self.view().dom().contains(k@) && self.view()[k@] == self.entries@[i as int].1,
                None => !self.view().dom().contains(k@),
            },
    {
        let mut i: usize = 0;
        while i < self.entries.len()
            invariant
                i <= self.entries@.len(),
                self.wf(),
                forall|j: int| 0 <= j < i ==> self.entries@[j].0@ != k@,
            decreases self.entries@.len() - i,
        {
            if self.entries[i].0.same_key(k) {
                proof {
                    assert(self.pairs()[i as int] == (self.entries@[i as int].0@, self.entries@[i as int].1));
                    lemma_pairs_map_at(self.pairs(), i as int);
                }
                return Some(i);
            }
            i += 1;
        }
        proof {
            lemma_pairs_map_dom(self.pairs(), k@);
            if self.view().dom().contains(k@) {
                let j = choose|j: int| 0 <= j < self.pairs().len() && self.pairs()[j].0 == k@;
                assert(self.entries@[j].0@ == k@);
            }
        }
        None
    }

    /// The value at position `i`.
    pub(crate) fn value_at(&self, i: usize) -> (v: &V)
        requires
            i < self.entries@.len(),
        ensures
            *v == self.entries@[i as int].1,
    {
        &self.entries[i].1
    }

    /// The entries, for reading.
    pub fn as_vec(&self) -> (r: &Vec<(K, V)>)
        requires
            self.wf(),
        ensures
            r@.len() == self.pairs().len(),
            forall|i: int| #![trigger r@[i]] 0 <= i < r@.len() ==> (r@[i].0@, r@[i].1) == self.pairs()[i],
            forall|i: int|
                0 <= i < r@.len() ==> self.view().dom().contains(#[trigger] r@[i].0@)
                    && self.view()[r@[i].0@] == r@[i].1,
            forall|i: int, j: int| 0 <= i < j < r@.len() ==> r@[i].0@ != r@[j].0@,
            r@.len() == self.view().dom().len(),
    {
        proof {
            assert forall|i: int| 0 <= i < self.entries@.len() implies self.view().dom().contains(
                #[trigger] self.entries@[i].0@,
            ) && self.view()[self.entries@[i].0@] == self.entries@[i].1 by {
                assert(self.pairs()[i] == (self.entries@[i].0@, self.entries@[i].1));
                lemma_pairs_map_at(self.pairs(), i);
            }
            assert forall|i: int, j: int|
                0 <= i < j < self.entries@.len() implies self.entries@[i].0@
                != self.entries@[j].0@ by {
                assert(self.pairs()[i].0 == self.entries@[i].0@);
                assert(self.pairs()[j].0 == self.entries@[j].0@);
            }
            self.lemma_dom_len();
        }
        &self.entries
    }

    /// Sets the value at position `i`.
    pub(crate) fn set_at(&mut self, i: usize, v: V)
        requires
            old(self).wf(),
            i < old(self).entries@.len(),
        ensures
            final(self).wf(),
            final(self).entries@.len() == old(self).entries@.len(),
            final(self).view() == old(self).view().insert(old(self).entries@[i as int].0@, v),
            final(self).pairs() == old(self).pairs().update(i as int, (old(self).pairs()[i as int].0, v)),
    {
        let key = self.entries[i].0.copy_key();
        let ghost old_pairs = self.pairs();
        self.entries.set(i, (key, v));
        proof {
            lemma_pairs_map_update(old_pairs, i as int, v);
            assert(self.pairs() == old_pairs.update(i as int, (old_pairs[i as int].0, v)));
        }
    }

    /// A table holding `pairs`; `None` when a key occurs twice.
    pub fn from_pairs(pairs: Vec<(K, V)>) -> (res: Option<Self>)
        ensures
            res is Some <==> distinct_keys(key_views(pairs@)),
            res matches Some(t) ==> t.wf() && t.pairs() == key_views(pairs@)
                && t.view() == pairs_map(key_views(pairs@)),
    {
        let ghost pv = key_views(pairs@);
        let mut i: usize = 0;
        while i < pairs.len()
            invariant
                i <= pairs@.len(),
                pv == key_views(pairs@),
                forall|a: int, b: int| 0 <= a < b < pairs@.len() && a < i ==> pv[a].0 != pv[b].0,
            decreases pairs@.len() - i,
        {
            let mut j: usize = i + 1;
            while j < pairs.len()
                invariant
                    i < j <= pairs@.len(),
                    pv == key_views(pairs@),
                    forall|a: int, b: int| 0 <= a < b < pairs@.len() && a < i ==> pv[a].0 != pv[b].0,
                    forall|b: int| i < b < j ==> pv[i as int].0 != pv[b].0,
                decreases pairs@.len() - j,
            {
                if pairs[i].0.same_key(&pairs[j].0) {
                    assert(pv[i as int].0 == pv[j as int].0);
                    return None;
                }
                j += 1;
            }
            i += 1;
        }
        let t = Table { entries: pairs };
        Some(t)
    }

    /// Replaces the value at position `i`, handing back the previous one.
    pub(crate) fn replace_at(&mut self, i: usize, v: V) -> (prev: V)
        requires
            old(self).wf(),
            i < old(self).entries@.len(),
        ensures
            final(self).wf(),
            prev == old(self).entries@[i as int].1,
            final(self).entries@.len() == old(self).entries@.len(),
            final(self).entries@[i as int].0@ == old(self).entries@[i as int].0@,
            final(self).view() == old(self).view().insert(old(self).entries@[i as int].0@, v),
            final(self).pairs() == old(self).pairs().update(i as int, (old(self).pairs()[i as int].0, v)),
    {
        let ghost old_pairs = self.pairs();
        let (k, prev) = self.entries.remove(i);
        self.entries.insert(i, (k, v));
        proof {
            assert(self.pairs() == old_pairs.update(i as int, (old_pairs[i as int].0, v)));
            lemma_pairs_map_update(old_pairs, i as int, v);
        }
        prev
    }

    /// Removes `k` when present.
    pub fn remove(&mut self, k: &K)
        requires
            old(self).wf(),
        ensures
            final(self).wf(),
            final(self).view() == old(self).view().remove(k@),
    {
        match self.find(k) {
            Some(i) => {
                let ghost old_pairs = self.pairs();
                proof {
                    self.lemma_reveal();
                }
                let _ = self.entries.remove(i);
                proof {
                    lemma_pairs_map_remove_at(old_pairs, i as int);
                    assert(self.pairs() =~= old_pairs.remove(i as int));
                }
            },
            None => {
                assert(self.view().remove(k@) =~= self.view());
            },
        }
    }

    /// Inserts a key that is not present.
    pub(crate) fn insert_new(&mut self, pos: usize, k: K, v: V)
        requires
            old(self).wf(),
            pos <= old(self).entries@.len(),
            !old(self).view().dom().contains(k@),
        ensures
            final(self).wf(),
            final(self).entries@ == old(self).entries@.insert(pos as int, (k, v)),
            final(self).view() == old(self).view().insert(k@, v),
            final(self).pairs() == old(self).pairs().insert(pos as int, (k@, v)),
    {
        let ghost old_pairs = self.pairs();
        let ghost kv = k@;
        self.entries.insert(pos, (k, v));
        proof {
            lemma_pairs_map_insert_at(old_pairs, pos as int, kv, v);
            assert(self.pairs() == old_pairs.insert(pos as int, (kv, v)));
        }
    }
}

pub proof fn lemma_pairs_map_remove_at<KV, V>(s: Seq<(KV, V)>, i: int)
    requires
        distinct_keys(s),
        0 <= i < s.len(),
    ensures
        pairs_map(s.remove(i)) == pairs_map(s).remove(s[i].0),
        distinct_keys(s.remove(i)),
    decreases s.len(),
{
    let t = s.remove(i);
    let k = s[i].0;
    if i == s.len() - 1 {
        assert(t == s.drop_last());
        lemma_pairs_map_dom(s.drop_last(), k);
        assert forall|j: int| 0 <= j < s.drop_last().len() implies s.drop_last()[j].0 != k by {
            assert(s[j].0 != s[i].0);
        }
        assert(pairs_map(t) =~= pairs_map(s).remove(k));
    } else {
        let d = s.drop_last();
        lemma_pairs_map_remove_at(d, i);
        assert(t.drop_last() == d.remove(i));
        assert(t.last() == s.last());
        assert(s.last().0 != k);
        assert(pairs_map(t) =~= pairs_map(s).remove(k));
    }
}

proof fn lemma_pairs_map_len<KV, V>(s: Seq<(KV, V)>)
    requires
        distinct_keys(s),
    ensures
        pairs_map(s).dom().len() == s.len(),
        pairs_map(s).dom().finite(),
    decreases s.len(),
{
    if s.len() > 0 {
        let d = s.drop_last();
        lemma_pairs_map_len(d);
        lemma_pairs_map_dom(d, s.last().0);
        if pairs_map(d).dom().contains(s.last().0) {
            let i = choose|i: int| 0 <= i < d.len() && d[i].0 == s.last().0;
            assert(s[i].0 == s[s.len() - 1].0);
        }
    }
}

/// The count recorded for `k`, zero when absent.
pub open spec fn count_of<KV>(m: Map<KV, u64>, k: KV) -> nat {
    if m.dom().contains(k) {
        m[k] as nat
    } else {
        0
    }
}

/// Adding `other`'s counts into `base`: the keys of both, each with the sum of its counts.
pub open spec fn sum_counts<KV>(base: Map<KV, u64>, other: Map<KV, u64>) -> Map<KV, u64> {
    Map::new(
        |k: KV| base.dom().contains(k) || other.dom().contains(k),
        |k: KV| (count_of(base, k) + count_of(other, k)) as u64,
    )
}

/// Every count is at most `bound`.
pub open spec fn counts_bounded<KV>(m: Map<KV, u64>, bound: nat) -> bool {
    forall|k: KV| m.dom().contains(k) ==> m[k] <= bound
}

/// Counters keyed by `K`.
pub type Counts<K> = Table<K, u64>;

impl<K: TableKey> Table<K, u64> {
    /// Whether every count is at most `bound`.
    pub fn all_at_most(&self, bound: u64) -> (res: bool)
        requires
            self.wf(),
        ensures
            res == counts_bounded(self.view(), bound as nat),
    {
        let v = self.as_vec();
        let mut i: usize = 0;
        while i < v.len()
            invariant
                i <= v@.len(),
                self.wf(),
                forall|j: int| 0 <= j < v@.len() ==> self.view().dom().contains(#[trigger] v@[j].0@)
                    && self.view()[v@[j].0@] == v@[j].1,
                v@.len() == self.pairs().len(),
                forall|j: int| #![trigger v@[j]] 0 <= j < v@.len() ==> (v@[j].0@, v@[j].1) == self.pairs()[j],
                forall|j: int| 0 <= j < i ==> #[trigger] v@[j].1 <= bound,
            decreases v@.len() - i,
        {
            if v[i].1 > bound {
                assert(self.view()[v@[i as int].0@] > bound);
                return false;
            }
            i += 1;
        }
        proof {
            assert forall|k: K::V| self.view().dom().contains(k) implies self.view()[k] <= bound by {
                lemma_pairs_map_dom(self.pairs(), k);
                let j = choose|j: int| 0 <= j < self.pairs().len() && self.pairs()[j].0 == k;
                assert((v@[j].0@, v@[j].1) == self.pairs()[j]);
            }
        }
        true
    }

    /// Adds `n` to the counter of `k`, creating it at zero first when absent.
    pub fn add_count(&mut self, k: &K, n: u64)
        requires
            old(self).wf(),
            count_of(old(self).view(), k@) + n <= u64::MAX,
        ensures
            final(self).wf(),
            final(self).view() == old(self).view().insert(k@, (count_of(old(self).view(), k@) + n) as u64),
    {
        match self.find(k) {
            Some(i) => {
                let v = self.entries[i].1;
                self.set_at(i, v + n);
            },
            None => {
                let key = k.copy_key();
                let pos = self.entries.len();
                self.insert_new(pos, key, n);
            },
        }
    }

    /// Adds every counter of `other` into this table (`merge_counts`).
    pub fn merge_counts(&mut self, other: &Self)
        requires
            old(self).wf(),
            other.wf(),
            forall|k: K::V| count_of(old(self).view(), k) + count_of(other.view(), k) <= u64::MAX,
        ensures
            final(self).wf(),
            final(self).view() == sum_counts(old(self).view(), other.view()),
    {
        let ghost base = self.view();
        let ghost op = other.pairs();
        let mut i: usize = 0;
        assert(op.take(0) == Seq::<(K::V, u64)>::empty());
        assert(sum_counts(base, pairs_map(op.take(0))) =~= base);
        while i < other.entries.len()
            invariant
                i <= other.entries@.len(),
                self.wf(),
                other.wf(),
                op == other.pairs(),
                forall|k: K::V| count_of(base, k) + count_of(other.view(), k) <= u64::MAX,
                self.view() == sum_counts(base, pairs_map(op.take(i as int))),
            decreases other.entries@.len() - i,
        {
            let k = &other.entries[i].0;
            let n = other.entries[i].1;
            proof {
                let prev = pairs_map(op.take(i as int));
                assert(op[i as int] == (k@, n));
                assert(op.take(i + 1).drop_last() == op.take(i as int));
                lemma_pairs_map_dom(op.take(i as int), k@);
                if prev.dom().contains(k@) {
                    let j = choose|j: int| 0 <= j < op.take(i as int).len() && op.take(i as int)[j].0 == k@;
                    assert(op[j].0 == op[i as int].0);
                }
                lemma_pairs_map_at(op, i as int);
                assert(count_of(self.view(), k@) == count_of(base, k@));
            }
            self.add_count(k, n);
            proof {
                let prev = pairs_map(op.take(i as int));
                let next = pairs_map(op.take(i + 1));
                assert(next == prev.insert(k@, n));
                assert(self.view() =~= sum_counts(base, next));
            }
            i += 1;
        }
        assert(op.take(other.entries@.len() as int) == op);
    }
}

} // verus!
