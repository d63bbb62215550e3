//! Log-scale histograms: a count per bin, bins kept in increasing order.
//!
//! The bin of a measurement is computed by the caller (it is a floating-point
//! logarithm); this type records bins, merges histograms and answers which bin
//! holds a given rank, which is what a quantile reads.

use vstd::prelude::*;
use crate::table::{
    count_of, lemma_pairs_map_at, lemma_pairs_map_dom, pairs_map, sum_counts, Table,
};

verus! {

/// Bins are strictly increasing along the sequence.
pub open spec fn increasing_bins(s: Seq<(u16, u64)>) -> bool {
    forall|i: int, j: int| 0 <= i < j < s.len() ==> s[i].0 < s[j].0
}

/// Sum of the counts of a sequence of bins.
pub open spec fn bins_total(s: Seq<(u16, u64)>) -> nat
    decreases s.len(),
{
    if s.len() == 0 {
        0
    } else {
        bins_total(s.drop_last()) + (s.last().1 as nat)
    }
}

/// Sum of the counts of the first `n` bins.
pub open spec fn cumulative(s: Seq<(u16, u64)>, n: int) -> nat {
    bins_total(s.take(n))
}

/// Running count through bin `i` (inclusive).
pub open spec fn count_through(s: Seq<(u16, u64)>, i: int) -> nat {
    cumulative(s, i + 1)
}

/// Bin `i` is where the running count first reaches `target`.
pub open spec fn is_rank_index(s: Seq<(u16, u64)>, target: nat, i: int) -> bool {
    &&& 0 <= i < s.len()
    &&& count_through(s, i) >= target
    &&& forall|j: int| 0 <= j < i ==> #[trigger] count_through(s, j) < target
}

/// The bin at which the running count first reaches `target`, if it ever does.
pub open spec fn bin_at_rank_spec(s: Seq<(u16, u64)>, target: nat) -> Option<u16> {
    if exists|i: int| is_rank_index(s, target, i) {
        Some(s[choose|i: int| is_rank_index(s, target, i)].0)
    } else {
        None
    }
}

/// A histogram of log-scale bins.
pub struct Histogram {
    bins: Table<u16, u64>,
    count: u64,
}

impl Histogram {
    /// The bins in increasing order with their counts.
    pub closed spec fn sorted_bins(&self) -> Seq<(u16, u64)> {
        self.bins.pairs()
    }

    /// Bin → count.
    pub closed spec fn bins_view(&self) -> Map<u16, u64> {
        self.bins.view()
    }

    /// Number of recorded measurements.
    pub closed spec fn total(&self) -> nat {
        self.count as nat
    }

    pub closed spec fn wf(&self) -> bool {
        &&& self.bins.wf()
        &&& increasing_bins(self.sorted_bins())
        &&& bins_total(self.sorted_bins()) == self.count
    }

    pub fn new() -> (res: Self)
        ensures
            res.wf(),
            res.bins_view() == Map::<u16, u64>::empty(),
            res.total() == 0,
    {
        let res = Histogram { bins: Table::new(), count: 0 };
        proof {
            res.bins.lemma_reveal();
        }
        res
    }

    /// A histogram with these bins; `None` unless the bins are strictly
    /// increasing and their counts add up to `count`.
    pub fn from_bins(bins: Vec<(u16, u64)>, count: u64) -> (res: Option<Histogram>)
        ensures
            res is Some <==> increasing_bins(bins@) && bins_total(bins@) == count,
            res matches Some(h) ==> h.wf() && h.sorted_bins() == bins@ && h.total() == count
                && h.bins_view() == pairs_map(bins@),
    {
        let mut i: usize = 0;
        let mut sum: u128 = 0;
        while i < bins.len()
            invariant
                i <= bins@.len(),
                sum == bins_total(bins@.take(i as int)),
                sum <= u64::MAX,
                forall|a: int, b: int| 0 <= a < b < i ==> bins@[a].0 < bins@[b].0,
            decreases bins@.len() - i,
        {
            proof {
                assert(bins@.take(i + 1).drop_last() == bins@.take(i as int));
            }
            if i > 0 && bins[i - 1].0 >= bins[i].0 {
                return None;
            }
            sum = sum + bins[i].1 as u128;
            if sum > u64::MAX as u128 {
                proof {
                    lemma_cumulative_mono(bins@, i + 1, bins@.len() as int);
                    assert(bins@.take(bins@.len() as int) == bins@);
                }
                return None;
            }
            i += 1;
        }
        proof {
            assert(bins@.take(bins@.len() as int) == bins@);
        }
        if sum != count as u128 {
            return None;
        }
        let ghost bv = bins@;
        let table = Table::from_pairs(bins);
        match table {
            Some(t) => {
                proof {
                    assert(bv.map_values(|e: (u16, u64)| (e.0@, e.1)) =~= bv);
                    assert(t.pairs() == bv);
                    assert(increasing_bins(bv));
                    assert(bins_total(bv) == count);
                }
                let h = Histogram { bins: t, count };
                assert(h.sorted_bins() == bv);
                assert(h.wf());
                Some(h)
            },
            None => {
                proof {
                    assert(bv.map_values(|e: (u16, u64)| (e.0@, e.1)) =~= bv);
                }
                None
            },
        }
    }

    /// The bins in increasing order with their counts.
    pub fn bins(&self) -> (r: &Vec<(u16, u64)>)
        requires
            self.wf(),
        ensures
            r@ == self.sorted_bins(),
    {
        let r = self.bins.as_vec();
        proof {
            assert(r@ =~= self.sorted_bins()) by {
                assert forall|j: int| 0 <= j < r@.len() implies r@[j] == self.sorted_bins()[j] by {
                    assert((r@[j].0@, r@[j].1) == self.sorted_bins()[j]);
                }
            }
        }
        r
    }

    pub fn count(&self) -> (n: u64)
        ensures
            n == self.total(),
    {
        self.count
    }

    /// Position of the first bin not below `bin`.
    fn lower_bound(&self, bin: u16) -> (pos: usize)
        requires
            self.wf(),
        ensures
            pos <= self.sorted_bins().len(),
            forall|j: int| 0 <= j < pos ==> self.sorted_bins()[j].0 < bin,
            pos < self.sorted_bins().len() ==> self.sorted_bins()[pos as int].0 >= bin,
    {
        let v = self.bins.as_vec();
        proof {
            assert forall|j: int| 0 <= j < v@.len() implies v@[j].0 == self.sorted_bins()[j].0 by {
                assert((v@[j].0@, v@[j].1) == self.sorted_bins()[j]);
            }
        }
        let mut i: usize = 0;
        while i < v.len()
            invariant
                i <= v@.len(),
                v@.len() == self.sorted_bins().len(),
                forall|j: int| 0 <= j < v@.len() ==> v@[j].0 == self.sorted_bins()[j].0,
                forall|j: int| 0 <= j < i ==> self.sorted_bins()[j].0 < bin,
            decreases v@.len() - i,
        {
            if v[i].0 >= bin {
                return i;
            }
            i += 1;
        }
        i
    }

    /// Adds `n` measurements to `bin`.
    pub fn add_to_bin(&mut self, bin: u16, n: u64)
        requires
            old(self).wf(),
            old(self).total() + n <= u64::MAX,
        ensures
            final(self).wf(),
            final(self).total() == old(self).total() + n,
            final(self).bins_view() == old(self).bins_view().insert(
                bin,
                (count_of(old(self).bins_view(), bin) + n) as u64,
            ),
    {
        let pos = self.lower_bound(bin);
        let ghost s = self.sorted_bins();
        proof {
            self.bins.lemma_reveal();
            assert(s.len() == self.bins.entries@.len());
        }
        if pos < self.bins.entries.len() && self.bins.entries[pos].0 == bin {
            let c = self.bins.entries[pos].1;
            proof {
                assert(s[pos as int] == (bin, c));
                lemma_pairs_map_at(s, pos as int);
                lemma_entry_le_total(s, pos as int);
            }
            self.bins.set_at(pos, c + n);
            proof {
                lemma_total_update(s, pos as int, (c + n) as u64);
                self.bins.lemma_reveal();
                assert forall|a: int, b: int| 0 <= a < b < self.sorted_bins().len() implies
                    self.sorted_bins()[a].0 < self.sorted_bins()[b].0 by {
                    assert(s[a].0 < s[b].0);
                }
            }
        } else {
            proof {
                lemma_pairs_map_dom(s, bin);
                if pairs_map(s).dom().contains(bin) {
                    let j = choose|j: int| 0 <= j < s.len() && s[j].0 == bin;
                    if j < pos {
                    } else if j == pos {
                        assert(self.bins.entries@[pos as int].0@ == s[pos as int].0);
                    } else {
                        assert(s[pos as int].0 < s[j].0);
                    }
                }
            }
            self.bins.insert_new(pos, bin, n);
            proof {
                lemma_total_insert(s, pos as int, (bin, n));
                self.bins.lemma_reveal();
                let t = self.sorted_bins();
                assert forall|a: int, b: int| 0 <= a < b < t.len() implies t[a].0 < t[b].0 by {
                    if b < pos {
                        assert(s[a].0 < s[b].0);
                    } else if b == pos {
                        assert(t[a] == s[a]);
                    } else if a < pos {
                        assert(t[b] == s[b - 1]);
                        if pos < s.len() {
                            assert(s[a].0 < bin);
                        }
                    } else if a == pos {
                        assert(t[b] == s[b - 1]);
                        if b - 1 > pos {
                            assert(s[pos as int].0 < s[b - 1].0);
                        }
                    } else {
                        assert(s[a - 1].0 < s[b - 1].0);
                    }
                }
            }
        }
        self.count = self.count + n;
    }

    /// Records one measurement in `bin`.
    pub fn add_bin(&mut self, bin: u16)
        requires
            old(self).wf(),
            old(self).total() < u64::MAX,
        ensures
            final(self).wf(),
            final(self).total() == old(self).total() + 1,
            final(self).bins_view() == old(self).bins_view().insert(
                bin,
                (count_of(old(self).bins_view(), bin) + 1) as u64,
            ),
    {
        self.add_to_bin(bin, 1);
    }

    /// Adds the bins of `other` into this histogram.
    pub fn merge(&mut self, other: &Histogram)
        requires
            old(self).wf(),
            other.wf(),
            old(self).total() + other.total() <= u64::MAX,
        ensures
            final(self).wf(),
            final(self).total() == old(self).total() + other.total(),
            final(self).bins_view() == sum_counts(old(self).bins_view(), other.bins_view()),
    {
        let ghost base = self.bins_view();
        let ghost base_count = self.count;
        let ghost op = other.sorted_bins();
        let v = other.bins.as_vec();
        proof {
            other.bins.lemma_reveal();
            assert forall|j: int| 0 <= j < v@.len() implies (v@[j].0, v@[j].1) == op[j] by {
                assert((v@[j].0@, v@[j].1) == op[j]);
            }
        }
        let mut i: usize = 0;
        assert(op.take(0) == Seq::<(u16, u64)>::empty());
        assert(sum_counts(base, pairs_map(op.take(0))) =~= base);
        while i < v.len()
            invariant
                i <= v@.len(),
                v@.len() == op.len(),
                forall|j: int| 0 <= j < v@.len() ==> (v@[j].0, v@[j].1) == op[j],
                other.wf(),
                op == other.sorted_bins(),
                self.wf(),
                self.bins_view() == sum_counts(base, pairs_map(op.take(i as int))),
                self.count == base_count + cumulative(op, i as int),
                base_count + other.total() <= u64::MAX,
                bins_total(op) == other.total(),
            decreases v@.len() - i,
        {
            let bin = v[i].0;
            let n = v[i].1;
            proof {
                lemma_cumulative_mono(op, i + 1, op.len() as int);
                assert(op.take(op.len() as int) == op);
                assert(op.take(i + 1).drop_last() == op.take(i as int));
                lemma_pairs_map_dom(op.take(i as int), bin);
                if pairs_map(op.take(i as int)).dom().contains(bin) {
                    let j = choose|j: int| 0 <= j < op.take(i as int).len() && op.take(i as int)[j].0 == bin;
                    assert(op[j].0 < op[i as int].0);
                }
                assert(count_of(self.bins_view(), bin) == count_of(base, bin));
            }
            self.add_to_bin(bin, n);
            proof {
                let next = pairs_map(op.take(i + 1));
                assert(next == pairs_map(op.take(i as int)).insert(bin, n));
                assert(self.bins_view() =~= sum_counts(base, next));
            }
            i += 1;
        }
        proof {
            assert(op.take(op.len() as int) == op);
        }
    }

    /// The bin at which the running count, over bins in increasing order,
    /// first reaches `target`; `None` when the histogram holds fewer measurements.
    pub fn bin_at_rank(&self, target: u64) -> (res: Option<u16>)
        requires
            self.wf(),
        ensures
            res == bin_at_rank_spec(self.sorted_bins(), target as nat),
    {
        let v = self.bins.as_vec();
        let ghost s = self.sorted_bins();
        proof {
            assert forall|j: int| 0 <= j < v@.len() implies (v@[j].0, v@[j].1) == s[j] by {
                assert((v@[j].0@, v@[j].1) == s[j]);
            }
        }
        let mut seen: u128 = 0;
        let mut i: usize = 0;
        while i < v.len()
            invariant
                i <= v@.len(),
                v@.len() == s.len(),
                s == self.sorted_bins(),
                forall|j: int| 0 <= j < v@.len() ==> (v@[j].0, v@[j].1) == s[j],
                seen == cumulative(s, i as int),
                seen <= i * 0x1_0000_0000_0000_0000,
                forall|j: int| 0 <= j < i ==> #[trigger] count_through(s, j) < target,
            decreases v@.len() - i,
        {
            proof {
                assert(s.take(i + 1).drop_last() == s.take(i as int));
            }
            seen = seen + v[i].1 as u128;
            assert(seen == count_through(s, i as int));
            if seen >= target as u128 {
                proof {
                    assert(is_rank_index(s, target as nat, i as int));
                    let w = choose|k: int| is_rank_index(s, target as nat, k);
                    if w < i {
                        assert(count_through(s, w) < target);
                    } else if w > i {
                        assert(count_through(s, i as int) < target);
                    }
                    assert(w == i);
                }
                return Some(v[i].0);
            }
            i += 1;
        }
        proof {
            if exists|k: int| is_rank_index(s, target as nat, k) {
                let k = choose|k: int| is_rank_index(s, target as nat, k);
                assert(count_through(s, k) < target);
            }
        }
        None
    }
}

proof fn lemma_cumulative_mono(s: Seq<(u16, u64)>, a: int, b: int)
    requires
        0 <= a <= b <= s.len(),
    ensures
        cumulative(s, a) <= cumulative(s, b),
    decreases b - a,
{
    if a < b {
        lemma_cumulative_mono(s, a, b - 1);
        assert(s.take(b).drop_last() == s.take(b - 1));
    }
}

proof fn lemma_entry_le_total(s: Seq<(u16, u64)>, p: int)
    requires
        0 <= p < s.len(),
    ensures
        s[p].1 <= bins_total(s),
    decreases s.len(),
{
    if p < s.len() - 1 {
        lemma_entry_le_total(s.drop_last(), p);
    }
}

proof fn lemma_total_update(s: Seq<(u16, u64)>, p: int, v: u64)
    requires
        0 <= p < s.len(),
    ensures
        bins_total(s.update(p, (s[p].0, v))) + s[p].1 == bins_total(s) + v,
    decreases s.len(),
{
    let u = s.update(p, (s[p].0, v));
    if p < s.len() - 1 {
        lemma_total_update(s.drop_last(), p, v);
        assert(u.drop_last() == s.drop_last().update(p, (s[p].0, v)));
    } else {
        assert(u.drop_last() == s.drop_last());
    }
}

proof fn lemma_total_insert(s: Seq<(u16, u64)>, p: int, e: (u16, u64))
    requires
        0 <= p <= s.len(),
    ensures
        bins_total(s.insert(p, e)) == bins_total(s) + e.1,
    decreases s.len(),
{
    let t = s.insert(p, e);
    if p == s.len() {
        assert(t.drop_last() == s);
    } else {
        lemma_total_insert(s.drop_last(), p, e);
        assert(t.drop_last() == s.drop_last().insert(p, e));
    }
}

} // verus!
