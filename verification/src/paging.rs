//! Page selection over log rows read newest first.
//!
//! A page scan looks at candidate rows one by one (the caller reads them from
//! storage and evaluates the filter), skips the first `skip` matching rows,
//! keeps up to `limit` of the following ones, and reads one match more to learn
//! whether another page exists.

use vstd::prelude::*;

verus! {

/// The ids of the rows that matched, in scan order.
pub open spec fn matched_ids(rows: Seq<(u64, bool)>) -> Seq<u64>
    decreases rows.len(),
{
    if rows.len() == 0 {
        Seq::empty()
    } else {
        let rest = matched_ids(rows.drop_last());
        if rows.last().1 {
            rest.push(rows.last().0)
        } else {
            rest
        }
    }
}

/// Ids are strictly decreasing along the scan (newest row first).
pub open spec fn newest_first(rows: Seq<(u64, bool)>) -> bool {
    forall|i: int, j: int| 0 <= i < j < rows.len() ==> rows[i].0 > rows[j].0
}

/// The rows whose id lies strictly below `cursor`.
pub open spec fn rows_below(rows: Seq<(u64, bool)>, cursor: u64) -> Seq<(u64, bool)> {
    rows.filter(|r: (u64, bool)| r.0 < cursor)
}

/// What happened to one considered row.
#[derive(Clone, Copy, Debug, PartialEq, Eq, Structural)]
pub enum Step {
    /// The row did not match the filter.
    Rejected,
    /// The row matched but was consumed by the leading skip.
    Skipped,
    /// The row matched and was kept; the scan may continue.
    Kept,
    /// The row matched and was kept; one row more than the limit is held, so the scan stops.
    KeptAndFull,
}

/// State of a page scan in progress.
pub struct PageScan {
    skip: usize,
    limit: usize,
    kept: Vec<u64>,
    scanned: usize,
}

/// The result of a finished page scan.
#[derive(Debug)]
pub struct PageOutcome {
    /// Ids of the rows on the page, in scan order.
    pub ids: Vec<u64>,
    /// Cursor to pass for the next page: the id of the last row on this page.
    pub next_cursor: Option<u64>,
    /// Whether at least one more matching row exists after this page.
    pub has_more: bool,
    /// Number of rows looked at.
    pub scanned: usize,
}

impl PageScan {
    pub closed spec fn skip_left(&self) -> nat {
        self.skip as nat
    }

    pub closed spec fn limit(&self) -> nat {
        self.limit as nat
    }

    pub closed spec fn kept_ids(&self) -> Seq<u64> {
        self.kept@
    }

    pub closed spec fn scanned(&self) -> nat {
        self.scanned as nat
    }

    /// The scan is still open: it has not yet held more than `limit` rows.
    pub open spec fn open(&self) -> bool {
        self.kept_ids().len() <= self.limit()
    }

    /// Starts a scan that skips `skip` matches and keeps up to `limit` rows.
    pub fn new(skip: usize, limit: usize) -> (res: Self)
        ensures
            res.skip_left() == skip,
            res.limit() == limit,
            res.kept_ids() == Seq::<u64>::empty(),
            res.scanned() == 0,
    {
        PageScan { skip, limit, kept: Vec::new(), scanned: 0 }
    }

    /// Considers one row: `matched` tells whether it passed the filter.
    pub fn consider(&mut self, id: u64, matched: bool) -> (step: Step)
        requires
            old(self).open(),
            old(self).scanned() < usize::MAX,
        ensures
            final(self).limit() == old(self).limit(),
            final(self).scanned() == old(self).scanned() + 1,
            !matched ==> step == Step::Rejected && final(self).skip_left() == old(self).skip_left()
                && final(self).kept_ids() == old(self).kept_ids(),
            matched && old(self).skip_left() > 0 ==> step == Step::Skipped
                && final(self).skip_left() == old(self).skip_left() - 1
                && final(self).kept_ids() == old(self).kept_ids(),
            matched && old(self).skip_left() == 0 ==> final(self).skip_left() == 0
                && final(self).kept_ids() == old(self).kept_ids().push(id)
                && (step == Step::KeptAndFull <==> final(self).kept_ids().len() > final(self).limit())
                && (step == Step::Kept || step == Step::KeptAndFull),
    {
        self.scanned = self.scanned + 1;
        if !matched {
            return Step::Rejected;
        }
        if self.skip > 0 {
            self.skip = self.skip - 1;
            return Step::Skipped;
        }
        self.kept.push(id);
        if self.kept.len() > self.limit {
            Step::KeptAndFull
        } else {
            Step::Kept
        }
    }

    /// Ends the scan: the extra row read past the limit, if any, is not on the page.
    pub fn finish(self) -> (res: PageOutcome)
        requires
            self.kept_ids().len() <= self.limit() + 1,
        ensures
            res.has_more == (self.kept_ids().len() > self.limit()),
            res.ids@ == (if res.has_more { self.kept_ids().drop_last() } else { self.kept_ids() }),
            res.next_cursor == (if res.has_more && res.ids@.len() > 0 {
                Some(res.ids@.last())
            } else {
                None::<u64>
            }),
            res.scanned == self.scanned(),
    {
        let mut kept = self.kept;
        let has_more = kept.len() > self.limit;
        if has_more {
            kept.pop();
        }
        let next_cursor = if has_more && kept.len() > 0 {
            Some(kept[kept.len() - 1])
        } else {
            None
        };
        PageOutcome { ids: kept, next_cursor, has_more, scanned: self.scanned }
    }
}

/// The number of rows of the prefix `rows.take(n)` that matched.
proof fn lemma_matched_ids_push(rows: Seq<(u64, bool)>, n: int)
    requires
        0 <= n < rows.len(),
    ensures
        matched_ids(rows.take(n + 1)) == (if rows[n].1 {
            matched_ids(rows.take(n)).push(rows[n].0)
        } else {
            matched_ids(rows.take(n))
        }),
{
    assert(rows.take(n + 1).drop_last() == rows.take(n));
}

/// Whole-sequence form of the page scan: the rows are considered in order until
/// one row more than `limit` has been kept.
pub fn select_page(rows: &Vec<(u64, bool)>, skip: usize, limit: usize) -> (res: PageOutcome)
    requires
        rows.len() < usize::MAX,
    ensures
        ({
            let m = matched_ids(rows@);
            let after = if skip <= m.len() { m.skip(skip as int) } else { Seq::<u64>::empty() };
            &&& res.has_more == (after.len() > limit)
            &&& res.ids@ == (if after.len() > limit { after.take(limit as int) } else { after })
            &&& res.next_cursor == (if after.len() > limit && limit > 0 {
                Some(after[limit - 1])
            } else {
                None::<u64>
            })
            &&& res.scanned <= rows.len()
            &&& after.len() > limit ==> res.scanned >= 1 && rows@[res.scanned - 1].1
                && matched_ids(rows@.take(res.scanned as int)).len() == skip + limit + 1
            &&& after.len() <= limit ==> res.scanned == rows.len()
        }),
{
    let mut scan = PageScan::new(skip, limit);
    let mut i: usize = 0;
    let ghost mut stopped = false;
    while i < rows.len()
        invariant
            i <= rows.len(),
            rows.len() < usize::MAX,
            scan.limit() == limit,
            scan.scanned() == i,
            scan.kept_ids().len() <= limit,
            ({
                let m = matched_ids(rows@.take(i as int));
                &&& skip <= m.len() ==> scan.skip_left() == 0 && scan.kept_ids() == m.skip(skip as int)
                &&& skip > m.len() ==> scan.skip_left() == skip - m.len() && scan.kept_ids().len() == 0
            }),
        decreases rows.len() - i,
    {
        let (id, matched) = rows[i];
        proof {
            lemma_matched_ids_push(rows@, i as int);
        }
        let step = scan.consider(id, matched);
        proof {
            let m0 = matched_ids(rows@.take(i as int));
            let m1 = matched_ids(rows@.take(i + 1));
            if matched && skip <= m0.len() {
                assert(m1.skip(skip as int) == m0.skip(skip as int).push(id));
            }
            if matched && skip == m0.len() + 1 {
                assert(m1.skip(skip as int).len() == 0);
                assert(m1.skip(skip as int) == Seq::<u64>::empty());
            }
        }
        i = i + 1;
        if step == Step::KeptAndFull {
            proof {
                // The remaining rows only add matches after the held ones.
                lemma_matched_ids_extends(rows@, i as int);
            }
            let res = scan.finish();
            proof {
                let m = matched_ids(rows@);
                let mi = matched_ids(rows@.take(i as int));
                assert(mi.len() <= m.len());
                assert(mi.skip(skip as int) == m.skip(skip as int).take(limit + 1)) by {
                    assert forall|k: int| 0 <= k < limit + 1 implies mi.skip(skip as int)[k]
                        == m.skip(skip as int)[k] by {
                        assert(mi[skip + k] == m[skip + k]);
                    }
                }
                assert(mi.skip(skip as int).drop_last() == m.skip(skip as int).take(limit as int));
                assert(rows@[i - 1] == (id, matched));
                assert(matched);
                assert(mi.len() == skip + limit + 1);
                assert(rows@.take(i as int).len() == i);
            }
            return res;
        }
    }
    assert(rows@.take(rows.len() as int) == rows@);
    scan.finish()
}

/// Matches found in a prefix are a prefix of all matches.
proof fn lemma_matched_ids_extends(rows: Seq<(u64, bool)>, n: int)
    requires
        0 <= n <= rows.len(),
    ensures
        matched_ids(rows.take(n)).len() <= matched_ids(rows).len(),
        forall|k: int|
            0 <= k < matched_ids(rows.take(n)).len() ==> matched_ids(rows.take(n))[k]
                == matched_ids(rows)[k],
    decreases rows.len() - n,
{
    if n < rows.len() {
        lemma_matched_ids_push(rows, n);
        lemma_matched_ids_extends(rows, n + 1);
    } else {
        assert(rows.take(n) == rows);
    }
}


/// Keeping only rows below a cursor keeps exactly the matches below it.
proof fn lemma_matched_below(rows: Seq<(u64, bool)>, c: u64)
    ensures
        matched_ids(rows_below(rows, c)) == matched_ids(rows).filter(|id: u64| id < c),
    decreases rows.len(),
{
    let p = |r: (u64, bool)| r.0 < c;
    let q = |id: u64| id < c;
    reveal_with_fuel(Seq::filter, 1);
    if rows.len() > 0 {
        lemma_matched_below(rows.drop_last(), c);
        assert(rows.filter(p) == (if p(rows.last()) {
            rows.drop_last().filter(p).push(rows.last())
        } else {
            rows.drop_last().filter(p)
        }));
        let m = matched_ids(rows);
        if rows.last().1 {
            assert(m.drop_last() == matched_ids(rows.drop_last()));
        }
        let f = rows.filter(p);
        if p(rows.last()) {
            assert(f.drop_last() == rows.drop_last().filter(p));
        }
    } else {
        assert(rows.filter(p) == Seq::<(u64, bool)>::empty());
    }
}

/// In a strictly decreasing sequence, the elements below the `k`-th are those after it.
proof fn lemma_decreasing_below(m: Seq<u64>, k: int)
    requires
        0 <= k < m.len(),
        forall|i: int, j: int| 0 <= i < j < m.len() ==> m[i] > m[j],
    ensures
        m.filter(|id: u64| id < m[k]) == m.skip(k + 1),
    decreases m.len(),
{
    let c = m[k];
    let q = |id: u64| id < c;
    reveal_with_fuel(Seq::filter, 1);
    if m.len() - 1 == k {
        let d = m.drop_last();
        assert forall|i: int| 0 <= i < d.len() implies !q(d[i]) by {}
        d.lemma_all_neg_filter_empty(q);
        assert(m.skip(k + 1) == Seq::<u64>::empty());
    } else {
        let d = m.drop_last();
        assert(d[k] == c);
        lemma_decreasing_below(d, k);
        assert(m.skip(k + 1) == d.skip(k + 1).push(m.last()));
    }
}

/// Matched ids of newest-first rows are strictly decreasing.
proof fn lemma_matched_decreasing(rows: Seq<(u64, bool)>)
    requires
        newest_first(rows),
    ensures
        forall|i: int, j: int|
            0 <= i < j < matched_ids(rows).len() ==> matched_ids(rows)[i] > matched_ids(rows)[j],
        forall|i: int| 0 <= i < matched_ids(rows).len() ==> exists|p: int| 0 <= p < rows.len()
            && rows[p].0 == #[trigger] matched_ids(rows)[i],
        rows.len() > 0 ==> forall|i: int| 0 <= i < matched_ids(rows).len()
            ==> #[trigger] matched_ids(rows)[i] >= rows.last().0,
    decreases rows.len(),
{
    if rows.len() > 0 {
        let d = rows.drop_last();
        lemma_matched_decreasing(d);
        let md = matched_ids(d);
        assert forall|i: int| 0 <= i < md.len() implies #[trigger] md[i] > rows.last().0 by {
            let p = choose|p: int| 0 <= p < d.len() && d[p].0 == md[i];
            assert(rows[p].0 > rows[rows.len() - 1].0);
        }
        let m = matched_ids(rows);
        if rows.last().1 {
            assert forall|i: int| 0 <= i < m.len() implies exists|p: int| 0 <= p < rows.len()
                && rows[p].0 == #[trigger] m[i] by {
                if i == m.len() - 1 {
                    assert(rows[rows.len() - 1].0 == m[i]);
                } else {
                    let p = choose|p: int| 0 <= p < d.len() && d[p].0 == md[i];
                    assert(rows[p].0 == m[i]);
                }
            }
        } else {
            assert forall|i: int| 0 <= i < m.len() implies exists|p: int| 0 <= p < rows.len()
                && rows[p].0 == #[trigger] m[i] by {
                let p = choose|p: int| 0 <= p < d.len() && d[p].0 == md[i];
                assert(rows[p].0 == m[i]);
            }
        }
    }
}

/// Paging by cursor walks the matching rows without gaps or repeats: when a page
/// of `limit` rows taken from the newest end has more matches after it, the rows
/// strictly below its cursor (its last id) match exactly the matches that follow
/// the page.
pub proof fn law_cursor_continues(rows: Seq<(u64, bool)>, limit: nat)
    requires
        newest_first(rows),
        limit > 0,
        matched_ids(rows).len() > limit,
    ensures
        matched_ids(rows_below(rows, matched_ids(rows)[limit - 1])) == matched_ids(rows).skip(
            limit as int,
        ),
{
    let m = matched_ids(rows);
    lemma_matched_decreasing(rows);
    lemma_matched_below(rows, m[limit - 1]);
    lemma_decreasing_below(m, limit - 1);
}

} // verus!
