//! Sorting with duplicate removal for 64-bit values (the client-hash lists of rollups).

use vstd::prelude::*;

verus! {

broadcast use vstd::seq::Seq::lemma_push_to_set_commute;

pub open spec fn strictly_increasing(s: Seq<u64>) -> bool {
    forall|i: int, j: int| 0 <= i < j < s.len() ==> s[i] < s[j]
}

/// Merges two strictly increasing vectors into one holding every value of either, once.
pub fn merge_unique(a: &Vec<u64>, b: &Vec<u64>) -> (res: Vec<u64>)
    requires
        strictly_increasing(a@),
        strictly_increasing(b@),
    ensures
        strictly_increasing(res@),
        res@.to_set() == a@.to_set().union(b@.to_set()),
{
    let mut res: Vec<u64> = Vec::new();
    let mut i: usize = 0;
    let mut j: usize = 0;
    while i < a.len() || j < b.len()
        invariant
            i <= a@.len(),
            j <= b@.len(),
            strictly_increasing(a@),
            strictly_increasing(b@),
            strictly_increasing(res@),
            res@.to_set() == a@.take(i as int).to_set().union(b@.take(j as int).to_set()),
            res@.len() > 0 ==> (i < a@.len() ==> res@.last() < a@[i as int]) && (j < b@.len()
                ==> res@.last() < b@[j as int]),
        decreases a@.len() + b@.len() - i - j,
    {
        let ghost old_res = res@;
        if j >= b.len() || (i < a.len() && a[i] < b[j]) {
            let x = a[i];
            res.push(x);
            proof {
                assert(a@.take(i + 1) == a@.take(i as int).push(x));
                assert(res@.to_set() =~= old_res.to_set().insert(x));
                assert(a@.take(i + 1).to_set() =~= a@.take(i as int).to_set().insert(x));
            }
            i += 1;
        } else if i >= a.len() || b[j] < a[i] {
            let x = b[j];
            res.push(x);
            proof {
                assert(b@.take(j + 1) == b@.take(j as int).push(x));
                assert(res@.to_set() =~= old_res.to_set().insert(x));
                assert(b@.take(j + 1).to_set() =~= b@.take(j as int).to_set().insert(x));
            }
            j += 1;
        } else {
            let x = a[i];
            res.push(x);
            proof {
                assert(a@.take(i + 1) == a@.take(i as int).push(x));
                assert(b@.take(j + 1) == b@.take(j as int).push(x));
                assert(res@.to_set() =~= old_res.to_set().insert(x));
                assert(a@.take(i + 1).to_set() =~= a@.take(i as int).to_set().insert(x));
                assert(b@.take(j + 1).to_set() =~= b@.take(j as int).to_set().insert(x));
            }
            i += 1;
            j += 1;
        }
        proof {
            assert(res@.to_set() =~= a@.take(i as int).to_set().union(b@.take(j as int).to_set()));
        }
    }
    proof {
        assert(a@.take(a@.len() as int) == a@);
        assert(b@.take(b@.len() as int) == b@);
    }
    res
}

fn sorted_unique_range(v: &Vec<u64>, lo: usize, hi: usize) -> (res: Vec<u64>)
    requires
        lo <= hi <= v@.len(),
    ensures
        strictly_increasing(res@),
        res@.to_set() == v@.subrange(lo as int, hi as int).to_set(),
    decreases hi - lo,
{
    if hi - lo == 0 {
        let res: Vec<u64> = Vec::new();
        assert(res@.to_set() =~= v@.subrange(lo as int, hi as int).to_set());
        res
    } else if hi - lo == 1 {
        let mut res: Vec<u64> = Vec::new();
        res.push(v[lo]);
        proof {
            assert(v@.subrange(lo as int, hi as int) == res@);
        }
        res
    } else {
        let mid = lo + (hi - lo) / 2;
        let left = sorted_unique_range(v, lo, mid);
        let right = sorted_unique_range(v, mid, hi);
        let res = merge_unique(&left, &right);
        proof {
            let whole = v@.subrange(lo as int, hi as int);
            assert(whole == v@.subrange(lo as int, mid as int) + v@.subrange(mid as int, hi as int));
            assert(whole.to_set() =~= v@.subrange(lo as int, mid as int).to_set().union(
                v@.subrange(mid as int, hi as int).to_set(),
            )) by {
                assert forall|x: u64| whole.to_set().contains(x) implies v@.subrange(
                    lo as int,
                    mid as int,
                ).to_set().union(v@.subrange(mid as int, hi as int).to_set()).contains(x) by {
                    let k = choose|k: int| 0 <= k < whole.len() && whole[k] == x;
                    if k < mid - lo {
                        assert(v@.subrange(lo as int, mid as int)[k] == x);
                    } else {
                        assert(v@.subrange(mid as int, hi as int)[k - (mid - lo)] == x);
                    }
                }
                assert forall|x: u64| v@.subrange(lo as int, mid as int).to_set().union(
                    v@.subrange(mid as int, hi as int).to_set(),
                ).contains(x) implies whole.to_set().contains(x) by {
                    if v@.subrange(lo as int, mid as int).to_set().contains(x) {
                        let k = choose|k: int| 0 <= k < mid - lo && v@.subrange(lo as int, mid as int)[k] == x;
                        assert(whole[k] == x);
                    } else {
                        let k = choose|k: int| 0 <= k < hi - mid && v@.subrange(mid as int, hi as int)[k] == x;
                        assert(whole[k + (mid - lo)] == x);
                    }
                }
            }
        }
        res
    }
}

/// The distinct values of `v` in increasing order.
pub fn sorted_unique(v: &Vec<u64>) -> (res: Vec<u64>)
    ensures
        strictly_increasing(res@),
        res@.to_set() == v@.to_set(),
        res@.len() == v@.to_set().len(),
{
    let res = sorted_unique_range(v, 0, v.len());
    proof {
        assert(v@.subrange(0, v@.len() as int) == v@);
        lemma_increasing_set_len(res@);
    }
    res
}

/// A strictly increasing sequence has as many elements as its set.
pub proof fn lemma_increasing_set_len(s: Seq<u64>)
    requires
        strictly_increasing(s),
    ensures
        s.to_set().len() == s.len(),
        s.no_duplicates(),
{
    assert(s.no_duplicates()) by {
        assert forall|i: int, j: int| 0 <= i < s.len() && 0 <= j < s.len() && i != j implies s[i]
            != s[j] by {
            if i < j {
            } else {
            }
        }
    }
    s.unique_seq_to_set();
}

} // verus!
