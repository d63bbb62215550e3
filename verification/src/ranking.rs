//! Ranking by counts: the largest entries first.

use vstd::prelude::*;
use crate::table::{Counts, TableKey, lemma_pairs_map_dom};

verus! {

/// `r` lists distinct positions of `counts`, largest counts first, and no
/// position left out has a larger count than one listed.
pub open spec fn is_ranked_prefix(counts: Seq<u64>, r: Seq<usize>) -> bool {
    &&& forall|i: int| 0 <= i < r.len() ==> (#[trigger] r[i]) < counts.len()
    &&& forall|i: int, j: int| 0 <= i < j < r.len() ==> r[i] != r[j]
    &&& forall|i: int, j: int| 0 <= i < j < r.len() ==> counts[r[i] as int] >= counts[r[j] as int]
    &&& forall|i: int, x: int| #![trigger r[i], counts[x]]
        0 <= i < r.len() && 0 <= x < counts.len() && !r.contains(x as usize) ==> counts[x] <= counts[r[i] as int]
}

/// The positions of the `k` largest counts (all of them when `k` is larger),
/// largest first; among equal counts the earlier position comes first.
pub fn ranked_prefix(counts: &Vec<u64>, k: usize) -> (r: Vec<usize>)
    ensures
        r@.len() == (if k < counts@.len() { k as int } else { counts@.len() as int }),
        is_ranked_prefix(counts@, r@),
{
    let n = counts.len();
    let m = if k < n { k } else { n };
    let mut used: Vec<bool> = Vec::new();
    let mut z: usize = 0;
    while z < n
        invariant
            z <= n,
            n == counts@.len(),
            used@.len() == z,
            forall|x: int| 0 <= x < z ==> !(#[trigger] used@[x]),
        decreases n - z,
    {
        used.push(false);
        z += 1;
    }
    let mut r: Vec<usize> = Vec::new();
    while r.len() < m
        invariant
            m <= n,
            n == counts@.len(),
            used@.len() == n,
            r@.len() <= m,
            is_ranked_prefix(counts@, r@),
            forall|x: int| 0 <= x < n ==> (#[trigger] used@[x] <==> r@.contains(x as usize)),
        decreases m - r@.len(),
    {
        let mut best: usize = n;
        let mut x: usize = 0;
        while x < n
            invariant
                x <= n,
                n == counts@.len(),
                used@.len() == n,
                best == n || (best < x && !used@[best as int]),
                forall|y: int| 0 <= y < x && !(#[trigger] used@[y]) ==> best < n && counts@[y] <= counts@[
                    best as int
                ],
            decreases n - x,
        {
            if !used[x] && (best == n || counts[x] > counts[best]) {
                best = x;
            }
            x += 1;
        }
        proof {
            // Some position is unused, since fewer than n are listed.
            if best == n {
                let ghost s = r@.to_set();
                assert forall|y: int| 0 <= y < n implies #[trigger] r@.contains(y as usize) by {
                    assert(used@[y]);
                }
                lemma_all_listed(r@, n as int);
                assert(false);
            }
        }
        let ghost before = r@;
        r.push(best);
        used.set(best, true);
        proof {
            assert forall|x: int| 0 <= x < n implies (#[trigger] used@[x] <==> r@.contains(x as usize)) by {
                if x == best as int {
                    assert(r@[r@.len() - 1] == best);
                } else {
                    if r@.contains(x as usize) {
                        let j = choose|j: int| 0 <= j < r@.len() && r@[j] == x as usize;
                        if j < before.len() {
                            assert(before.contains(x as usize));
                        }
                    }
                    if before.contains(x as usize) {
                        let j = choose|j: int| 0 <= j < before.len() && before[j] == x as usize;
                        assert(r@[j] == x as usize);
                    }
                }
            }
            assert forall|i: int, j: int| 0 <= i < j < r@.len() implies r@[i] != r@[j] by {
                if j == r@.len() - 1 {
                    assert(!used@[best as int] || r@[i] != best) by {
                        assert(before.contains(before[i]));
                    }
                    if r@[i] == best {
                        assert(before.contains(best));
                    }
                }
            }
            assert forall|i: int, j: int| 0 <= i < j < r@.len() implies counts@[r@[i] as int] >= counts@[
                r@[j] as int
            ] by {
                if j == r@.len() - 1 {
                    assert(!before.contains(best));
                }
            }
            assert forall|i: int, x: int| #![trigger r@[i], counts@[x]]
                0 <= i < r@.len() && 0 <= x < counts@.len() && !r@.contains(x as usize) implies counts@[x]
                <= counts@[r@[i] as int] by {
                assert(!before.contains(x as usize)) by {
                    if before.contains(x as usize) {
                        let j = choose|j: int| 0 <= j < before.len() && before[j] == x as usize;
                        assert(r@[j] == x as usize);
                    }
                }
                assert(!used@[x]);
            }
        }
    }
    r
}

/// A list of distinct positions below `n` that holds every position has
/// length at least `n`.
proof fn lemma_all_listed(r: Seq<usize>, n: int)
    requires
        0 <= n <= usize::MAX,
        forall|i: int, j: int| 0 <= i < j < r.len() ==> r[i] != r[j],
        forall|y: int| 0 <= y < n ==> #[trigger] r.contains(y as usize),
    ensures
        r.len() >= n,
{
    let s = vstd::set_lib::set_int_range(0, n);
    let f = |y: int| y as usize;
    vstd::set_lib::lemma_int_range(0, n);
    assert(r.no_duplicates());
    r.unique_seq_to_set();
    let img = r.to_set();
    vstd::seq_lib::seq_to_set_is_finite(r);
    let m = s.map(f);
    assert(vstd::relations::injective_on(f, s));
    vstd::set_lib::lemma_map_size(s, m, f);
    assert forall|v: usize| m.contains(v) implies img.contains(v) by {
        let y = choose|y: int| s.contains(y) && f(y) == v;
        assert(r.contains(y as usize));
    }
    vstd::set_lib::lemma_len_subset(m, img);
}

/// The `limit` keys with the largest counts, with their counts, largest
/// first (`top`).
pub fn top<K: TableKey>(values: &Counts<K>, limit: usize) -> (r: Vec<(K, u64)>)
    requires
        values.wf(),
    ensures
        r@.len() == (if limit < values.view().dom().len() { limit as int } else { values.view().dom().len() as int }),
        forall|i: int| #![trigger r@[i]]
            0 <= i < r@.len() ==> values.view().dom().contains(r@[i].0@) && values.view()[r@[i].0@] == r@[i].1,
        forall|i: int, j: int| 0 <= i < j < r@.len() ==> r@[i].0@ != r@[j].0@,
        forall|i: int, j: int| 0 <= i < j < r@.len() ==> r@[i].1 >= r@[j].1,
        forall|i: int, k: K::V| #![trigger r@[i], values.view()[k]]
            0 <= i < r@.len() && values.view().dom().contains(k) && (forall|j: int|
                0 <= j < r@.len() ==> (#[trigger] r@[j]).0@ != k) ==> values.view()[k] <= r@[i].1,
        is_top_list(values.view(), top_key_views(r@), limit as nat),
{
    let entries = values.as_vec();
    let mut counts: Vec<u64> = Vec::new();
    let mut i: usize = 0;
    while i < entries.len()
        invariant
            i <= entries@.len(),
            counts@.len() == i,
            forall|j: int| 0 <= j < i ==> counts@[j] == (#[trigger] entries@[j]).1,
        decreases entries@.len() - i,
    {
        counts.push(entries[i].1);
        i += 1;
    }
    let order = ranked_prefix(&counts, limit);
    let mut r: Vec<(K, u64)> = Vec::new();
    let mut t: usize = 0;
    while t < order.len()
        invariant
            t <= order@.len(),
            counts@.len() == entries@.len(),
            forall|j: int| 0 <= j < counts@.len() ==> counts@[j] == (#[trigger] entries@[j]).1,
            is_ranked_prefix(counts@, order@),
            r@.len() == t,
            forall|j: int| #![trigger r@[j]]
                0 <= j < t ==> r@[j].0@ == entries@[order@[j] as int].0@ && r@[j].1 == entries@[order@[j] as int].1,
        decreases order@.len() - t,
    {
        let p = order[t];
        r.push((entries[p].0.copy_key(), entries[p].1));
        t += 1;
    }
    proof {
        assert forall|i: int, k: K::V| #![trigger r@[i], values.view()[k]]
            0 <= i < r@.len() && values.view().dom().contains(k) && (forall|j: int|
                0 <= j < r@.len() ==> (#[trigger] r@[j]).0@ != k) implies values.view()[k] <= r@[i].1 by {
            values.lemma_reveal();
            lemma_pairs_map_dom(values.pairs(), k);
            let x = choose|x: int| 0 <= x < values.pairs().len() && values.pairs()[x].0 == k;
            assert(entries@[x].0@ == k);
            if order@.contains(x as usize) {
                let j = choose|j: int| 0 <= j < order@.len() && order@[j] == x as usize;
                assert(r@[j].0@ == k);
            }
        }
        assert forall|i: int, j: int| 0 <= i < j < r@.len() implies r@[i].0@ != r@[j].0@ by {
            assert(order@[i] != order@[j]);
        }
        let ks = top_key_views(r@);
        assert forall|i: int| 0 <= i < ks.len() implies ks[i] == (#[trigger] r@[i]).0@ by {}
        assert forall|i: int, k: K::V| #![trigger ks[i], values.view()[k]]
            0 <= i < ks.len() && values.view().dom().contains(k) && !ks.contains(k) implies values.view()[k]
            <= values.view()[ks[i]] by {
            assert(ks[i] == r@[i].0@);
            assert forall|j: int| 0 <= j < r@.len() implies (#[trigger] r@[j]).0@ != k by {
                assert(ks[j] == r@[j].0@);
            }
        }
        assert forall|a: int, b: int| 0 <= a < b < ks.len() implies ks[a] != ks[b] by {
            assert(ks[a] == r@[a].0@ && ks[b] == r@[b].0@);
        }
        assert forall|a: int, b: int| 0 <= a < b < ks.len() implies values.view()[ks[a]] >= values.view()[ks[b]] by {
            assert(ks[a] == r@[a].0@ && ks[b] == r@[b].0@);
        }
        values.lemma_dom_len();
    }
    r
}

/// The keys of a ranked list, by their view.
pub open spec fn top_key_views<K: View>(r: Seq<(K, u64)>) -> Seq<K::V> {
    r.map_values(|p: (K, u64)| p.0@)
}

/// `keys` are the `limit` keys of `m` with the largest counts (all keys when
/// there are fewer), largest first, each once.
pub open spec fn is_top_list<KV>(m: Map<KV, u64>, keys: Seq<KV>, limit: nat) -> bool {
    &&& keys.len() == (if limit < m.dom().len() { limit } else { m.dom().len() })
    &&& forall|i: int| 0 <= i < keys.len() ==> m.dom().contains(#[trigger] keys[i])
    &&& forall|i: int, j: int| 0 <= i < j < keys.len() ==> keys[i] != keys[j]
    &&& forall|i: int, j: int| 0 <= i < j < keys.len() ==> m[keys[i]] >= m[keys[j]]
    &&& forall|i: int, k: KV| #![trigger keys[i], m[k]]
        0 <= i < keys.len() && m.dom().contains(k) && !keys.contains(k) ==> m[k] <= m[keys[i]]
}

/// The `limit` keys with the largest counts, largest first (`top_ips`).
pub fn top_keys<K: TableKey>(values: &Counts<K>, limit: usize) -> (r: Vec<K>)
    requires
        values.wf(),
    ensures
        is_top_list(values.view(), crate::grouping::views(r@), limit as nat),
{
    let t = top(values, limit);
    let mut r: Vec<K> = Vec::new();
    let mut i: usize = 0;
    while i < t.len()
        invariant
            i <= t@.len(),
            r@.len() == i,
            forall|j: int| 0 <= j < i ==> (#[trigger] r@[j])@ == t@[j].0@,
        decreases t@.len() - i,
    {
        r.push(t[i].0.copy_key());
        i += 1;
    }
    proof {
        let kv = crate::grouping::views(r@);
        assert forall|i: int| 0 <= i < kv.len() implies kv[i] == (#[trigger] t@[i]).0@ by {}
        assert forall|i: int, k: K::V| #![trigger kv[i], values.view()[k]]
            0 <= i < kv.len() && values.view().dom().contains(k) && !kv.contains(k) implies values.view()[k]
            <= values.view()[kv[i]] by {
            assert(kv[i] == t@[i].0@);
            assert forall|j: int| 0 <= j < t@.len() implies (#[trigger] t@[j]).0@ != k by {
                assert(kv[j] == t@[j].0@);
            }
        }
        values.lemma_dom_len();
    }
    r
}

/// A top list at least as long as the map holds every key of the map.
pub proof fn lemma_top_list_covers<KV>(m: Map<KV, u64>, keys: Seq<KV>, limit: nat, k: KV)
    requires
        is_top_list(m, keys, limit),
        m.dom().finite(),
        limit >= m.dom().len(),
        m.dom().contains(k),
    ensures
        keys.contains(k),
{
    assert(keys.no_duplicates());
    keys.unique_seq_to_set();
    vstd::seq_lib::seq_to_set_is_finite(keys);
    assert(keys.to_set().subset_of(m.dom()));
    vstd::set_lib::lemma_subset_equality(keys.to_set(), m.dom());
    assert(keys.to_set().contains(k));
}

} // verus!
