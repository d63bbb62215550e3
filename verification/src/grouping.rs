//! Grouping values by key, and counting keys.

use vstd::prelude::*;
use crate::rollup_view::bump;
use crate::table::{count_of, Counts, Table, TableKey};

verus! {

/// The values among the first `n` whose key is `k`, in order.
pub open spec fn grouped<KV, VV>(keys: Seq<KV>, vals: Seq<VV>, k: KV, n: int) -> Seq<VV>
    decreases n,
{
    if n <= 0 {
        Seq::empty()
    } else if keys[n - 1] == k {
        grouped(keys, vals, k, n - 1).push(vals[n - 1])
    } else {
        grouped(keys, vals, k, n - 1)
    }
}

/// The views of a sequence's elements.
pub open spec fn views<T: View>(s: Seq<T>) -> Seq<T::V> {
    s.map_values(|x: T| x@)
}

/// How many times each key occurs, counted in order.
pub open spec fn tally_of<KV>(s: Seq<KV>) -> Map<KV, u64>
    decreases s.len(),
{
    if s.len() == 0 {
        Map::empty()
    } else {
        bump(tally_of(s.drop_last()), s.last())
    }
}

/// Number of occurrences of `k` in `s`.
pub open spec fn occurrences<KV>(s: Seq<KV>, k: KV) -> nat
    decreases s.len(),
{
    if s.len() == 0 {
        0
    } else {
        occurrences(s.drop_last(), k) + if s.last() == k { 1nat } else { 0nat }
    }
}

/// Counting keys one by one counts each key's occurrences: a key absent from
/// the tally does not occur, and a present key occurs as often as its count.
pub proof fn law_tally_counts_occurrences<KV>(s: Seq<KV>, k: KV)
    requires
        s.len() <= u64::MAX,
    ensures
        count_of(tally_of(s), k) == occurrences(s, k),
        tally_of(s).dom().contains(k) <==> occurrences(s, k) > 0,
    decreases s.len(),
{
    if s.len() > 0 {
        law_tally_counts_occurrences(s.drop_last(), k);
        lemma_occurrences_bound(s.drop_last(), k);
    }
}

/// A key that occurs is in the sequence.
pub proof fn lemma_occurrences_contains<KV>(s: Seq<KV>, k: KV)
    requires
        occurrences(s, k) > 0,
    ensures
        s.contains(k),
    decreases s.len(),
{
    if s.last() == k {
        assert(s[s.len() - 1] == k);
    } else {
        lemma_occurrences_contains(s.drop_last(), k);
        let i = choose|i: int| 0 <= i < s.drop_last().len() && s.drop_last()[i] == k;
        assert(s[i] == k);
    }
}

proof fn lemma_occurrences_bound<KV>(s: Seq<KV>, k: KV)
    ensures
        occurrences(s, k) <= s.len(),
    decreases s.len(),
{
    if s.len() > 0 {
        lemma_occurrences_bound(s.drop_last(), k);
    }
}

/// A key occurs at most as often as the sequence is long.
pub proof fn lemma_occurrences_bound_pub<KV>(s: Seq<KV>, k: KV)
    ensures
        occurrences(s, k) <= s.len(),
{
    lemma_occurrences_bound(s, k);
}

/// The values of each key, in the order they come (a key appears when one of
/// its values does).
pub fn group_by<K: TableKey, V: TableKey>(keys: &Vec<K>, vals: &Vec<V>) -> (res: Table<K, Vec<V>>)
    requires
        keys@.len() == vals@.len(),
    ensures
        res.wf(),
        forall|k: K::V| res.view().dom().contains(k) <==> views(keys@).contains(k),
        forall|k: K::V| #[trigger]
            res.view().dom().contains(k) ==> views(res.view()[k]@) == grouped(
                views(keys@),
                views(vals@),
                k,
                keys@.len() as int,
            ),
{
    let ghost kv = views(keys@);
    let ghost vv = views(vals@);
    let mut t: Table<K, Vec<V>> = Table::new();
    let mut i: usize = 0;
    while i < keys.len()
        invariant
            t.wf(),
            i <= keys@.len(),
            keys@.len() == vals@.len(),
            kv == views(keys@),
            vv == views(vals@),
            forall|k: K::V| t.view().dom().contains(k) <==> kv.take(i as int).contains(k),
            forall|k: K::V| #[trigger]
                t.view().dom().contains(k) ==> views(t.view()[k]@) == grouped(kv, vv, k, i as int),
        decreases keys@.len() - i,
    {
        let ghost before = t.view();
        let ghost k0 = keys@[i as int]@;
        proof {
            assert(kv[i as int] == k0);
            assert(vv[i as int] == vals@[i as int]@);
        }
        match t.find(&keys[i]) {
            Some(pos) => {
                let mut g = t.replace_at(pos, Vec::new());
                g.push(vals[i].copy_key());
                proof {
                    assert(views(g@) =~= views(before[k0]@).push(vals@[i as int]@));
                }
                t.set_at(pos, g);
            },
            None => {
                let mut g: Vec<V> = Vec::new();
                g.push(vals[i].copy_key());
                proof {
                    assert forall|j: int| 0 <= j < i implies kv[j] != k0 by {
                        assert(kv.take(i as int)[j] == kv[j]);
                        if kv[j] == k0 {
                            assert(kv.take(i as int).contains(k0));
                        }
                    }
                    lemma_grouped_absent(kv, vv, k0, i as int);
                    assert(views(g@) =~= seq![vals@[i as int]@]);
                }
                let pos = t.entries.len();
                t.insert_new(pos, keys[i].copy_key(), g);
            },
        }
        proof {
            let ni = i + 1;
            assert(kv.take(ni) =~= kv.take(i as int).push(k0));
            assert forall|k: K::V| #[trigger]
                t.view().dom().contains(k) implies views(t.view()[k]@) == grouped(kv, vv, k, ni) by {
                if k != k0 {
                    assert(before.dom().contains(k));
                }
            }
            assert forall|k: K::V| t.view().dom().contains(k) <==> kv.take(ni).contains(k) by {
                vstd::seq_lib::lemma_seq_contains_after_push(kv.take(i as int), k0, k);
            }
        }
        i += 1;
    }
    proof {
        assert(kv.take(keys@.len() as int) =~= kv);
    }
    t
}

proof fn lemma_grouped_absent<KV, VV>(keys: Seq<KV>, vals: Seq<VV>, k: KV, n: int)
    requires
        0 <= n,
        forall|j: int| 0 <= j < n ==> keys[j] != k,
    ensures
        grouped(keys, vals, k, n) == Seq::<VV>::empty(),
    decreases n,
{
    if n > 0 {
        lemma_grouped_absent(keys, vals, k, n - 1);
    }
}

/// How many times each key occurs.
pub fn tally<K: TableKey>(keys: &Vec<K>) -> (res: Counts<K>)
    requires
        keys@.len() <= u64::MAX,
    ensures
        res.wf(),
        res.view() == tally_of(views(keys@)),
{
    let ghost kv = views(keys@);
    let mut t: Counts<K> = Table::new();
    let mut i: usize = 0;
    while i < keys.len()
        invariant
            t.wf(),
            i <= keys@.len() <= u64::MAX,
            kv == views(keys@),
            t.view() == tally_of(kv.take(i as int)),
        decreases keys@.len() - i,
    {
        proof {
            law_tally_counts_occurrences(kv.take(i as int), kv[i as int]);
            lemma_occurrences_bound(kv.take(i as int), kv[i as int]);
            assert(kv.take(i + 1).drop_last() =~= kv.take(i as int));
        }
        t.add_count(&keys[i], 1);
        i += 1;
    }
    proof {
        assert(kv.take(keys@.len() as int) =~= kv);
    }
    t
}

} // verus!
