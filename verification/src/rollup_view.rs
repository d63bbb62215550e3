//! The abstract content of a rollup, and why rollups can be built in pieces.
use vstd::prelude::*;
use crate::analytics::{fnv1a, path_key, RollupEntry};
use crate::table::{count_of, sum_counts};
use vstd::utf8::encode_utf8;

verus! {

/// What a rollup holds, as mathematical values.
pub struct RollupView {
    pub total: nat,
    pub status: Map<u16, u64>,
    pub paths: Map<Seq<char>, u64>,
    pub path_durations: Map<Seq<char>, Map<u16, u64>>,
    pub hosts: Map<Seq<char>, u64>,
    pub ips: Map<Seq<char>, u64>,
    pub methods: Map<Seq<char>, u64>,
    pub referrers: Map<Seq<char>, u64>,
    pub user_agents: Map<Seq<char>, u64>,
    pub durations: Map<u16, u64>,
    pub sizes: Map<u16, u64>,
    pub total_bytes: nat,
    pub hashes: Seq<u64>,
}

/// Adding one occurrence of `k`.
pub open spec fn bump<KV>(m: Map<KV, u64>, k: KV) -> Map<KV, u64> {
    m.insert(k, (count_of(m, k) + 1) as u64)
}

/// Adding one occurrence of a header value, when there is a non-empty one.
pub open spec fn bump_present(m: Map<Seq<char>, u64>, v: Option<String>) -> Map<Seq<char>, u64> {
    match v {
        Some(s) => if s@.len() > 0 { bump(m, s@) } else { m },
        None => m,
    }
}

/// Addition that stops at `u64::MAX`.
pub open spec fn sat_add(x: nat, y: nat) -> nat {
    if x + y > u64::MAX { u64::MAX as nat } else { x + y }
}

/// The duration bins recorded for `k`, empty when the path is unknown.
pub open spec fn durations_at(m: Map<Seq<char>, Map<u16, u64>>, k: Seq<char>) -> Map<u16, u64> {
    if m.dom().contains(k) { m[k] } else { Map::empty() }
}

/// The empty rollup.
pub open spec fn empty_view() -> RollupView {
    RollupView {
        total: 0,
        status: Map::empty(),
        paths: Map::empty(),
        path_durations: Map::empty(),
        hosts: Map::empty(),
        ips: Map::empty(),
        methods: Map::empty(),
        referrers: Map::empty(),
        user_agents: Map::empty(),
        durations: Map::empty(),
        sizes: Map::empty(),
        total_bytes: 0,
        hashes: Seq::empty(),
    }
}

/// The rollup `v` after one more log entry.
pub open spec fn add_view(v: RollupView, e: RollupEntry) -> RollupView {
    let p = path_key(&e);
    RollupView {
        total: v.total + 1,
        status: bump(v.status, e.status),
        paths: bump(v.paths, p),
        path_durations: v.path_durations.insert(p, bump(durations_at(v.path_durations, p), e.duration_bin)),
        hosts: bump(v.hosts, e.host@),
        ips: bump(v.ips, e.client_ip@),
        methods: bump(v.methods, e.method@),
        referrers: bump_present(v.referrers, e.referrer),
        user_agents: bump_present(v.user_agents, e.user_agent),
        durations: bump(v.durations, e.duration_bin),
        sizes: bump(v.sizes, e.size_bin),
        total_bytes: sat_add(v.total_bytes, e.size as nat),
        hashes: v.hashes.push(fnv1a(encode_utf8(e.client_ip@))),
    }
}

/// Two rollups added together.
pub open spec fn merge_view(a: RollupView, b: RollupView) -> RollupView {
    RollupView {
        total: a.total + b.total,
        status: sum_counts(a.status, b.status),
        paths: sum_counts(a.paths, b.paths),
        path_durations: Map::new(
            |k: Seq<char>| a.path_durations.dom().contains(k) || b.path_durations.dom().contains(k),
            |k: Seq<char>| sum_counts(durations_at(a.path_durations, k), durations_at(b.path_durations, k)),
        ),
        hosts: sum_counts(a.hosts, b.hosts),
        ips: sum_counts(a.ips, b.ips),
        methods: sum_counts(a.methods, b.methods),
        referrers: sum_counts(a.referrers, b.referrers),
        user_agents: sum_counts(a.user_agents, b.user_agents),
        durations: sum_counts(a.durations, b.durations),
        sizes: sum_counts(a.sizes, b.sizes),
        total_bytes: sat_add(a.total_bytes, b.total_bytes),
        hashes: a.hashes + b.hashes,
    }
}

/// The rollup of a sequence of log entries, counted in order.
pub open spec fn rollup_of(es: Seq<RollupEntry>) -> RollupView
    decreases es.len(),
{
    if es.len() == 0 {
        empty_view()
    } else {
        add_view(rollup_of(es.drop_last()), es.last())
    }
}

/// Every count of a map is at most `n`.
pub open spec fn counts_at_most<KV>(m: Map<KV, u64>, n: nat) -> bool {
    forall|k: KV| m.dom().contains(k) ==> #[trigger] m[k] <= n
}

/// No counter of `v` exceeds its request total.
pub open spec fn view_bounded(v: RollupView) -> bool {
    &&& counts_at_most(v.status, v.total)
    &&& counts_at_most(v.paths, v.total)
    &&& counts_at_most(v.hosts, v.total)
    &&& counts_at_most(v.ips, v.total)
    &&& counts_at_most(v.methods, v.total)
    &&& counts_at_most(v.referrers, v.total)
    &&& counts_at_most(v.user_agents, v.total)
    &&& counts_at_most(v.durations, v.total)
    &&& counts_at_most(v.sizes, v.total)
    &&& forall|k: Seq<char>| #[trigger] v.path_durations.dom().contains(k)
        ==> counts_at_most(v.path_durations[k], v.total)
    &&& v.total_bytes <= u64::MAX
}

proof fn lemma_bump_bounded<KV>(m: Map<KV, u64>, k: KV, n: nat)
    requires
        counts_at_most(m, n),
        n + 1 <= u64::MAX,
    ensures
        counts_at_most(bump(m, k), n + 1),
{
}

proof fn lemma_bump_present_bounded(m: Map<Seq<char>, u64>, v: Option<String>, n: nat)
    requires
        counts_at_most(m, n),
        n + 1 <= u64::MAX,
    ensures
        counts_at_most(bump_present(m, v), n + 1),
{
}

/// A rollup of `es` has `es.len()` requests and no counter above that.
pub proof fn lemma_rollup_of_bounded(es: Seq<RollupEntry>)
    requires
        es.len() <= u64::MAX,
    ensures
        rollup_of(es).total == es.len(),
        view_bounded(rollup_of(es)),
    decreases es.len(),
{
    if es.len() > 0 {
        let v = rollup_of(es.drop_last());
        let e = es.last();
        lemma_rollup_of_bounded(es.drop_last());
        let n = v.total;
        lemma_bump_bounded(v.status, e.status, n);
        lemma_bump_bounded(v.paths, path_key(&e), n);
        lemma_bump_bounded(v.hosts, e.host@, n);
        lemma_bump_bounded(v.ips, e.client_ip@, n);
        lemma_bump_bounded(v.methods, e.method@, n);
        lemma_bump_present_bounded(v.referrers, e.referrer, n);
        lemma_bump_present_bounded(v.user_agents, e.user_agent, n);
        lemma_bump_bounded(v.durations, e.duration_bin, n);
        lemma_bump_bounded(v.sizes, e.size_bin, n);
        let w = add_view(v, e);
        let p = path_key(&e);
        assert forall|k: Seq<char>| #[trigger] w.path_durations.dom().contains(k) implies counts_at_most(
            w.path_durations[k],
            w.total,
        ) by {
            if k == p {
                lemma_bump_bounded(durations_at(v.path_durations, p), e.duration_bin, n);
            } else {
                assert(counts_at_most(v.path_durations[k], n));
            }
        }
    }
}

/// Adding nothing leaves the counts as they are.
proof fn lemma_sum_empty<KV>(m: Map<KV, u64>)
    ensures
        sum_counts(m, Map::empty()) == m,
{
    assert(sum_counts(m, Map::empty()) =~= m);
}

/// One more occurrence on the right of a sum is one more occurrence of the sum.
proof fn lemma_bump_sum<KV>(a: Map<KV, u64>, b: Map<KV, u64>, k: KV)
    requires
        count_of(a, k) + count_of(b, k) + 1 <= u64::MAX,
    ensures
        bump(sum_counts(a, b), k) == sum_counts(a, bump(b, k)),
{
    assert(bump(sum_counts(a, b), k) =~= sum_counts(a, bump(b, k)));
}

proof fn lemma_bump_present_sum(
    a: Map<Seq<char>, u64>,
    b: Map<Seq<char>, u64>,
    v: Option<String>,
    na: nat,
    nb: nat,
)
    requires
        counts_at_most(a, na),
        counts_at_most(b, nb),
        na + nb + 1 <= u64::MAX,
    ensures
        bump_present(sum_counts(a, b), v) == sum_counts(a, bump_present(b, v)),
{
    match v {
        Some(s) => {
            if s@.len() > 0 {
                lemma_bump_sum(a, b, s@);
            }
        },
        None => {},
    }
}

/// Merging with the empty rollup changes nothing.
pub proof fn lemma_merge_empty(a: RollupView)
    requires
        a.total_bytes <= u64::MAX,
    ensures
        merge_view(a, empty_view()) == a,
{
    let m = merge_view(a, empty_view());
    lemma_sum_empty(a.status);
    lemma_sum_empty(a.paths);
    lemma_sum_empty(a.hosts);
    lemma_sum_empty(a.ips);
    lemma_sum_empty(a.methods);
    lemma_sum_empty(a.referrers);
    lemma_sum_empty(a.user_agents);
    lemma_sum_empty(a.durations);
    lemma_sum_empty(a.sizes);
    assert forall|k: Seq<char>| #[trigger] m.path_durations.dom().contains(k) implies m.path_durations[k]
        == a.path_durations[k] by {
        lemma_sum_empty(a.path_durations[k]);
    }
    assert(m.path_durations =~= a.path_durations);
    assert(m.hashes =~= a.hashes);
}

/// Counting one more entry after a merge is the merge of the counted right side.
proof fn lemma_add_after_merge(a: RollupView, b: RollupView, e: RollupEntry)
    requires
        view_bounded(a),
        view_bounded(b),
        a.total + b.total + 1 <= u64::MAX,
    ensures
        add_view(merge_view(a, b), e) == merge_view(a, add_view(b, e)),
{
    let n = a.total + b.total;
    let p = path_key(&e);
    lemma_bump_sum(a.status, b.status, e.status);
    lemma_bump_sum(a.paths, b.paths, p);
    lemma_bump_sum(a.hosts, b.hosts, e.host@);
    lemma_bump_sum(a.ips, b.ips, e.client_ip@);
    lemma_bump_sum(a.methods, b.methods, e.method@);
    lemma_bump_sum(a.durations, b.durations, e.duration_bin);
    lemma_bump_sum(a.sizes, b.sizes, e.size_bin);
    lemma_bump_present_sum(a.referrers, b.referrers, e.referrer, a.total, b.total);
    lemma_bump_present_sum(a.user_agents, b.user_agents, e.user_agent, a.total, b.total);
    let l = add_view(merge_view(a, b), e);
    let r = merge_view(a, add_view(b, e));
    assert forall|k: Seq<char>| #[trigger] l.path_durations.dom().contains(k) implies l.path_durations[k]
        == r.path_durations[k] by {
        if k == p {
            let da = durations_at(a.path_durations, p);
            let db = durations_at(b.path_durations, p);
            assert(count_of(da, e.duration_bin) <= a.total);
            assert(count_of(db, e.duration_bin) <= b.total);
            lemma_bump_sum(da, db, e.duration_bin);
        }
    }
    assert(l.path_durations =~= r.path_durations);
    assert(l.hashes =~= r.hashes);
}

/// Rolling up two batches separately and merging the results gives the rollup
/// of both batches counted one after the other: rollups can be built per
/// bucket, per ingest batch or per compaction step and added afterwards.
pub proof fn law_rollup_of_concat(a: Seq<RollupEntry>, b: Seq<RollupEntry>)
    requires
        a.len() + b.len() <= u64::MAX,
    ensures
        merge_view(rollup_of(a), rollup_of(b)) == rollup_of(a + b),
    decreases b.len(),
{
    lemma_rollup_of_bounded(a);
    if b.len() == 0 {
        assert(a + b =~= a);
        lemma_merge_empty(rollup_of(a));
    } else {
        let b0 = b.drop_last();
        let e = b.last();
        law_rollup_of_concat(a, b0);
        lemma_rollup_of_bounded(b0);
        assert((a + b).drop_last() =~= a + b0);
        assert((a + b).last() == e);
        lemma_add_after_merge(rollup_of(a), rollup_of(b0), e);
    }
}

/// Several rollups added together, in order.
pub open spec fn merge_all(vs: Seq<RollupView>) -> RollupView
    decreases vs.len(),
{
    if vs.len() == 0 {
        empty_view()
    } else {
        merge_view(merge_all(vs.drop_last()), vs.last())
    }
}

/// Batches of entries, one after the other.
pub open spec fn concat_all(bs: Seq<Seq<RollupEntry>>) -> Seq<RollupEntry>
    decreases bs.len(),
{
    if bs.len() == 0 {
        Seq::empty()
    } else {
        concat_all(bs.drop_last()) + bs.last()
    }
}

/// The rollup of each batch.
pub open spec fn rollups_of(bs: Seq<Seq<RollupEntry>>) -> Seq<RollupView> {
    bs.map_values(|b: Seq<RollupEntry>| rollup_of(b))
}

proof fn lemma_concat_all_len(bs: Seq<Seq<RollupEntry>>)
    ensures
        bs.len() > 0 ==> concat_all(bs.drop_last()).len() <= concat_all(bs).len(),
{
}

/// Rolling up any number of batches separately and adding the rollups up gives
/// the rollup of all their entries: an hour rebuilt from its minutes, or a day
/// from its hours, counts exactly the entries that fell into it.
pub proof fn law_merge_all_batches(bs: Seq<Seq<RollupEntry>>)
    requires
        concat_all(bs).len() <= u64::MAX,
    ensures
        merge_all(rollups_of(bs)) == rollup_of(concat_all(bs)),
    decreases bs.len(),
{
    if bs.len() == 0 {
    } else {
        let init = bs.drop_last();
        lemma_concat_all_len(bs);
        law_merge_all_batches(init);
        assert(rollups_of(bs).drop_last() =~= rollups_of(init));
        law_rollup_of_concat(concat_all(init), bs.last());
    }
}

/// The request total of added rollups is the sum of their totals, so it only
/// grows as rollups are added.
pub proof fn lemma_merge_all_total(vs: Seq<RollupView>, i: int)
    requires
        0 <= i <= vs.len(),
    ensures
        merge_all(vs.take(i)).total <= merge_all(vs).total,
    decreases vs.len(),
{
    if i < vs.len() {
        lemma_merge_all_total(vs.drop_last(), i);
        assert(vs.drop_last().take(i) =~= vs.take(i));
    } else {
        assert(vs.take(i) =~= vs);
    }
}

} // verus!
