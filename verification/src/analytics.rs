//! Traffic rollups: per-bucket counters that can be merged, and the arithmetic of
//! time buckets.
//!
//! Floating-point parts of a rollup (the sums of durations in milliseconds and
//! the logarithmic bin of a measurement) are kept by the caller; everything
//! counted here is an integer.

use vstd::prelude::*;
use crate::histogram::Histogram;
use crate::sortset::{sorted_unique, strictly_increasing};
use crate::table::{
    count_of, counts_bounded, distinct_keys, lemma_pairs_map_at, lemma_pairs_map_dom, pairs_map, sum_counts,
    key_views, Counts, Table,
};
use vstd::utf8::encode_utf8;
use crate::rollup_view::{
    bump, concat_all, durations_at, add_view, law_merge_all_batches, law_rollup_of_concat, rollups_of, merge_view, empty_view, lemma_merge_all_total, lemma_rollup_of_bounded, merge_all,
    rollup_of, RollupView,
};

verus! {

pub const MINUTE_SECS: u64 = 60;
pub const HOUR_SECS: u64 = 3_600;
pub const DAY_SECS: u64 = 86_400;

/// Granularity of a stored rollup.
#[derive(Clone, Copy, Debug, PartialEq, Eq, Structural)]
pub enum Resolution {
    Minute,
    Hour,
    Day,
}

pub open spec fn resolution_secs(r: Resolution) -> u64 {
    match r {
        Resolution::Minute => 60,
        Resolution::Hour => 3_600,
        Resolution::Day => 86_400,
    }
}

impl Resolution {
    /// Length of one bucket of this resolution, in seconds.
    pub fn seconds(self) -> (s: u64)
        ensures
            s == resolution_secs(self),
    {
        match self {
            Resolution::Minute => MINUTE_SECS,
            Resolution::Hour => HOUR_SECS,
            Resolution::Day => DAY_SECS,
        }
    }
}

/// Start of the bucket of length `bucket_secs` that holds second `seconds`.
pub open spec fn bucket_of(seconds: u64, bucket_secs: u64) -> u64 {
    ((seconds / bucket_secs) * bucket_secs) as u64
}

/// Start of the bucket that holds a whole second (the caller truncates the
/// floating-point timestamp, negative values to zero).
pub fn bucket_start_secs(seconds: u64, bucket_secs: u64) -> (res: u64)
    requires
        bucket_secs > 0,
    ensures
        res == bucket_of(seconds, bucket_secs),
        res <= seconds,
        res % bucket_secs == 0,
        seconds < res + bucket_secs,
{
    let q = seconds / bucket_secs;
    let r = seconds % bucket_secs;
    proof {
        assert(q * bucket_secs + r == seconds && r < bucket_secs) by (nonlinear_arith)
            requires
                q == seconds / bucket_secs,
                r == seconds % bucket_secs,
                bucket_secs > 0,
        ;
        vstd::arithmetic::div_mod::lemma_mod_multiples_basic(q as int, bucket_secs as int);
    }
    q * bucket_secs
}

/// FNV-1a over bytes, with 64-bit wrapping arithmetic.
pub open spec fn fnv1a(bytes: Seq<u8>) -> u64
    decreases bytes.len(),
{
    if bytes.len() == 0 {
        0xcbf29ce484222325
    } else {
        (fnv1a(bytes.drop_last()) ^ (bytes.last() as u64)).wrapping_mul(0x100000001b3)
    }
}

/// A hash of a client address that is the same in every process.
pub fn stable_hash(bytes: &[u8]) -> (h: u64)
    ensures
        h == fnv1a(bytes@),
{
    let mut hash: u64 = 0xcbf29ce484222325;
    let mut i: usize = 0;
    while i < bytes.len()
        invariant
            i <= bytes@.len(),
            hash == fnv1a(bytes@.take(i as int)),
        decreases bytes@.len() - i,
    {
        proof {
            assert(bytes@.take(i + 1).drop_last() == bytes@.take(i as int));
        }
        hash = hash ^ (bytes[i] as u64);
        hash = hash.wrapping_mul(0x100000001b3);
        i += 1;
    }
    assert(bytes@.take(bytes@.len() as int) == bytes@);
    hash
}

/// Per-path counters of a rollup.
pub struct PathRollup {
    count: u64,
    durations: Histogram,
}

impl PathRollup {
    pub closed spec fn wf(&self) -> bool {
        self.durations.wf() && self.durations.total() <= self.count
    }

    pub closed spec fn count_spec(&self) -> nat {
        self.count as nat
    }

    pub closed spec fn durations_spec(&self) -> Histogram {
        self.durations
    }

    pub fn count(&self) -> (n: u64)
        ensures
            n == self.count_spec(),
    {
        self.count
    }

    pub fn durations(&self) -> (h: &Histogram)
        ensures
            *h == self.durations_spec(),
    {
        &self.durations
    }

    pub fn new() -> (res: PathRollup)
        ensures
            res.wf(),
            res.count_spec() == 0,
            res.durations_spec().total() == 0,
            res.durations_spec().bins_view() == Map::<u16, u64>::empty(),
    {
        PathRollup { count: 0, durations: Histogram::new() }
    }

    /// Adds another path entry's counters into this one.
    pub fn merge_from(&mut self, other: &PathRollup)
        requires
            old(self).wf(),
            other.wf(),
            old(self).count_spec() + other.count_spec() <= u64::MAX,
        ensures
            final(self).wf(),
            final(self).count_spec() == old(self).count_spec() + other.count_spec(),
            final(self).durations_spec().bins_view() == sum_counts(
                old(self).durations_spec().bins_view(),
                other.durations_spec().bins_view(),
            ),
            final(self).durations_spec().total() == old(self).durations_spec().total()
                + other.durations_spec().total(),
    {
        self.count = self.count + other.count;
        self.durations.merge(&other.durations);
    }

    /// A path entry made of a request count and its duration histogram.
    pub fn from_parts(count: u64, durations: Histogram) -> (res: Option<PathRollup>)
        requires
            durations.wf(),
        ensures
            res is Some <==> durations.total() <= count,
            res matches Some(p) ==> p.wf() && p.count_spec() == count && p.durations_spec() == durations,
    {
        if durations.count() <= count {
            Some(PathRollup { count, durations })
        } else {
            None
        }
    }
}

/// What one log entry contributes to a rollup.
pub struct RollupEntry {
    pub status: u16,
    pub host: String,
    pub uri: String,
    pub client_ip: String,
    pub method: String,
    pub size: u64,
    /// Histogram bin of the duration in milliseconds.
    pub duration_bin: u16,
    /// Histogram bin of the response size.
    pub size_bin: u16,
    /// First `Referer` (or `Referrer`) header value.
    pub referrer: Option<String>,
    /// First `User-Agent` header value.
    pub user_agent: Option<String>,
}

/// The key under which a request is counted per path: host followed by URI.
pub open spec fn path_key(e: &RollupEntry) -> Seq<char> {
    e.host@ + e.uri@
}

/// The integer counters of one time bucket.
pub struct Rollup {
    total: u64,
    status_codes: Counts<u16>,
    paths: Table<String, PathRollup>,
    hosts: Counts<String>,
    ips: Counts<String>,
    durations: Histogram,
    total_bytes: u64,
    sizes: Histogram,
    client_hashes: Vec<u64>,
    referrers: Counts<String>,
    user_agents: Counts<String>,
    methods: Counts<String>,
}

impl View for Rollup {
    type V = RollupView;

    closed spec fn view(&self) -> RollupView {
        RollupView {
            total: self.total as nat,
            status: self.status_codes.view(),
            paths: self.path_counts(),
            path_durations: self.path_durations(),
            hosts: self.hosts.view(),
            ips: self.ips.view(),
            methods: self.methods.view(),
            referrers: self.referrers.view(),
            user_agents: self.user_agents.view(),
            durations: self.durations.bins_view(),
            sizes: self.sizes.bins_view(),
            total_bytes: self.total_bytes as nat,
            hashes: self.client_hashes@,
        }
    }
}

impl Rollup {
    pub closed spec fn total_spec(&self) -> nat {
        self.total as nat
    }

    pub closed spec fn status_view(&self) -> Map<u16, u64> {
        self.status_codes.view()
    }

    pub closed spec fn hosts_view(&self) -> Map<Seq<char>, u64> {
        self.hosts.view()
    }

    pub closed spec fn ips_view(&self) -> Map<Seq<char>, u64> {
        self.ips.view()
    }

    pub closed spec fn methods_view(&self) -> Map<Seq<char>, u64> {
        self.methods.view()
    }

    pub closed spec fn referrers_view(&self) -> Map<Seq<char>, u64> {
        self.referrers.view()
    }

    pub closed spec fn user_agents_view(&self) -> Map<Seq<char>, u64> {
        self.user_agents.view()
    }

    /// Requests per path.
    pub closed spec fn path_counts(&self) -> Map<Seq<char>, u64> {
        Map::new(
            |k: Seq<char>| self.paths.view().dom().contains(k),
            |k: Seq<char>| self.paths.view()[k].count_spec() as u64,
        )
    }

    /// Duration bins per path.
    pub closed spec fn path_durations(&self) -> Map<Seq<char>, Map<u16, u64>> {
        Map::new(
            |k: Seq<char>| self.paths.view().dom().contains(k),
            |k: Seq<char>| self.paths.view()[k].durations_spec().bins_view(),
        )
    }

    pub closed spec fn durations_view(&self) -> Map<u16, u64> {
        self.durations.bins_view()
    }

    pub closed spec fn sizes_view(&self) -> Map<u16, u64> {
        self.sizes.bins_view()
    }

    pub closed spec fn total_bytes_spec(&self) -> nat {
        self.total_bytes as nat
    }

    pub closed spec fn client_hashes_view(&self) -> Seq<u64> {
        self.client_hashes@
    }

    pub closed spec fn wf(&self) -> bool {
        &&& self.status_codes.wf()
        &&& self.paths.wf()
        &&& self.hosts.wf()
        &&& self.ips.wf()
        &&& self.referrers.wf()
        &&& self.user_agents.wf()
        &&& self.methods.wf()
        &&& self.durations.wf()
        &&& self.sizes.wf()
        &&& counts_bounded(self.status_codes.view(), self.total as nat)
        &&& counts_bounded(self.hosts.view(), self.total as nat)
        &&& counts_bounded(self.ips.view(), self.total as nat)
        &&& counts_bounded(self.referrers.view(), self.total as nat)
        &&& counts_bounded(self.user_agents.view(), self.total as nat)
        &&& counts_bounded(self.methods.view(), self.total as nat)
        &&& self.durations.total() <= self.total
        &&& self.sizes.total() <= self.total
        &&& forall|k: Seq<char>|
            self.paths.view().dom().contains(k) ==> (#[trigger] self.paths.view()[k]).wf()
                && self.paths.view()[k].count_spec() <= self.total
    }

    /// The parts of a rollup's content, each as its getter gives it.
    pub proof fn lemma_view_parts(&self)
        ensures
            self@.total == self.total_spec(),
            self@.status == self.status_view(),
            self@.paths == self.path_counts(),
            self@.path_durations == self.path_durations(),
            self@.hosts == self.hosts_view(),
            self@.ips == self.ips_view(),
            self@.methods == self.methods_view(),
            self@.referrers == self.referrers_view(),
            self@.user_agents == self.user_agents_view(),
            self@.durations == self.durations_view(),
            self@.sizes == self.sizes_view(),
            self@.total_bytes == self.total_bytes_spec(),
            self@.hashes == self.client_hashes_view(),
    {
    }

    /// An empty rollup.
    pub fn new() -> (res: Rollup)
        ensures
            res.wf(),
            res.total_spec() == 0,
            res.status_view() == Map::<u16, u64>::empty(),
            res.hosts_view() == Map::<Seq<char>, u64>::empty(),
            res.ips_view() == Map::<Seq<char>, u64>::empty(),
            res.methods_view() == Map::<Seq<char>, u64>::empty(),
            res.referrers_view() == Map::<Seq<char>, u64>::empty(),
            res.user_agents_view() == Map::<Seq<char>, u64>::empty(),
            res.path_counts() == Map::<Seq<char>, u64>::empty(),
            res.durations_view() == Map::<u16, u64>::empty(),
            res.sizes_view() == Map::<u16, u64>::empty(),
            res.total_bytes_spec() == 0,
            res.client_hashes_view() == Seq::<u64>::empty(),
            res@ == empty_view(),
    {
        let res = Rollup {
            total: 0,
            status_codes: Table::new(),
            paths: Table::new(),
            hosts: Table::new(),
            ips: Table::new(),
            durations: Histogram::new(),
            total_bytes: 0,
            sizes: Histogram::new(),
            client_hashes: Vec::new(),
            referrers: Table::new(),
            user_agents: Table::new(),
            methods: Table::new(),
        };
        assert(res.path_counts() =~= Map::<Seq<char>, u64>::empty());
        assert(res.path_durations() =~= Map::<Seq<char>, Map<u16, u64>>::empty());
        res
    }

    pub fn total(&self) -> (n: u64)
        ensures
            n == self.total_spec(),
    {
        self.total
    }

    pub fn total_bytes(&self) -> (n: u64)
        ensures
            n == self.total_bytes_spec(),
    {
        self.total_bytes
    }

    pub fn status_codes(&self) -> (t: &Counts<u16>)
        ensures
            t.view() == self.status_view(),
            self.wf() ==> t.wf(),
    {
        &self.status_codes
    }

    pub fn hosts(&self) -> (t: &Counts<String>)
        ensures
            t.view() == self.hosts_view(),
            self.wf() ==> t.wf(),
    {
        &self.hosts
    }

    pub fn ips(&self) -> (t: &Counts<String>)
        ensures
            t.view() == self.ips_view(),
            self.wf() ==> t.wf(),
    {
        &self.ips
    }

    pub fn methods(&self) -> (t: &Counts<String>)
        ensures
            t.view() == self.methods_view(),
            self.wf() ==> t.wf(),
    {
        &self.methods
    }

    pub fn referrers(&self) -> (t: &Counts<String>)
        ensures
            t.view() == self.referrers_view(),
            self.wf() ==> t.wf(),
    {
        &self.referrers
    }

    pub fn user_agents(&self) -> (t: &Counts<String>)
        ensures
            t.view() == self.user_agents_view(),
            self.wf() ==> t.wf(),
    {
        &self.user_agents
    }

    pub fn paths(&self) -> (t: &Table<String, PathRollup>)
        ensures
            forall|k: Seq<char>|
                t.view().dom().contains(k) <==> #[trigger] self.path_counts().dom().contains(k),
            forall|k: Seq<char>|
                t.view().dom().contains(k) ==> #[trigger] t.view()[k].count_spec()
                    == self.path_counts()[k],
            self.wf() ==> t.wf(),
    {
        &self.paths
    }

    pub fn durations(&self) -> (h: &Histogram)
        ensures
            h.bins_view() == self.durations_view(),
            self.wf() ==> h.wf(),
    {
        &self.durations
    }

    pub fn sizes(&self) -> (h: &Histogram)
        ensures
            h.bins_view() == self.sizes_view(),
            self.wf() ==> h.wf(),
    {
        &self.sizes
    }

    pub fn client_hashes(&self) -> (v: &Vec<u64>)
        ensures
            v@ == self.client_hashes_view(),
    {
        &self.client_hashes
    }

    /// Counts one log entry (`Rollup::add_entry`).
    pub fn add_entry(&mut self, e: &RollupEntry)
        requires
            old(self).wf(),
            old(self).total_spec() < u64::MAX,
        ensures
            final(self).wf(),
            final(self).total_spec() == old(self).total_spec() + 1,
            final(self).status_view() == bump(old(self).status_view(), e.status),
            final(self).path_counts() == bump(old(self).path_counts(), path_key(e)),
            final(self).hosts_view() == bump(old(self).hosts_view(), e.host@),
            final(self).ips_view() == bump(old(self).ips_view(), e.client_ip@),
            final(self).methods_view() == bump(old(self).methods_view(), e.method@),
            final(self).durations_view() == bump(old(self).durations_view(), e.duration_bin),
            final(self).sizes_view() == bump(old(self).sizes_view(), e.size_bin),
            final(self).total_bytes_spec() == (if old(self).total_bytes_spec() + e.size > u64::MAX {
                u64::MAX as int
            } else {
                old(self).total_bytes_spec() + e.size
            }),
            final(self).client_hashes_view() == old(self).client_hashes_view().push(
                fnv1a(encode_utf8(e.client_ip@)),
            ),
            final(self).referrers_view() == (match &e.referrer {
                Some(r) => if r@.len() > 0 { bump(old(self).referrers_view(), r@) } else { old(self).referrers_view() },
                None => old(self).referrers_view(),
            }),
            final(self).user_agents_view() == (match &e.user_agent {
                Some(u) => if u@.len() > 0 { bump(old(self).user_agents_view(), u@) } else { old(self).user_agents_view() },
                None => old(self).user_agents_view(),
            }),
        final(self)@ == add_view(old(self)@, *e),
    {
        let t = self.total;
        self.total = t + 1;
        self.status_codes.add_count(&e.status, 1);
        let mut path = e.host.clone();
        path.append(e.uri.as_str());
        self.add_path(&path, e.duration_bin);
        self.hosts.add_count(&e.host, 1);
        self.ips.add_count(&e.client_ip, 1);
        self.methods.add_count(&e.method, 1);
        self.durations.add_bin(e.duration_bin);
        self.total_bytes = self.total_bytes.saturating_add(e.size);
        self.sizes.add_bin(e.size_bin);
        let h = stable_hash(e.client_ip.as_str().as_bytes());
        self.client_hashes.push(h);
        if let Some(r) = &e.referrer {
            if !r.as_str().is_empty() {
                self.referrers.add_count(r, 1);
            }
        }
        if let Some(u) = &e.user_agent {
            if !u.as_str().is_empty() {
                self.user_agents.add_count(u, 1);
            }
        }
    }

    /// Counts one more request with duration bin `bin` for `path`.
    fn add_path(&mut self, path: &String, bin: u16)
        requires
            old(self).paths.wf(),
            old(self).total >= 1,
            forall|k: Seq<char>|
                old(self).paths.view().dom().contains(k) ==> (#[trigger] old(self).paths.view()[k]).wf()
                    && old(self).paths.view()[k].count_spec() < old(self).total,
        ensures
            final(self).paths.wf(),
            final(self).total == old(self).total,
            final(self).status_codes == old(self).status_codes,
            final(self).hosts == old(self).hosts,
            final(self).ips == old(self).ips,
            final(self).methods == old(self).methods,
            final(self).referrers == old(self).referrers,
            final(self).user_agents == old(self).user_agents,
            final(self).durations == old(self).durations,
            final(self).sizes == old(self).sizes,
            final(self).total_bytes == old(self).total_bytes,
            final(self).client_hashes == old(self).client_hashes,
            final(self).path_counts() == bump(old(self).path_counts(), path@),
            forall|k: Seq<char>|
                final(self).paths.view().dom().contains(k) ==> (#[trigger] final(self).paths.view()[k]).wf()
                    && final(self).paths.view()[k].count_spec() <= final(self).total,
        final(self).path_durations() == old(self).path_durations().insert(
                path@,
                bump(durations_at(old(self).path_durations(), path@), bin),
            ),
    {
        let ghost old_view = self.paths.view();
        let ghost newp: PathRollup;
        match self.paths.find(path) {
            Some(i) => {
                let mut p = self.paths.replace_at(i, PathRollup::new());
                proof {
                    assert(old_view[path@] == p);
                }
                p.count = p.count + 1;
                p.durations.add_bin(bin);
                proof {
                    newp = p;
                }
                self.paths.set_at(i, p);
                proof {
                    assert(self.paths.view() =~= old_view.insert(path@, newp));
                }
            },
            None => {
                let mut p = PathRollup::new();
                p.count = 1;
                p.durations.add_bin(bin);
                proof {
                    newp = p;
                }
                let pos = self.paths.entries.len();
                self.paths.insert_new(pos, path.clone(), p);
            },
        }
        proof {
            assert(self.paths.view() == old_view.insert(path@, newp));
            assert(newp.wf() && newp.count_spec() == count_of(old(self).path_counts(), path@) + 1);
            assert forall|k: Seq<char>|
                self.paths.view().dom().contains(k) implies (#[trigger] self.paths.view()[k]).wf()
                    && self.paths.view()[k].count_spec() <= self.total by {
                if k != path@ {
                    assert(old_view.dom().contains(k));
                } else if old_view.dom().contains(k) {
                    assert(old_view[k].count_spec() < self.total);
                }
            }
        }
        assert(self.path_counts() =~= bump(old(self).path_counts(), path@));
        assert(newp.durations_spec().bins_view() == bump(durations_at(old(self).path_durations(), path@), bin));
        assert(self.path_durations() =~= old(self).path_durations().insert(
            path@,
            bump(durations_at(old(self).path_durations(), path@), bin),
        ));
    }
    /// Adds the counters of `p` into the entry for `path`, creating it when absent.
    fn merge_path(&mut self, path: &String, p: &PathRollup)
        requires
            old(self).paths.wf(),
            p.wf(),
            forall|k: Seq<char>|
                old(self).paths.view().dom().contains(k) ==> (#[trigger] old(self).paths.view()[k]).wf(),
            old(self).paths.view().dom().contains(path@) ==> old(self).paths.view()[path@].count_spec()
                + p.count_spec() <= u64::MAX,
        ensures
            final(self).paths.wf(),
            final(self).total == old(self).total,
            final(self).status_codes == old(self).status_codes,
            final(self).hosts == old(self).hosts,
            final(self).ips == old(self).ips,
            final(self).methods == old(self).methods,
            final(self).referrers == old(self).referrers,
            final(self).user_agents == old(self).user_agents,
            final(self).durations == old(self).durations,
            final(self).sizes == old(self).sizes,
            final(self).total_bytes == old(self).total_bytes,
            final(self).client_hashes == old(self).client_hashes,
            final(self).paths.view().dom() == old(self).paths.view().dom().insert(path@),
            forall|k: Seq<char>|
                k != path@ && old(self).paths.view().dom().contains(k) ==> final(self).paths.view()[k]
                    == old(self).paths.view()[k],
            final(self).paths.view()[path@].wf(),
            final(self).paths.view()[path@].count_spec() == (if old(self).paths.view().dom().contains(path@) {
                old(self).paths.view()[path@].count_spec()
            } else {
                0
            }) + p.count_spec(),
            final(self).paths.view()[path@].durations_spec().bins_view() == sum_counts(
                if old(self).paths.view().dom().contains(path@) {
                    old(self).paths.view()[path@].durations_spec().bins_view()
                } else {
                    Map::<u16, u64>::empty()
                },
                p.durations_spec().bins_view(),
            ),
    {
        let ghost old_view = self.paths.view();
        match self.paths.find(path) {
            Some(i) => {
                let mut q = self.paths.replace_at(i, PathRollup::new());
                proof {
                    assert(old_view[path@] == q);
                }
                q.merge_from(p);
                self.paths.set_at(i, q);
                proof {
                    assert(self.paths.view() =~= old_view.insert(path@, q));
                }
            },
            None => {
                let mut q = PathRollup::new();
                q.merge_from(p);
                let pos = self.paths.entries.len();
                self.paths.insert_new(pos, path.clone(), q);
            },
        }
    }

    /// Adds every counter of `other` into this rollup (`Rollup::merge`). The
    /// client hashes of `other` are appended; call `finish_bucket` to sort and
    /// deduplicate them.
    pub fn merge(&mut self, other: &Rollup)
        requires
            old(self).wf(),
            other.wf(),
            old(self).total_spec() + other.total_spec() <= u64::MAX,
        ensures
            final(self).wf(),
            final(self).total_spec() == old(self).total_spec() + other.total_spec(),
            final(self).status_view() == sum_counts(old(self).status_view(), other.status_view()),
            final(self).hosts_view() == sum_counts(old(self).hosts_view(), other.hosts_view()),
            final(self).ips_view() == sum_counts(old(self).ips_view(), other.ips_view()),
            final(self).methods_view() == sum_counts(old(self).methods_view(), other.methods_view()),
            final(self).referrers_view() == sum_counts(old(self).referrers_view(), other.referrers_view()),
            final(self).user_agents_view() == sum_counts(
                old(self).user_agents_view(),
                other.user_agents_view(),
            ),
            final(self).path_counts() == sum_counts(old(self).path_counts(), other.path_counts()),
            forall|k: Seq<char>| #[trigger] final(self).path_durations().dom().contains(k)
                ==> final(self).path_durations()[k] == sum_counts(
                    if old(self).path_durations().dom().contains(k) {
                        old(self).path_durations()[k]
                    } else {
                        Map::<u16, u64>::empty()
                    },
                    if other.path_durations().dom().contains(k) {
                        other.path_durations()[k]
                    } else {
                        Map::<u16, u64>::empty()
                    },
                ),
            final(self).durations_view() == sum_counts(old(self).durations_view(), other.durations_view()),
            final(self).sizes_view() == sum_counts(old(self).sizes_view(), other.sizes_view()),
            final(self).total_bytes_spec() == (if old(self).total_bytes_spec() + other.total_bytes_spec()
                > u64::MAX {
                u64::MAX as nat
            } else {
                old(self).total_bytes_spec() + other.total_bytes_spec()
            }),
            final(self).client_hashes_view() == old(self).client_hashes_view() + other.client_hashes_view(),
            final(self)@ == merge_view(old(self)@, other@),
    {
        let ghost base = *self;
        let new_total = self.total + other.total;
        proof {
            assert forall|k: u16| count_of(self.status_codes.view(), k) + count_of(other.status_codes.view(), k) <= u64::MAX by {}
            assert forall|k: Seq<char>| count_of(self.hosts.view(), k) + count_of(other.hosts.view(), k) <= u64::MAX by {}
            assert forall|k: Seq<char>| count_of(self.ips.view(), k) + count_of(other.ips.view(), k) <= u64::MAX by {}
            assert forall|k: Seq<char>| count_of(self.methods.view(), k) + count_of(other.methods.view(), k) <= u64::MAX by {}
            assert forall|k: Seq<char>| count_of(self.referrers.view(), k) + count_of(other.referrers.view(), k) <= u64::MAX by {}
            assert forall|k: Seq<char>| count_of(self.user_agents.view(), k) + count_of(other.user_agents.view(), k) <= u64::MAX by {}
        }
        self.status_codes.merge_counts(&other.status_codes);
        self.hosts.merge_counts(&other.hosts);
        self.ips.merge_counts(&other.ips);
        self.methods.merge_counts(&other.methods);
        self.referrers.merge_counts(&other.referrers);
        self.user_agents.merge_counts(&other.user_agents);
        self.durations.merge(&other.durations);
        self.sizes.merge(&other.sizes);
        self.total_bytes = self.total_bytes.saturating_add(other.total_bytes);
        let mut hashes: Vec<u64> = Vec::new();
        let mut i: usize = 0;
        while i < self.client_hashes.len()
            invariant
                i <= self.client_hashes@.len(),
                hashes@ == self.client_hashes@.take(i as int),
            decreases self.client_hashes@.len() - i,
        {
            hashes.push(self.client_hashes[i]);
            i += 1;
            proof {
                assert(self.client_hashes@.take(i as int) == self.client_hashes@.take(i - 1).push(
                    self.client_hashes@[i - 1],
                ));
            }
        }
        proof {
            assert(self.client_hashes@.take(self.client_hashes@.len() as int) == self.client_hashes@);
        }
        let mut i: usize = 0;
        while i < other.client_hashes.len()
            invariant
                i <= other.client_hashes@.len(),
                hashes@ == base.client_hashes@ + other.client_hashes@.take(i as int),
            decreases other.client_hashes@.len() - i,
        {
            hashes.push(other.client_hashes[i]);
            i += 1;
            proof {
                assert(other.client_hashes@.take(i as int) == other.client_hashes@.take(i - 1).push(
                    other.client_hashes@[i - 1],
                ));
            }
        }
        proof {
            assert(other.client_hashes@.take(other.client_hashes@.len() as int) == other.client_hashes@);
        }
        self.client_hashes = hashes;
        self.total = new_total;
        let v = other.paths.as_vec();
        let ghost op = other.paths.pairs();
        proof {
            other.paths.lemma_reveal();
        }
        let mut j: usize = 0;
        while j < v.len()
            invariant
                j <= v@.len(),
                v@.len() == op.len(),
                forall|m: int| #![trigger v@[m]] 0 <= m < v@.len() ==> (v@[m].0@, v@[m].1) == op[m],
                op == other.paths.pairs(),
                other.wf(),
                other.paths.view() == pairs_map(op),
                distinct_keys(op),
                self.total == new_total,
                new_total == base.total + other.total,
                self.paths.wf(),
                self.status_codes.view() == sum_counts(base.status_codes.view(), other.status_codes.view()),
                self.hosts.view() == sum_counts(base.hosts.view(), other.hosts.view()),
                self.ips.view() == sum_counts(base.ips.view(), other.ips.view()),
                self.methods.view() == sum_counts(base.methods.view(), other.methods.view()),
                self.referrers.view() == sum_counts(base.referrers.view(), other.referrers.view()),
                self.user_agents.view() == sum_counts(base.user_agents.view(), other.user_agents.view()),
                self.durations.bins_view() == sum_counts(base.durations.bins_view(), other.durations.bins_view()),
                self.sizes.bins_view() == sum_counts(base.sizes.bins_view(), other.sizes.bins_view()),
                self.status_codes.wf() && self.hosts.wf() && self.ips.wf() && self.methods.wf()
                    && self.referrers.wf() && self.user_agents.wf(),
                self.durations.wf() && self.sizes.wf(),
                self.durations.total() == base.durations.total() + other.durations.total(),
                self.sizes.total() == base.sizes.total() + other.sizes.total(),
                self.total_bytes == (if base.total_bytes + other.total_bytes > u64::MAX {
                    u64::MAX as int
                } else {
                    base.total_bytes + other.total_bytes
                }),
                self.client_hashes@ == base.client_hashes@ + other.client_hashes@,
                base.wf(),
                self.paths.view().dom() == base.paths.view().dom().union(pairs_map(op.take(j as int)).dom()),
                forall|k: Seq<char>| #[trigger] self.paths.view().dom().contains(k) ==> {
                    &&& self.paths.view()[k].wf()
                    &&& self.paths.view()[k].count_spec() == (if base.paths.view().dom().contains(k) {
                        base.paths.view()[k].count_spec()
                    } else {
                        0
                    }) + (if pairs_map(op.take(j as int)).dom().contains(k) {
                        pairs_map(op.take(j as int))[k].count_spec()
                    } else {
                        0
                    })
                    &&& self.paths.view()[k].durations_spec().bins_view() == sum_counts(
                        if base.paths.view().dom().contains(k) {
                            base.paths.view()[k].durations_spec().bins_view()
                        } else {
                            Map::<u16, u64>::empty()
                        },
                        if pairs_map(op.take(j as int)).dom().contains(k) {
                            pairs_map(op.take(j as int))[k].durations_spec().bins_view()
                        } else {
                            Map::<u16, u64>::empty()
                        },
                    )
                },
            decreases v@.len() - j,
        {
            let ghost prefix = pairs_map(op.take(j as int));
            let ghost k = v@[j as int].0@;
            proof {
                assert(op.take(j + 1).drop_last() == op.take(j as int));
                lemma_pairs_map_dom(op.take(j as int), k);
                if prefix.dom().contains(k) {
                    let m = choose|m: int| 0 <= m < op.take(j as int).len() && op.take(j as int)[m].0 == k;
                    assert(op[m].0 == op[j as int].0);
                }
                lemma_pairs_map_at(op, j as int);
                assert(other.paths.view()[k] == v@[j as int].1);
                if self.paths.view().dom().contains(k) {
                    assert(base.paths.view().dom().contains(k));
                    assert(self.paths.view()[k].count_spec() == base.paths.view()[k].count_spec());
                }
            }
            self.merge_path(&v[j].0, &v[j].1);
            proof {
                let next = pairs_map(op.take(j + 1));
                assert(next == prefix.insert(k, v@[j as int].1));
                assert(self.paths.view().dom() =~= base.paths.view().dom().union(next.dom()));
                assert forall|kk: Seq<char>| #[trigger] self.paths.view().dom().contains(kk) implies {
                    &&& self.paths.view()[kk].wf()
                    &&& self.paths.view()[kk].count_spec() == (if base.paths.view().dom().contains(kk) {
                        base.paths.view()[kk].count_spec()
                    } else {
                        0
                    }) + (if next.dom().contains(kk) {
                        next[kk].count_spec()
                    } else {
                        0
                    })
                    &&& self.paths.view()[kk].durations_spec().bins_view() == sum_counts(
                        if base.paths.view().dom().contains(kk) {
                            base.paths.view()[kk].durations_spec().bins_view()
                        } else {
                            Map::<u16, u64>::empty()
                        },
                        if next.dom().contains(kk) {
                            next[kk].durations_spec().bins_view()
                        } else {
                            Map::<u16, u64>::empty()
                        },
                    )
                } by {
                    if kk != k {
                        assert(next.dom().contains(kk) == prefix.dom().contains(kk));
                    } else if !prefix.dom().contains(k) && !base.paths.view().dom().contains(k) {
                        assert(sum_counts(Map::<u16, u64>::empty(), Map::<u16, u64>::empty()) =~= Map::<u16, u64>::empty());
                    }
                }
            }
            j += 1;
        }
        proof {
            assert(op.take(op.len() as int) == op);
            assert forall|k: Seq<char>| #[trigger] self.paths.view().dom().contains(k) implies self.paths.view()[k].count_spec()
                <= self.total by {
                if base.paths.view().dom().contains(k) {
                }
                if other.paths.view().dom().contains(k) {
                }
            }
            assert(self.path_counts() =~= sum_counts(base.path_counts(), other.path_counts()));
            assert(self.path_durations() =~= merge_view(base@, other@).path_durations);
        }
    }

    /// Sorts the client hashes and removes duplicates.
    pub fn finish_bucket(&mut self)
        requires
            old(self).wf(),
        ensures
            final(self).wf(),
            strictly_increasing(final(self).client_hashes_view()),
            final(self).client_hashes_view().to_set() == old(self).client_hashes_view().to_set(),
            final(self).total_spec() == old(self).total_spec(),
            final(self).status_view() == old(self).status_view(),
            final(self).hosts_view() == old(self).hosts_view(),
            final(self).ips_view() == old(self).ips_view(),
            final(self).methods_view() == old(self).methods_view(),
            final(self).referrers_view() == old(self).referrers_view(),
            final(self).user_agents_view() == old(self).user_agents_view(),
            final(self).path_counts() == old(self).path_counts(),
            final(self).path_durations() == old(self).path_durations(),
            final(self).durations_view() == old(self).durations_view(),
            final(self).sizes_view() == old(self).sizes_view(),
            final(self).total_bytes_spec() == old(self).total_bytes_spec(),
    {
        let sorted = sorted_unique(&self.client_hashes);
        self.client_hashes = sorted;
    }

    /// Number of distinct client hashes.
    pub fn unique_clients(&self) -> (n: usize)
        ensures
            n == self.client_hashes_view().to_set().len(),
    {
        let sorted = sorted_unique(&self.client_hashes);
        sorted.len()
    }

    /// A rollup rebuilt from stored parts; `None` when a table repeats a key or
    /// a counter exceeds the request total.
    pub fn from_parts(
        total: u64,
        status_codes: Vec<(u16, u64)>,
        paths: Vec<(String, PathRollup)>,
        hosts: Vec<(String, u64)>,
        ips: Vec<(String, u64)>,
        durations: Histogram,
        total_bytes: u64,
        sizes: Histogram,
        client_hashes: Vec<u64>,
        referrers: Vec<(String, u64)>,
        user_agents: Vec<(String, u64)>,
        methods: Vec<(String, u64)>,
    ) -> (res: Option<Rollup>)
        requires
            durations.wf(),
            sizes.wf(),
            forall|i: int| 0 <= i < paths@.len() ==> (#[trigger] paths@[i]).1.wf(),
        ensures
            res matches Some(r) ==> {
                &&& r.wf()
                &&& r.total_spec() == total
                &&& r.status_view() == pairs_map(key_views(status_codes@))
                &&& r.hosts_view() == pairs_map(key_views(hosts@))
                &&& r.ips_view() == pairs_map(key_views(ips@))
                &&& r.referrers_view() == pairs_map(key_views(referrers@))
                &&& r.user_agents_view() == pairs_map(key_views(user_agents@))
                &&& r.methods_view() == pairs_map(key_views(methods@))
                &&& r.durations_view() == durations.bins_view()
                &&& r.sizes_view() == sizes.bins_view()
                &&& r.total_bytes_spec() == total_bytes
                &&& r.client_hashes_view() == client_hashes@
            },
            res is None ==> {
                ||| !distinct_keys(key_views(status_codes@))
                ||| !distinct_keys(key_views(paths@))
                ||| !distinct_keys(key_views(hosts@))
                ||| !distinct_keys(key_views(ips@))
                ||| !distinct_keys(key_views(referrers@))
                ||| !distinct_keys(key_views(user_agents@))
                ||| !distinct_keys(key_views(methods@))
                ||| durations.total() > total
                ||| sizes.total() > total
                ||| exists|i: int| 0 <= i < status_codes@.len() && #[trigger] status_codes@[i].1 > total
                ||| exists|i: int| 0 <= i < paths@.len() && (#[trigger] paths@[i]).1.count_spec() > total
                ||| exists|i: int| 0 <= i < hosts@.len() && #[trigger] hosts@[i].1 > total
                ||| exists|i: int| 0 <= i < ips@.len() && #[trigger] ips@[i].1 > total
                ||| exists|i: int| 0 <= i < referrers@.len() && #[trigger] referrers@[i].1 > total
                ||| exists|i: int| 0 <= i < user_agents@.len() && #[trigger] user_agents@[i].1 > total
                ||| exists|i: int| 0 <= i < methods@.len() && #[trigger] methods@[i].1 > total
            },
    {
        if durations.count() > total || sizes.count() > total {
            return None;
        }
        let mut i: usize = 0;
        while i < paths.len()
            invariant
                i <= paths@.len(),
                forall|j: int| 0 <= j < i ==> (#[trigger] paths@[j]).1.count_spec() <= total,
            decreases paths@.len() - i,
        {
            if paths[i].1.count() > total {
                return None;
            }
            i += 1;
        }
        let ghost sv = status_codes@;
        let ghost pv = paths@;
        let ghost hv = hosts@;
        let ghost iv = ips@;
        let ghost rv = referrers@;
        let ghost uv = user_agents@;
        let ghost mv = methods@;
        let status_codes = match Table::from_pairs(status_codes) { Some(t) => t, None => return None };
        let paths = match Table::from_pairs(paths) { Some(t) => t, None => return None };
        let hosts = match Table::from_pairs(hosts) { Some(t) => t, None => return None };
        let ips = match Table::from_pairs(ips) { Some(t) => t, None => return None };
        let referrers = match Table::from_pairs(referrers) { Some(t) => t, None => return None };
        let user_agents = match Table::from_pairs(user_agents) { Some(t) => t, None => return None };
        let methods = match Table::from_pairs(methods) { Some(t) => t, None => return None };
        proof {
            lemma_counts_exceed(status_codes, sv, total);
            lemma_counts_exceed(hosts, hv, total);
            lemma_counts_exceed(ips, iv, total);
            lemma_counts_exceed(referrers, rv, total);
            lemma_counts_exceed(user_agents, uv, total);
            lemma_counts_exceed(methods, mv, total);
        }
        if !status_codes.all_at_most(total) || !hosts.all_at_most(total) || !ips.all_at_most(total)
            || !referrers.all_at_most(total) || !user_agents.all_at_most(total)
            || !methods.all_at_most(total) {
            return None;
        }
        proof {
            paths.lemma_reveal();
            assert forall|k: Seq<char>| paths.view().dom().contains(k) implies (#[trigger] paths.view()[k]).wf()
                && paths.view()[k].count_spec() <= total by {
                lemma_pairs_map_dom(paths.pairs(), k);
                let j = choose|j: int| 0 <= j < paths.pairs().len() && paths.pairs()[j].0 == k;
                lemma_pairs_map_at(paths.pairs(), j);
                assert(paths.pairs()[j] == (pv[j].0@, pv[j].1));
            }
        }
        Some(Rollup {
            total,
            status_codes,
            paths,
            hosts,
            ips,
            durations,
            total_bytes,
            sizes,
            client_hashes,
            referrers,
            user_agents,
            methods,
        })
    }
}

/// The entries among the first `n` whose second falls into bucket `b`, in order.
pub open spec fn bucket_entries(
    es: Seq<RollupEntry>,
    secs: Seq<u64>,
    bucket_secs: u64,
    b: u64,
    n: int,
) -> Seq<RollupEntry>
    decreases n,
{
    if n <= 0 {
        Seq::empty()
    } else if bucket_of(secs[n - 1], bucket_secs) == b {
        bucket_entries(es, secs, bucket_secs, b, n - 1).push(es[n - 1])
    } else {
        bucket_entries(es, secs, bucket_secs, b, n - 1)
    }
}

proof fn lemma_bucket_entries_len(es: Seq<RollupEntry>, secs: Seq<u64>, bucket_secs: u64, b: u64, n: int)
    requires
        n >= 0,
    ensures
        bucket_entries(es, secs, bucket_secs, b, n).len() <= n,
    decreases n,
{
    if n > 0 {
        lemma_bucket_entries_len(es, secs, bucket_secs, b, n - 1);
    }
}

proof fn lemma_bucket_entries_none(es: Seq<RollupEntry>, secs: Seq<u64>, bucket_secs: u64, b: u64, n: int)
    requires
        n >= 0,
        forall|j: int| 0 <= j < n ==> #[trigger] bucket_of(secs[j], bucket_secs) != b,
    ensures
        bucket_entries(es, secs, bucket_secs, b, n) == Seq::<RollupEntry>::empty(),
    decreases n,
{
    if n > 0 {
        lemma_bucket_entries_none(es, secs, bucket_secs, b, n - 1);
    }
}

/// A prefix of the first batch picks the same entries from both batches
/// joined as from the first alone.
proof fn lemma_bucket_entries_prefix(
    ea: Seq<RollupEntry>,
    sa: Seq<u64>,
    eb: Seq<RollupEntry>,
    sb: Seq<u64>,
    bucket_secs: u64,
    b: u64,
    n: int,
)
    requires
        ea.len() == sa.len(),
        0 <= n <= ea.len(),
    ensures
        bucket_entries(ea + eb, sa + sb, bucket_secs, b, n) == bucket_entries(ea, sa, bucket_secs, b, n),
    decreases n,
{
    if n > 0 {
        lemma_bucket_entries_prefix(ea, sa, eb, sb, bucket_secs, b, n - 1);
        assert((sa + sb)[n - 1] == sa[n - 1]);
        assert((ea + eb)[n - 1] == ea[n - 1]);
    }
}

/// The entries of a bucket in two batches joined are those of the first batch
/// followed by those of the second.
proof fn lemma_bucket_entries_concat(
    ea: Seq<RollupEntry>,
    sa: Seq<u64>,
    eb: Seq<RollupEntry>,
    sb: Seq<u64>,
    bucket_secs: u64,
    b: u64,
    k: int,
)
    requires
        ea.len() == sa.len(),
        eb.len() == sb.len(),
        0 <= k <= eb.len(),
    ensures
        bucket_entries(ea + eb, sa + sb, bucket_secs, b, ea.len() + k) == bucket_entries(ea, sa, bucket_secs, b, ea.len() as int)
            + bucket_entries(eb, sb, bucket_secs, b, k),
    decreases k,
{
    if k == 0 {
        lemma_bucket_entries_prefix(ea, sa, eb, sb, bucket_secs, b, ea.len() as int);
        assert(bucket_entries(ea, sa, bucket_secs, b, ea.len() as int) + Seq::<RollupEntry>::empty() =~= bucket_entries(
            ea,
            sa,
            bucket_secs,
            b,
            ea.len() as int,
        ));
    } else {
        lemma_bucket_entries_concat(ea, sa, eb, sb, bucket_secs, b, k - 1);
        let n = ea.len() + k;
        assert((sa + sb)[n - 1] == sb[k - 1]);
        assert((ea + eb)[n - 1] == eb[k - 1]);
        let left = bucket_entries(ea, sa, bucket_secs, b, ea.len() as int);
        let right = bucket_entries(eb, sb, bucket_secs, b, k - 1);
        assert((left + right).push(eb[k - 1]) =~= left + right.push(eb[k - 1]));
    }
}

/// Indexing a log batch by batch gives the same rollups as indexing it in one
/// pass: for every bucket, the rollup of the entries of two batches joined is
/// the rollup of the first batch's entries merged with that of the second's.
/// So adding each batch's bucket updates into the stored rollups, as the
/// migration and every ingest do, leaves the rollups of all entries (as long
/// as the request counts fit in a `u64`).
pub proof fn law_batched_updates(
    ea: Seq<RollupEntry>,
    sa: Seq<u64>,
    eb: Seq<RollupEntry>,
    sb: Seq<u64>,
    bucket_secs: u64,
    b: u64,
)
    requires
        ea.len() == sa.len(),
        eb.len() == sb.len(),
        ea.len() + eb.len() <= u64::MAX,
    ensures
        rollup_of(bucket_entries(ea + eb, sa + sb, bucket_secs, b, (ea + eb).len() as int)) == merge_view(
            rollup_of(bucket_entries(ea, sa, bucket_secs, b, ea.len() as int)),
            rollup_of(bucket_entries(eb, sb, bucket_secs, b, eb.len() as int)),
        ),
{
    lemma_bucket_entries_concat(ea, sa, eb, sb, bucket_secs, b, eb.len() as int);
    lemma_bucket_entries_len(ea, sa, bucket_secs, b, ea.len() as int);
    lemma_bucket_entries_len(eb, sb, bucket_secs, b, eb.len() as int);
    law_rollup_of_concat(
        bucket_entries(ea, sa, bucket_secs, b, ea.len() as int),
        bucket_entries(eb, sb, bucket_secs, b, eb.len() as int),
    );
}

/// Where a second falls inside an aligned coarse bucket `h` of `k` fine
/// buckets: its fine bucket is `h + i * fine` for `i` the difference of the
/// fine bucket numbers, and it lies in `h` exactly when `0 <= i < k`.
proof fn lemma_sub_bucket(s: u64, fine: u64, k: u64, h: u64)
    requires
        fine > 0,
        k > 0,
        fine * k <= u64::MAX,
        (h as int) % (fine * k) == 0,
    ensures
        (bucket_of(s, fine) as int) == h + (sub_index(s, fine, h)) * fine,
        (bucket_of(s, (fine * k) as u64) == h) <==> (0 <= sub_index(s, fine, h) < k),
{
    let si = s as int;
    let fi = fine as int;
    let ki = k as int;
    let hi = h as int;
    let c = fi * ki;
    assert(c > 0) by (nonlinear_arith)
        requires
            fi > 0,
            ki > 0,
            c == fi * ki,
    ;
    assert((fine * k) as u64 as int == c);
    let q = hi / c;
    let a = si / fi;
    vstd::arithmetic::div_mod::lemma_fundamental_div_mod(hi, c);
    assert(hi == c * q);
    assert(q * c == hi && ki * q == q * ki) by (nonlinear_arith)
        requires
            hi == c * q,
    ;
    assert(hi == (q * ki) * fi) by (nonlinear_arith)
        requires
            hi == c * q,
            c == fi * ki,
    ;
    assert(q >= 0) by (nonlinear_arith)
        requires
            hi == c * q,
            c > 0,
            hi >= 0,
    ;
    vstd::arithmetic::div_mod::lemma_div_by_multiple(q * ki, fi);
    assert(hi / fi == q * ki);
    vstd::arithmetic::div_mod::lemma_div_denominator(si, fi, ki);
    assert(si / c == a / ki);
    vstd::arithmetic::div_mod::lemma_fundamental_div_mod(a, ki);
    let r = a % ki;
    assert(0 <= r < ki);
    assert(sub_index(s, fine, h) == a - q * ki);
    assert(a * fi == hi + (a - q * ki) * fi) by (nonlinear_arith)
        requires
            hi == (q * ki) * fi,
    ;
    assert(bucket_of(s, fine) as int == a * fi) by {
        assert(0 <= a * fi <= si) by (nonlinear_arith)
            requires
                a == si / fi,
                fi > 0,
                si >= 0,
        ;
    }
    assert(0 <= (si / c) * c <= si) by (nonlinear_arith)
        requires
            c > 0,
            si >= 0,
    ;
    assert(bucket_of(s, c as u64) as int == (si / c) * c);
    if bucket_of(s, c as u64) == h {
        assert((si / c) * c == q * c);
        assert(si / c == q) by (nonlinear_arith)
            requires
                (si / c) * c == q * c,
                c > 0,
        ;
        assert(a == ki * q + r);
    }
    if 0 <= a - q * ki < ki {
        assert(a / ki == q) by (nonlinear_arith)
            requires
                a == ki * (a / ki) + r,
                0 <= r < ki,
                0 <= a - q * ki < ki,
                ki > 0,
        ;
        assert((si / c) * c == q * c);
    }
}

/// The number of the fine bucket of second `s`, counted from the one that
/// starts at `h`.
pub open spec fn sub_index(s: u64, fine: u64, h: u64) -> int {
    (s as int) / (fine as int) - (h as int) / (fine as int)
}

/// The entries of each of the `k` fine buckets that make up the coarse bucket
/// starting at `h`, in bucket order, among the first `n` entries.
pub open spec fn sub_buckets(
    es: Seq<RollupEntry>,
    secs: Seq<u64>,
    fine: u64,
    k: nat,
    h: u64,
    n: int,
) -> Seq<Seq<RollupEntry>> {
    Seq::new(k, |j: int| bucket_entries(es, secs, fine, (h + j * fine) as u64, n))
}

/// Seconds never go back along the log.
pub open spec fn in_time_order(secs: Seq<u64>) -> bool {
    forall|a: int, b: int| 0 <= a <= b < secs.len() ==> secs[a] <= secs[b]
}

proof fn lemma_concat_all_empty(gs: Seq<Seq<RollupEntry>>)
    requires
        forall|j: int| 0 <= j < gs.len() ==> (#[trigger] gs[j]).len() == 0,
    ensures
        concat_all(gs) == Seq::<RollupEntry>::empty(),
    decreases gs.len(),
{
    if gs.len() > 0 {
        lemma_concat_all_empty(gs.drop_last());
        assert(gs[gs.len() - 1].len() == 0);
        assert(concat_all(gs.drop_last()) + gs.last() =~= Seq::<RollupEntry>::empty());
    }
}

/// Adding an entry to a batch after which every batch is empty adds it at the
/// end of all batches joined.
proof fn lemma_concat_push_at(gs: Seq<Seq<RollupEntry>>, t: int, e: RollupEntry)
    requires
        0 <= t < gs.len(),
        forall|j: int| t < j < gs.len() ==> (#[trigger] gs[j]).len() == 0,
    ensures
        concat_all(gs.update(t, gs[t].push(e))) == concat_all(gs).push(e),
    decreases gs.len(),
{
    let u = gs.update(t, gs[t].push(e));
    if t == gs.len() - 1 {
        assert(u.drop_last() =~= gs.drop_last());
        assert(u.last() == gs.last().push(e));
        assert(concat_all(gs.drop_last()) + gs.last().push(e) =~= (concat_all(gs.drop_last()) + gs.last()).push(e));
    } else {
        lemma_concat_push_at(gs.drop_last(), t, e);
        assert(u.drop_last() =~= gs.drop_last().update(t, gs[t].push(e)));
        assert(gs[gs.len() - 1].len() == 0);
        assert(u.last() == gs.last());
        assert(concat_all(u.drop_last()) + u.last() =~= concat_all(u.drop_last()));
        assert(concat_all(gs.drop_last()) + gs.last() =~= concat_all(gs.drop_last()));
    }
}

proof fn lemma_slot(h: u64, fine: u64, k: u64, j: int)
    requires
        0 <= j < k,
        fine > 0,
        h + fine * k <= u64::MAX,
    ensures
        ((h + j * fine) as u64) as int == h + j * fine,
{
    assert(0 <= j * fine < fine * k) by (nonlinear_arith)
        requires
            0 <= j < k,
            fine > 0,
    ;
}

proof fn lemma_slot_eq(h: int, fine: int, a: int, b: int)
    requires
        h + a * fine == h + b * fine,
        fine > 0,
    ensures
        a == b,
{
    assert(a == b) by (nonlinear_arith)
        requires
            a * fine == b * fine,
            fine > 0,
    ;
}

/// In time order, the entries of a coarse bucket are those of its fine
/// buckets one bucket after the other.
proof fn lemma_coarse_is_concat(es: Seq<RollupEntry>, secs: Seq<u64>, fine: u64, k: u64, h: u64, n: int)
    requires
        es.len() == secs.len(),
        0 <= n <= es.len(),
        fine > 0,
        k > 0,
        fine * k <= u64::MAX,
        (h as int) % (fine * k) == 0,
        h + fine * k <= u64::MAX,
        in_time_order(secs),
    ensures
        concat_all(sub_buckets(es, secs, fine, k as nat, h, n)) == bucket_entries(es, secs, (fine * k) as u64, h, n),
    decreases n,
{
    let g1 = sub_buckets(es, secs, fine, k as nat, h, n);
    if n == 0 {
        lemma_concat_all_empty(g1);
    } else {
        lemma_coarse_is_concat(es, secs, fine, k, h, n - 1);
        let g0 = sub_buckets(es, secs, fine, k as nat, h, n - 1);
        let sec = secs[n - 1];
        let e = es[n - 1];
        lemma_sub_bucket(sec, fine, k, h);
        let t = sub_index(sec, fine, h);
        if 0 <= t < k {
            assert(g1 =~= g0.update(t, g0[t].push(e))) by {
                assert forall|j: int| 0 <= j < k implies g1[j] == g0.update(t, g0[t].push(e))[j] by {
                    lemma_slot(h, fine, k, j);
                    if bucket_of(sec, fine) as int == h + j * fine {
                        lemma_slot_eq(h as int, fine as int, t, j);
                    }
                }
            }
            assert forall|j: int| t < j < g0.len() implies (#[trigger] g0[j]).len() == 0 by {
                let b = (h + j * fine) as u64;
                lemma_slot(h, fine, k, j);
                assert forall|m: int| 0 <= m < n - 1 implies #[trigger] bucket_of(secs[m], fine) != b by {
                    lemma_sub_bucket(secs[m], fine, k, h);
                    vstd::arithmetic::div_mod::lemma_div_is_ordered(secs[m] as int, sec as int, fine as int);
                    let tm = sub_index(secs[m], fine, h);
                    assert(tm <= t);
                    if bucket_of(secs[m], fine) == b {
                        lemma_slot_eq(h as int, fine as int, tm, j);
                    }
                }
                lemma_bucket_entries_none(es, secs, fine, b, n - 1);
            }
            lemma_concat_push_at(g0, t, e);
        } else {
            assert(g1 =~= g0) by {
                assert forall|j: int| 0 <= j < k implies g1[j] == g0[j] by {
                    lemma_slot(h, fine, k, j);
                    if bucket_of(sec, fine) as int == h + j * fine {
                        lemma_slot_eq(h as int, fine as int, t, j);
                    }
                }
            }
        }
    }
}

/// A coarse rollup rebuilt from its fine ones is the rollup of the entries
/// that fell into it: adding up the rollups of the sixty minutes of an hour,
/// or of the twenty-four hours of a day, in bucket order, gives the rollup of
/// the entries of that hour or day. A fine bucket without entries counts as
/// the empty rollup. This holds when the log runs in time order, as an access
/// log is written; otherwise only the order of the client hashes differs,
/// which finishing the bucket removes.
pub proof fn law_coarse_rollup_from_fine(es: Seq<RollupEntry>, secs: Seq<u64>, fine: u64, k: u64, h: u64)
    requires
        es.len() == secs.len(),
        es.len() <= u64::MAX,
        fine > 0,
        k > 0,
        fine * k <= u64::MAX,
        (h as int) % (fine * k) == 0,
        h + fine * k <= u64::MAX,
        in_time_order(secs),
    ensures
        merge_all(rollups_of(sub_buckets(es, secs, fine, k as nat, h, es.len() as int))) == rollup_of(
            bucket_entries(es, secs, (fine * k) as u64, h, es.len() as int),
        ),
{
    lemma_coarse_is_concat(es, secs, fine, k, h, es.len() as int);
    lemma_bucket_entries_len(es, secs, (fine * k) as u64, h, es.len() as int);
    law_merge_all_batches(sub_buckets(es, secs, fine, k as nat, h, es.len() as int));
}

/// `v` is the rollup `w` after `finish_bucket`: the same counters, and the
/// client hashes of `w` sorted without repeats.
pub open spec fn finished_from(v: RollupView, w: RollupView) -> bool {
    &&& v.total == w.total
    &&& v.status == w.status
    &&& v.paths == w.paths
    &&& v.path_durations == w.path_durations
    &&& v.hosts == w.hosts
    &&& v.ips == w.ips
    &&& v.methods == w.methods
    &&& v.referrers == w.referrers
    &&& v.user_agents == w.user_agents
    &&& v.durations == w.durations
    &&& v.sizes == w.sizes
    &&& v.total_bytes == w.total_bytes
    &&& strictly_increasing(v.hashes)
    &&& v.hashes.to_set() == w.hashes.to_set()
}

/// The rollup of every bucket that `entries` touch (`build_updates`), each
/// finished. `seconds[i]` is the whole second of `entries[i]`.
pub fn build_updates(entries: &Vec<RollupEntry>, seconds: &Vec<u64>, bucket_secs: u64) -> (res: Table<u64, Rollup>)
    requires
        entries@.len() == seconds@.len(),
        bucket_secs > 0,
        entries@.len() < u64::MAX,
    ensures
        res.wf(),
        forall|b: u64|
            res.view().dom().contains(b) <==> exists|i: int|
                0 <= i < seconds@.len() && #[trigger] bucket_of(seconds@[i], bucket_secs) == b,
        forall|b: u64| #[trigger]
            res.view().dom().contains(b) ==> res.view()[b].wf() && finished_from(
                res.view()[b]@,
                rollup_of(bucket_entries(entries@, seconds@, bucket_secs, b, entries@.len() as int)),
            ),
{
    let mut t: Table<u64, Rollup> = Table::new();
    let mut i: usize = 0;
    while i < entries.len()
        invariant
            t.wf(),
            i <= entries@.len(),
            entries@.len() == seconds@.len(),
            entries@.len() < u64::MAX,
            bucket_secs > 0,
            forall|b: u64|
                t.view().dom().contains(b) <==> exists|j: int|
                    0 <= j < i && #[trigger] bucket_of(seconds@[j], bucket_secs) == b,
            forall|b: u64| #[trigger]
                t.view().dom().contains(b) ==> t.view()[b].wf() && t.view()[b]@ == rollup_of(
                    bucket_entries(entries@, seconds@, bucket_secs, b, i as int),
                ),
        decreases entries@.len() - i,
    {
        let b = bucket_start_secs(seconds[i], bucket_secs);
        let ghost before = t.view();
        proof {
            lemma_bucket_entries_len(entries@, seconds@, bucket_secs, b, i as int);
            lemma_rollup_of_bounded(bucket_entries(entries@, seconds@, bucket_secs, b, i as int));
        }
        let ghost prev = bucket_entries(entries@, seconds@, bucket_secs, b, i as int);
        match t.find(&b) {
            Some(pos) => {
                let mut r = t.replace_at(pos, Rollup::new());
                r.add_entry(&entries[i]);
                t.set_at(pos, r);
            },
            None => {
                proof {
                    assert forall|j: int| 0 <= j < i implies #[trigger] bucket_of(seconds@[j], bucket_secs) != b by {
                        if bucket_of(seconds@[j], bucket_secs) == b {
                            assert(before.dom().contains(b));
                        }
                    }
                    lemma_bucket_entries_none(entries@, seconds@, bucket_secs, b, i as int);
                    assert(rollup_of(prev) == empty_view());
                }
                let mut r = Rollup::new();
                r.add_entry(&entries[i]);
                let pos = t.entries.len();
                t.insert_new(pos, b, r);
            },
        }
        proof {
            let ni = i + 1;
            let cur = bucket_entries(entries@, seconds@, bucket_secs, b, ni);
            assert(cur == prev.push(entries@[i as int]));
            assert(cur.drop_last() =~= prev);
            assert(rollup_of(cur) == add_view(rollup_of(prev), entries@[i as int]));
            assert forall|c: u64| #[trigger] t.view().dom().contains(c) implies t.view()[c].wf()
                && t.view()[c]@ == rollup_of(bucket_entries(entries@, seconds@, bucket_secs, c, ni)) by {
                if c != b {
                    assert(before.dom().contains(c));
                }
            }
            assert forall|c: u64|
                t.view().dom().contains(c) <==> exists|j: int|
                    0 <= j < ni && #[trigger] bucket_of(seconds@[j], bucket_secs) == c by {
                if t.view().dom().contains(c) && c != b {
                    assert(before.dom().contains(c));
                }
                if exists|j: int| 0 <= j < ni && #[trigger] bucket_of(seconds@[j], bucket_secs) == c {
                    let j = choose|j: int| 0 <= j < ni && #[trigger] bucket_of(seconds@[j], bucket_secs) == c;
                    if j < i {
                        assert(before.dom().contains(c));
                    }
                }
            }
        }
        i += 1;
    }
    let ghost raw = t.view();
    let ghost pairs0 = t.pairs();
    let ghost keys = pairs0.map_values(|p: (u64, Rollup)| p.0);
    let n = t.entries.len();
    proof {
        t.lemma_reveal();
        assert forall|p: int| 0 <= p < n implies raw.dom().contains(keys[p]) && #[trigger] t.pairs()[p].1
            == raw[keys[p]] by {
            lemma_pairs_map_at(t.pairs(), p);
        }
    }
    let mut k: usize = 0;
    while k < n
        invariant
            t.wf(),
            k <= n,
            n == t.entries@.len(),
            t.pairs().len() == n,
            keys.len() == n,
            forall|p: int| 0 <= p < n ==> (#[trigger] t.pairs()[p]).0 == keys[p],
            forall|p: int| 0 <= p < n ==> raw.dom().contains(#[trigger] keys[p]) && raw[keys[p]].wf(),
            forall|p: int| 0 <= p < n ==> (#[trigger] t.pairs()[p]).1.wf(),
            forall|p: int| #![trigger t.pairs()[p]]
                0 <= p < k ==> finished_from(t.pairs()[p].1@, raw[keys[p]]@),
            forall|p: int| #![trigger t.pairs()[p]] k <= p < n ==> t.pairs()[p].1 == raw[keys[p]],
            forall|b: u64|
                raw.dom().contains(b) <==> exists|j: int|
                    0 <= j < seconds@.len() && #[trigger] bucket_of(seconds@[j], bucket_secs) == b,
            forall|b: u64| #[trigger]
                raw.dom().contains(b) ==> raw[b].wf() && raw[b]@ == rollup_of(
                    bucket_entries(entries@, seconds@, bucket_secs, b, entries@.len() as int),
                ),
        decreases n - k,
    {
        let ghost before = t.pairs();
        proof {
            t.lemma_reveal();
        }
        let mut r = t.replace_at(k, Rollup::new());
        proof {
            assert(before[k as int].1 == r);
        }
        r.finish_bucket();
        t.set_at(k, r);
        proof {
            assert(t.pairs()[k as int].1 == r);
            assert forall|p: int| 0 <= p < n implies (#[trigger] t.pairs()[p]).0 == keys[p] by {
                assert(t.pairs()[p] == before.update(k as int, (before[k as int].0, r))[p]);
            }
            assert(finished_from(r@, raw[keys[k as int]]@));
            assert forall|p: int| 0 <= p < n implies (#[trigger] t.pairs()[p]).1.wf() by {
                assert(before[p].1.wf());
                assert(t.pairs()[p] == before.update(k as int, (before[k as int].0, r))[p]);
            }
            assert forall|p: int| k < p < n implies (#[trigger] t.pairs()[p]).1 == raw[keys[p]] by {
                assert(t.pairs()[p] == before.update(k as int, (before[k as int].0, r))[p]);
            }
            assert forall|p: int| 0 <= p < k implies finished_from((#[trigger] t.pairs()[p]).1@, raw[keys[p]]@) by {
                assert(t.pairs()[p] == before.update(k as int, (before[k as int].0, r))[p]);
            }
        }
        k += 1;
    }
    proof {
        t.lemma_reveal();
        assert forall|b: u64| #[trigger] t.view().dom().contains(b) implies t.view()[b].wf() && finished_from(
            t.view()[b]@,
            rollup_of(bucket_entries(entries@, seconds@, bucket_secs, b, entries@.len() as int)),
        ) by {
            lemma_pairs_map_dom(t.pairs(), b);
            let p = choose|p: int| 0 <= p < t.pairs().len() && t.pairs()[p].0 == b;
            lemma_pairs_map_at(t.pairs(), p);
        }
        assert forall|b: u64|
            t.view().dom().contains(b) <==> exists|i: int|
                0 <= i < seconds@.len() && #[trigger] bucket_of(seconds@[i], bucket_secs) == b by {
            assert(raw.dom().contains(b) <==> exists|i: int|
                0 <= i < seconds@.len() && #[trigger] bucket_of(seconds@[i], bucket_secs) == b);
            lemma_pairs_map_dom(t.pairs(), b);
            lemma_pairs_map_dom(pairs0, b);
            if raw.dom().contains(b) {
                let p = choose|p: int| 0 <= p < pairs0.len() && pairs0[p].0 == b;
                assert(t.pairs()[p].0 == keys[p]);
            }
            if t.view().dom().contains(b) {
                let p = choose|p: int| 0 <= p < t.pairs().len() && t.pairs()[p].0 == b;
                assert(t.pairs()[p].0 == keys[p]);
            }
        }
    }
    t
}

/// The contents of stored rollups.
pub open spec fn views_of(rs: Seq<Rollup>) -> Seq<RollupView> {
    rs.map_values(|r: Rollup| r@)
}

/// Adds up stored rollups and finishes the sum, as compaction does when it
/// rebuilds an hour from its minutes or a day from its hours; `None` when the
/// request total does not fit in a `u64`.
pub fn combine_rollups(parts: &Vec<Rollup>) -> (res: Option<Rollup>)
    requires
        forall|i: int| 0 <= i < parts@.len() ==> (#[trigger] parts@[i]).wf(),
    ensures
        res is Some <==> merge_all(views_of(parts@)).total <= u64::MAX,
        res matches Some(r) ==> r.wf() && finished_from(r@, merge_all(views_of(parts@))),
{
    let ghost vs = views_of(parts@);
    let mut acc = Rollup::new();
    let mut i: usize = 0;
    while i < parts.len()
        invariant
            i <= parts@.len(),
            vs == views_of(parts@),
            forall|j: int| 0 <= j < parts@.len() ==> (#[trigger] parts@[j]).wf(),
            acc.wf(),
            acc@ == merge_all(vs.take(i as int)),
        decreases parts@.len() - i,
    {
        proof {
            assert(vs.take(i + 1).drop_last() =~= vs.take(i as int));
            assert(vs.take(i + 1).last() == parts@[i as int]@);
        }
        if acc.total() > u64::MAX - parts[i].total() {
            proof {
                lemma_merge_all_total(vs, i + 1);
            }
            return None;
        }
        acc.merge(&parts[i]);
        i += 1;
    }
    proof {
        assert(vs.take(parts@.len() as int) =~= vs);
    }
    acc.finish_bucket();
    Some(acc)
}

/// Stored rollups of a level with their bucket keys, taken as views.
pub open spec fn keyed_views(level: Seq<(u64, Rollup)>) -> Seq<(u64, RollupView)> {
    level.map_values(|p: (u64, Rollup)| (p.0, p.1@))
}

/// The rollups of a finer level whose keys lie in `[b, b + secs)`, in the
/// level's order.
pub open spec fn fine_parts(level: Seq<(u64, RollupView)>, b: u64, secs: u64) -> Seq<RollupView>
    decreases level.len(),
{
    if level.len() == 0 {
        Seq::empty()
    } else {
        let rest = fine_parts(level.drop_last(), b, secs);
        if b <= level.last().0 && level.last().0 < b + secs {
            rest.push(level.last().1)
        } else {
            rest
        }
    }
}

proof fn lemma_fine_parts_prefix(level: Seq<(u64, RollupView)>, b: u64, secs: u64, n: int)
    requires
        0 <= n <= level.len(),
    ensures
        fine_parts(level.take(n), b, secs).len() <= fine_parts(level, b, secs).len(),
        fine_parts(level.take(n), b, secs) == fine_parts(level, b, secs).take(
            fine_parts(level.take(n), b, secs).len() as int,
        ),
    decreases level.len() - n,
{
    if n < level.len() {
        lemma_fine_parts_prefix(level, b, secs, n + 1);
        assert(level.take(n + 1).drop_last() =~= level.take(n));
        let a = fine_parts(level.take(n), b, secs);
        let c = fine_parts(level.take(n + 1), b, secs);
        let w = fine_parts(level, b, secs);
        assert(c.take(a.len() as int) =~= a);
        assert(w.take(a.len() as int) =~= w.take(c.len() as int).take(a.len() as int));
    } else {
        assert(level.take(n) =~= level);
        assert(fine_parts(level, b, secs).take(fine_parts(level, b, secs).len() as int) =~= fine_parts(level, b, secs));
    }
}

/// Adds up the stored rollups of a level whose keys lie in
/// `[b, b + secs)` and finishes the sum: a coarse bucket rebuilt from its
/// finer ones. `None` when the request total does not fit in a `u64`.
pub fn combine_range(level: &Vec<(u64, Rollup)>, b: u64, secs: u64) -> (res: Option<Rollup>)
    requires
        forall|i: int| 0 <= i < level@.len() ==> (#[trigger] level@[i]).1.wf(),
    ensures
        res is Some <==> merge_all(fine_parts(keyed_views(level@), b, secs)).total <= u64::MAX,
        res matches Some(r) ==> r.wf() && finished_from(r@, merge_all(fine_parts(keyed_views(level@), b, secs))),
{
    let ghost kv = keyed_views(level@);
    let mut acc = Rollup::new();
    let mut i: usize = 0;
    while i < level.len()
        invariant
            i <= level@.len(),
            kv == keyed_views(level@),
            forall|j: int| 0 <= j < level@.len() ==> (#[trigger] level@[j]).1.wf(),
            acc.wf(),
            acc@ == merge_all(fine_parts(kv.take(i as int), b, secs)),
        decreases level@.len() - i,
    {
        proof {
            assert(kv.take(i + 1).drop_last() =~= kv.take(i as int));
            assert(kv.take(i + 1).last() == (level@[i as int].0, level@[i as int].1@));
        }
        let key = level[i].0;
        if b <= key && key - b < secs {
            let part = &level[i].1;
            if acc.total() > u64::MAX - part.total() {
                proof {
                    let ps = fine_parts(kv.take(i + 1), b, secs);
                    lemma_fine_parts_prefix(kv, b, secs, i + 1);
                    let whole = fine_parts(kv, b, secs);
                    assert(ps == whole.take(ps.len() as int));
                    assert(ps.drop_last() =~= fine_parts(kv.take(i as int), b, secs));
                    lemma_merge_all_total(whole, ps.len() as int);
                }
                return None;
            }
            let ghost before = acc@;
            acc.merge(part);
            proof {
                let ps = fine_parts(kv.take(i as int), b, secs);
                assert(fine_parts(kv.take(i + 1), b, secs) == ps.push(part@));
                assert(ps.push(part@).drop_last() =~= ps);
                assert(merge_all(ps.push(part@)) == merge_view(merge_all(ps), part@));
                assert(acc@ == merge_view(before, part@));
            }
        } else {
            proof {
                assert(fine_parts(kv.take(i + 1), b, secs) == fine_parts(kv.take(i as int), b, secs));
            }
        }
        i += 1;
    }
    proof {
        assert(kv.take(level@.len() as int) =~= kv);
    }
    acc.finish_bucket();
    Some(acc)
}

/// A count above `bound` in the stored pairs is a count above `bound` in the table.
proof fn lemma_counts_exceed<K: crate::table::TableKey>(t: Counts<K>, src: Seq<(K, u64)>, bound: u64)
    requires
        t.wf(),
        t.pairs() == key_views(src),
    ensures
        (exists|i: int| 0 <= i < src.len() && #[trigger] src[i].1 > bound) <==> !counts_bounded(
            t.view(),
            bound as nat,
        ),
{
    t.lemma_reveal();
    if !counts_bounded(t.view(), bound as nat) {
        let k = choose|k: K::V| t.view().dom().contains(k) && !(t.view()[k] <= bound);
        lemma_pairs_map_dom(t.pairs(), k);
        let j = choose|j: int| 0 <= j < t.pairs().len() && t.pairs()[j].0 == k;
        lemma_pairs_map_at(t.pairs(), j);
        assert(t.pairs()[j] == (src[j].0@, src[j].1));
        assert(src[j].1 > bound);
    }
    if exists|i: int| 0 <= i < src.len() && #[trigger] src[i].1 > bound {
        let i = choose|i: int| 0 <= i < src.len() && #[trigger] src[i].1 > bound;
        t.lemma_reveal();
        lemma_pairs_map_at(t.pairs(), i);
        assert(t.pairs()[i] == (src[i].0@, src[i].1));
    }
}

/// The largest stored rollup that starts at `c`, is aligned to its own length
/// and ends by `end`: a day, else an hour, else a minute.
pub open spec fn best_resolution(c: u64, end: u64) -> Option<Resolution> {
    if c % 86_400 == 0 && c + 86_400 <= end {
        Some(Resolution::Day)
    } else if c % 3_600 == 0 && c + 3_600 <= end {
        Some(Resolution::Hour)
    } else if c % 60 == 0 && c + 60 <= end {
        Some(Resolution::Minute)
    } else {
        None
    }
}

/// The rollups that cover whole buckets from `c` onward, each the largest that fits.
pub open spec fn segments_from(c: u64, end: u64) -> Seq<(Resolution, u64)>
    decreases end - c,
{
    match best_resolution(c, end) {
        Some(r) => seq![(r, c)] + segments_from((c + resolution_secs(r)) as u64, end),
        None => Seq::empty(),
    }
}

/// Where the covered stretch that starts at `c` ends.
pub open spec fn segments_end(c: u64, end: u64) -> u64
    decreases end - c,
{
    match best_resolution(c, end) {
        Some(r) => segments_end((c + resolution_secs(r)) as u64, end),
        None => c,
    }
}

/// The decomposition of a range into stored rollups tiles it: every rollup is
/// aligned to its own length, starts where the previous one ends (the first
/// at `c`), and ends by `end`; the rollups stop at `segments_end(c, end)`, and
/// from a minute-aligned start less than a minute is left before `end`.
#[verifier::spinoff_prover]
pub proof fn law_segments_tile(c: u64, end: u64)
    ensures
        ({
            let segs = segments_from(c, end);
            let e = segments_end(c, end);
            &&& c <= e
            &&& (c <= end ==> e <= end)
            &&& forall|i: int| 0 <= i < segs.len() ==> (#[trigger] segs[i]).1 % resolution_secs(segs[i].0) == 0
                && segs[i].1 + resolution_secs(segs[i].0) <= end
            &&& segs.len() > 0 ==> segs[0].1 == c
            &&& forall|i: int| 1 <= i < segs.len() ==> (#[trigger] segs[i]).1 == segs[i - 1].1 + resolution_secs(
                segs[i - 1].0,
            )
            &&& segs.len() > 0 ==> segs.last().1 + resolution_secs(segs.last().0) == e
            &&& segs.len() == 0 ==> e == c
            &&& (c % 60 == 0 ==> e % 60 == 0 && e + 60 > end)
        }),
    decreases end - c,
{
    match best_resolution(c, end) {
        Some(r) => {
            let k = resolution_secs(r);
            assert(k == 60 || k == 3600 || k == 86400);
            assert(c % k == 0 && c + k <= end);
            let n = (c + k) as u64;
            law_segments_tile(n, end);
            let rest = segments_from(n, end);
            let segs = segments_from(c, end);
            assert(segs == seq![(r, c)] + rest);
            assert forall|i: int| 1 <= i < segs.len() implies (#[trigger] segs[i]).1 == segs[i - 1].1
                + resolution_secs(segs[i - 1].0) by {
                assert(segs[i] == rest[i - 1]);
                if i > 1 {
                    assert(segs[i - 1] == rest[i - 2]);
                }
            }
            assert forall|i: int| 0 <= i < segs.len() implies (#[trigger] segs[i]).1 % resolution_secs(segs[i].0) == 0
                && segs[i].1 + resolution_secs(segs[i].0) <= end by {
                if i > 0 {
                    assert(segs[i] == rest[i - 1]);
                }
            }
            if rest.len() > 0 {
                assert(segs.last() == rest.last());
            }
            if c % 60 == 0 {
                assert(n % 60 == 0) by (nonlinear_arith)
                    requires
                        c % 60 == 0,
                        k == 60 || k == 3600 || k == 86400,
                        n == c + k,
                {
                }
            }
        },
        None => {},
    }
}

/// One stored rollup that a time range uses.
#[derive(Clone, Copy, Debug, PartialEq, Eq, Structural)]
pub struct RollupSegment {
    pub resolution: Resolution,
    pub bucket: u64,
}

/// Decomposes `[start, end)`, from a minute-aligned start and a whole-second
/// end, into stored rollups, largest first, and returns them with the second
/// where they stop. The caller reads raw entries for what is left before the
/// start and after that second.
pub fn rollup_segments(start: u64, end: u64) -> (res: (Vec<RollupSegment>, u64))
    ensures
        res.0@.len() == segments_from(start, end).len(),
        forall|i: int|
            0 <= i < res.0@.len() ==> (#[trigger] res.0@[i].resolution, res.0@[i].bucket)
                == segments_from(start, end)[i],
        res.1 == segments_end(start, end),
{
    let mut segs: Vec<RollupSegment> = Vec::new();
    let mut c = start;
    loop
        invariant
            segs@.len() + segments_from(c, end).len() == segments_from(start, end).len(),
            forall|i: int|
                0 <= i < segs@.len() ==> (#[trigger] segs@[i].resolution, segs@[i].bucket)
                    == segments_from(start, end)[i],
            forall|i: int|
                0 <= i < segments_from(c, end).len() ==> segments_from(c, end)[i]
                    == segments_from(start, end)[segs@.len() + i],
            segments_end(c, end) == segments_end(start, end),
        decreases end - c,
    {
        let choice = if c % DAY_SECS == 0 && c <= end && end - c >= DAY_SECS {
            Some(Resolution::Day)
        } else if c % HOUR_SECS == 0 && c <= end && end - c >= HOUR_SECS {
            Some(Resolution::Hour)
        } else if c % MINUTE_SECS == 0 && c <= end && end - c >= MINUTE_SECS {
            Some(Resolution::Minute)
        } else {
            None
        };
        assert(choice == best_resolution(c, end));
        match choice {
            Some(r) => {
                let len = r.seconds();
                let ghost rest = segments_from((c + len) as u64, end);
                let ghost here = segments_from(c, end);
                let ghost whole = segments_from(start, end);
                let ghost l = segs@.len();
                assert(here == seq![(r, c)] + rest);
                assert(here[0] == (r, c));
                assert(whole[l as int] == (r, c));
                segs.push(RollupSegment { resolution: r, bucket: c });
                c = c + len;
                proof {
                    assert forall|i: int| 0 <= i < rest.len() implies rest[i] == whole[segs@.len() + i] by {
                        assert(rest[i] == here[i + 1]);
                    }
                    assert forall|i: int|
                        0 <= i < segs@.len() implies (#[trigger] segs@[i].resolution, segs@[i].bucket)
                            == whole[i] by {
                        if i == l {
                        } else {
                        }
                    }
                }
            },
            None => {
                return (segs, c);
            },
        }
    }
}

/// The first value of the first header among `names` that the request carries
/// (a header that is present with no value gives `None`).
pub open spec fn header_first_spec(h: Map<Seq<char>, Seq<Seq<char>>>, names: Seq<Seq<char>>) -> Option<Seq<char>>
    decreases names.len(),
{
    if names.len() == 0 {
        None
    } else if h.dom().contains(names[0]) {
        if h[names[0]].len() > 0 {
            Some(h[names[0]][0])
        } else {
            None
        }
    } else {
        header_first_spec(h, names.drop_first())
    }
}

/// Request headers, each name with its values.
pub open spec fn headers_view(t: &Table<String, Vec<String>>) -> Map<Seq<char>, Seq<Seq<char>>> {
    t.view().map_values(|v: Vec<String>| v@.map_values(|s: String| s@))
}

/// The first value of the first of `names` present among the headers.
pub fn header_first(headers: &Table<String, Vec<String>>, names: &Vec<String>) -> (res: Option<String>)
    requires
        headers.wf(),
    ensures
        res matches Some(v) ==> header_first_spec(headers_view(headers), names@.map_values(|s: String| s@)) == Some(v@),
        res is None ==> header_first_spec(headers_view(headers), names@.map_values(|s: String| s@)) is None,
{
    let ghost nv = names@.map_values(|s: String| s@);
    assert(nv.skip(0) == nv);
    let mut i: usize = 0;
    while i < names.len()
        invariant
            i <= names@.len(),
            headers.wf(),
            nv == names@.map_values(|s: String| s@),
            header_first_spec(headers_view(headers), nv) == header_first_spec(headers_view(headers), nv.skip(i as int)),
        decreases names@.len() - i,
    {
        let ghost rest = nv.skip(i as int);
        assert(rest[0] == names@[i as int]@);
        assert(rest.drop_first() == nv.skip(i + 1));
        match headers.find(&names[i]) {
            Some(j) => {
                let values = &headers.entries[j].1;
                if values.len() > 0 {
                    return Some(values[0].clone());
                } else {
                    return None;
                }
            },
            None => {},
        }
        i += 1;
    }
    None
}

} // verus!
