//! The overview statistics drawn from a rollup.

use vstd::prelude::*;
use crate::ai::is_top_pairs;
use crate::analytics::Rollup;
use crate::ranking::top;
use crate::table::{Counts, Table};

verus! {

/// The integer part of the overview (`stats_from_rollup`); averages and
/// percentiles of durations are computed by the caller.
pub struct StatsCounts {
    pub total_requests: u64,
    pub top_paths: Vec<(String, u64)>,
    pub top_hosts: Vec<(String, u64)>,
    pub top_ips: Vec<(String, u64)>,
    pub total_bytes: u64,
    pub unique_clients: u64,
    pub top_referrers: Vec<(String, u64)>,
    pub top_user_agents: Vec<(String, u64)>,
    /// Paths with at least two requests: the candidates for the slowest paths.
    pub busy_paths: Vec<String>,
}

/// The overview counts of a rollup: each top list holds the ten largest.
pub fn stats_counts(r: &Rollup) -> (s: StatsCounts)
    requires
        r.wf(),
    ensures
        s.total_requests == r@.total,
        s.total_bytes == r@.total_bytes,
        s.unique_clients == r@.hashes.to_set().len(),
        is_top_pairs(r@.paths, s.top_paths@, 10),
        is_top_pairs(r@.hosts, s.top_hosts@, 10),
        is_top_pairs(r@.ips, s.top_ips@, 10),
        is_top_pairs(r@.referrers, s.top_referrers@, 10),
        is_top_pairs(r@.user_agents, s.top_user_agents@, 10),
        forall|i: int| 0 <= i < s.busy_paths@.len() ==> r@.paths.dom().contains(#[trigger] s.busy_paths@[i]@) && r@.paths[s.busy_paths@[i]@] >= 2,
        forall|k: Seq<char>| #![trigger r@.paths.dom().contains(k)]
            r@.paths.dom().contains(k) && r@.paths[k] >= 2 ==> exists|i: int|
                0 <= i < s.busy_paths@.len() && (#[trigger] s.busy_paths@[i])@ == k,
{
    proof {
        r.lemma_view_parts();
    }
    let paths = r.paths();
    let entries = paths.as_vec();
    let mut counts: Counts<String> = Table::new();
    let mut busy: Vec<String> = Vec::new();
    let mut i: usize = 0;
    while i < entries.len()
        invariant
            i <= entries@.len(),
            counts.wf(),
            paths.wf(),
            entries@.len() == paths.view().dom().len(),
            forall|t: int| 0 <= t < entries@.len() ==> paths.view().dom().contains(#[trigger] entries@[t].0@)
                && paths.view()[entries@[t].0@] == entries@[t].1,
            forall|a: int, b: int| 0 <= a < b < entries@.len() ==> entries@[a].0@ != entries@[b].0@,
            forall|k: Seq<char>| paths.view().dom().contains(k) <==> #[trigger] r@.paths.dom().contains(k),
            forall|k: Seq<char>| paths.view().dom().contains(k) ==> #[trigger] paths.view()[k].count_spec() == r@.paths[k],
            forall|k: Seq<char>| #[trigger] counts.view().dom().contains(k) ==> r@.paths.dom().contains(k) && counts.view()[k] == r@.paths[k],
            forall|t: int| 0 <= t < i ==> counts.view().dom().contains((#[trigger] entries@[t]).0@),
            forall|k: Seq<char>| counts.view().dom().contains(k) ==> exists|t: int| 0 <= t < i && (#[trigger] entries@[t]).0@ == k,
            forall|j: int| 0 <= j < busy@.len() ==> r@.paths.dom().contains(#[trigger] busy@[j]@) && r@.paths[busy@[j]@] >= 2,
            forall|t: int| 0 <= t < i && (#[trigger] entries@[t]).1.count_spec() >= 2 ==> exists|j: int| 0 <= j < busy@.len() && busy@[j]@ == entries@[t].0@,
        decreases entries@.len() - i,
    {
        let k = &entries[i].0;
        let n = entries[i].1.count();
        let ghost before = counts.view();
        let ghost busy_before = busy@;
        proof {
            assert(!before.dom().contains(k@)) by {
                if before.dom().contains(k@) {
                    let t = choose|t: int| 0 <= t < i && (#[trigger] entries@[t]).0@ == k@;
                }
            }
        }
        counts.add_count(k, n);
        if n >= 2 {
            busy.push(k.clone());
        }
        proof {
            assert forall|k2: Seq<char>| #[trigger] counts.view().dom().contains(k2) implies r@.paths.dom().contains(k2)
                && counts.view()[k2] == r@.paths[k2] by {
                if k2 != k@ {
                    assert(before.dom().contains(k2));
                }
            }
            assert forall|t: int| 0 <= t < i + 1 implies counts.view().dom().contains((#[trigger] entries@[t]).0@) by {
                if t < i {
                    assert(before.dom().contains(entries@[t].0@));
                }
            }
            assert forall|k2: Seq<char>| counts.view().dom().contains(k2) implies exists|t: int|
                0 <= t < i + 1 && (#[trigger] entries@[t]).0@ == k2 by {
                if k2 != k@ {
                    assert(before.dom().contains(k2));
                    let t = choose|t: int| 0 <= t < i && (#[trigger] entries@[t]).0@ == k2;
                } else {
                    assert(entries@[i as int].0@ == k2);
                }
            }
            assert forall|j: int| 0 <= j < busy@.len() implies r@.paths.dom().contains(#[trigger] busy@[j]@) && r@.paths[busy@[j]@] >= 2 by {
                if j < busy_before.len() {
                    assert(busy@[j] == busy_before[j]);
                }
            }
            assert forall|t: int| 0 <= t < i + 1 && (#[trigger] entries@[t]).1.count_spec() >= 2 implies exists|j: int|
                0 <= j < busy@.len() && busy@[j]@ == entries@[t].0@ by {
                if t < i {
                    let j = choose|j: int| 0 <= j < busy_before.len() && busy_before[j]@ == entries@[t].0@;
                    assert(busy@[j] == busy_before[j]);
                } else {
                    assert(busy@[busy@.len() - 1]@ == k@);
                }
            }
        }
        i += 1;
    }
    proof {
        assert forall|k: Seq<char>| #![trigger r@.paths.dom().contains(k)]
            r@.paths.dom().contains(k) && r@.paths[k] >= 2 implies exists|j: int|
                0 <= j < busy@.len() && (#[trigger] busy@[j])@ == k by {
            paths.lemma_reveal();
            crate::table::lemma_pairs_map_dom(paths.pairs(), k);
            let x = choose|x: int| 0 <= x < paths.pairs().len() && paths.pairs()[x].0 == k;
            assert(entries@[x].0@ == k);
            assert(entries@[x].1.count_spec() >= 2);
            let j = choose|j: int| 0 <= j < busy@.len() && busy@[j]@ == entries@[x].0@;
            assert(busy@[j]@ == k);
        }
        assert(counts.view() =~= r@.paths) by {
            assert forall|k: Seq<char>| r@.paths.dom().contains(k) implies counts.view().dom().contains(k) by {
                paths.lemma_reveal();
                crate::table::lemma_pairs_map_dom(paths.pairs(), k);
                let x = choose|x: int| 0 <= x < paths.pairs().len() && paths.pairs()[x].0 == k;
                assert(entries@[x].0@ == k);
            }
        }
    }
    assert(forall|k: Seq<char>| #![trigger r@.paths.dom().contains(k)]
        r@.paths.dom().contains(k) && r@.paths[k] >= 2 ==> exists|i: int|
            0 <= i < busy@.len() && (#[trigger] busy@[i])@ == k);
    let ghost busy_v = busy@;
    let ghost paths_v = r@.paths;
    let top_paths = top(&counts, 10);
    let top_hosts = top(r.hosts(), 10);
    let top_ips = top(r.ips(), 10);
    let top_referrers = top(r.referrers(), 10);
    let top_user_agents = top(r.user_agents(), 10);
    let res = StatsCounts {
        total_requests: r.total(),
        top_paths,
        top_hosts,
        top_ips,
        total_bytes: r.total_bytes(),
        unique_clients: r.unique_clients() as u64,
        top_referrers,
        top_user_agents,
        busy_paths: busy,
    };
    assert(res.busy_paths@ == busy_v);
    assert(r@.paths == paths_v);
    assert(forall|k: Seq<char>| #![trigger r@.paths.dom().contains(k)]
        r@.paths.dom().contains(k) && r@.paths[k] >= 2 ==> exists|i: int|
            0 <= i < res.busy_paths@.len() && (#[trigger] res.busy_paths@[i])@ == k);
    res
}

} // verus!
