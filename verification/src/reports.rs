//! Security reports over stored log entries: IPs with many errors, request
//! origins by country, and the largest responses.

use vstd::prelude::*;
use vstd::string::StringExecFns;
use crate::grouping::{group_by, grouped, occurrences, tally, tally_of, views};
use crate::ranking::{is_top_list, lemma_top_list_covers, ranked_prefix, is_ranked_prefix, top, top_keys};
use crate::table::{count_of, Counts, Table};
use crate::text::str_eq;

verus! {

/// The address a request is attributed to: the client IP, or the remote IP
/// when the client IP is empty.
pub open spec fn address_of(client_ip: Seq<char>, remote_ip: Seq<char>) -> Seq<char> {
    if client_ip.len() == 0 { remote_ip } else { client_ip }
}

/// The address a request is attributed to.
pub fn client_address(client_ip: &str, remote_ip: &str) -> (r: String)
    ensures
        r@ == address_of(client_ip@, remote_ip@),
{
    if client_ip.is_empty() {
        String::from_str(remote_ip)
    } else {
        String::from_str(client_ip)
    }
}

/// What the error report reads of a log entry.
pub struct ErrorSample {
    pub client_ip: String,
    pub remote_ip: String,
    pub method: String,
    pub uri: String,
    pub status: u16,
}

pub open spec fn sample_ip(s: ErrorSample) -> Seq<char> {
    address_of(s.client_ip@, s.remote_ip@)
}

/// A 4xx or 5xx answer.
pub open spec fn is_error(status: u16) -> bool {
    status >= 400
}

/// The addresses of the samples.
pub open spec fn sample_ips(samples: Seq<ErrorSample>) -> Seq<Seq<char>> {
    samples.map_values(|s: ErrorSample| sample_ip(s))
}

/// The statuses of the samples.
pub open spec fn sample_statuses(samples: Seq<ErrorSample>) -> Seq<u16> {
    samples.map_values(|s: ErrorSample| s.status)
}

/// The statuses of the requests from `ip`.
pub open spec fn ip_statuses(samples: Seq<ErrorSample>, ip: Seq<char>) -> Seq<u16> {
    grouped(sample_ips(samples), sample_statuses(samples), ip, samples.len() as int)
}

/// Number of 4xx statuses.
pub open spec fn count_4xx(s: Seq<u16>) -> nat
    decreases s.len(),
{
    if s.len() == 0 {
        0
    } else {
        count_4xx(s.drop_last()) + if 400 <= s.last() < 500 { 1nat } else { 0nat }
    }
}

/// Number of 5xx (and higher) statuses.
pub open spec fn count_5xx(s: Seq<u16>) -> nat
    decreases s.len(),
{
    if s.len() == 0 {
        0
    } else {
        count_5xx(s.drop_last()) + if s.last() >= 500 { 1nat } else { 0nat }
    }
}

/// The endpoints (method, URI) of the failed requests from `ip`, in order.
pub open spec fn error_endpoints(samples: Seq<ErrorSample>, ip: Seq<char>) -> Seq<(Seq<char>, Seq<char>)>
    decreases samples.len(),
{
    if samples.len() == 0 {
        Seq::empty()
    } else {
        let s = samples.last();
        let rest = error_endpoints(samples.drop_last(), ip);
        if sample_ip(s) == ip && is_error(s.status) { rest.push((s.method@, s.uri@)) } else { rest }
    }
}

/// The statuses of the failed requests from `ip`, in order.
pub open spec fn error_statuses(samples: Seq<ErrorSample>, ip: Seq<char>) -> Seq<u16>
    decreases samples.len(),
{
    if samples.len() == 0 {
        Seq::empty()
    } else {
        let s = samples.last();
        let rest = error_statuses(samples.drop_last(), ip);
        if sample_ip(s) == ip && is_error(s.status) { rest.push(s.status) } else { rest }
    }
}

/// The statuses of the failed requests from `ip` to endpoint `ep`.
pub open spec fn endpoint_codes(samples: Seq<ErrorSample>, ip: Seq<char>, ep: (Seq<char>, Seq<char>)) -> Seq<u16> {
    let keys = error_endpoints(samples, ip);
    grouped(keys, error_statuses(samples, ip), ep, keys.len() as int)
}

/// The per-endpoint statistics of one address.
pub struct EndpointStat {
    pub method: String,
    pub path: String,
    pub errors: u64,
    /// Each status with its count, most frequent first.
    pub codes: Vec<(u16, u64)>,
}

/// One address of the error report.
pub struct IpReport {
    pub ip: String,
    pub total: u64,
    pub errors_4xx: u64,
    pub errors_5xx: u64,
    pub top_endpoints: Vec<EndpointStat>,
}

/// The statistics of endpoint `ep` of `ip` as the report gives them.
pub open spec fn endpoint_stat_ok(samples: Seq<ErrorSample>, ip: Seq<char>, e: EndpointStat) -> bool {
    let codes = endpoint_codes(samples, ip, (e.method@, e.path@));
    let t = tally_of(codes);
    &&& e.errors == codes.len()
    &&& is_top_list(t, e.codes@.map_values(|c: (u16, u64)| c.0), t.dom().len())
    &&& forall|i: int| 0 <= i < e.codes@.len() ==> t[(#[trigger] e.codes@[i]).0] == e.codes@[i].1
}

/// Failed requests per endpoint of `ip`.
pub open spec fn endpoint_errors(samples: Seq<ErrorSample>, ip: Seq<char>) -> Map<(Seq<char>, Seq<char>), u64> {
    tally_of(error_endpoints(samples, ip))
}

/// How many errors a report line carries.
pub open spec fn report_weight(samples: Seq<ErrorSample>, ip: Seq<char>) -> nat {
    count_4xx(ip_statuses(samples, ip)) + count_5xx(ip_statuses(samples, ip))
}

/// An address is reported when it made at least `min` requests, one of them
/// failed.
pub open spec fn reported(samples: Seq<ErrorSample>, ip: Seq<char>, min: nat) -> bool {
    &&& sample_ips(samples).contains(ip)
    &&& ip_statuses(samples, ip).len() >= min
    &&& report_weight(samples, ip) > 0
}

/// The report line of `ip` is right.
pub open spec fn ip_report_ok(samples: Seq<ErrorSample>, r: IpReport) -> bool {
    let st = ip_statuses(samples, r.ip@);
    &&& r.total == st.len()
    &&& r.errors_4xx == count_4xx(st)
    &&& r.errors_5xx == count_5xx(st)
    &&& is_top_list(
        endpoint_errors(samples, r.ip@),
        r.top_endpoints@.map_values(|e: EndpointStat| (e.method@, e.path@)),
        5,
    )
    &&& forall|i: int| 0 <= i < r.top_endpoints@.len() ==> endpoint_stat_ok(samples, r.ip@, #[trigger] r.top_endpoints@[i])
}

fn count_errors(st: &Vec<u16>) -> (r: (u64, u64))
    ensures
        r.0 == count_4xx(st@),
        r.1 == count_5xx(st@),
{
    let mut a: u64 = 0;
    let mut b: u64 = 0;
    let mut i: usize = 0;
    while i < st.len()
        invariant
            i <= st@.len(),
            a == count_4xx(st@.take(i as int)),
            b == count_5xx(st@.take(i as int)),
            a + b <= i,
        decreases st@.len() - i,
    {
        proof {
            assert(st@.take(i + 1).drop_last() =~= st@.take(i as int));
        }
        if 400 <= st[i] && st[i] < 500 {
            a += 1;
        } else if st[i] >= 500 {
            b += 1;
        }
        i += 1;
    }
    proof {
        assert(st@.take(st@.len() as int) =~= st@);
    }
    (a, b)
}

proof fn lemma_grouped_len<KV, VV>(keys: Seq<KV>, vals: Seq<VV>, k: KV, n: int)
    requires
        0 <= n <= keys.len(),
    ensures
        grouped(keys, vals, k, n).len() == occurrences(keys.take(n), k),
    decreases n,
{
    if n > 0 {
        lemma_grouped_len(keys, vals, k, n - 1);
        assert(keys.take(n).drop_last() =~= keys.take(n - 1));
    }
}

/// The endpoint statistics of `ip`: the five endpoints with the most
/// failures, each with its status counts.
fn ip_endpoints(samples: &Vec<ErrorSample>, ip: &str) -> (r: Vec<EndpointStat>)
    requires
        samples@.len() <= u64::MAX,
    ensures
        is_top_list(endpoint_errors(samples@, ip@), r@.map_values(|e: EndpointStat| (e.method@, e.path@)), 5),
        forall|i: int| 0 <= i < r@.len() ==> endpoint_stat_ok(samples@, ip@, #[trigger] r@[i]),
{
    let mut keys: Vec<(String, String)> = Vec::new();
    let mut stats: Vec<u16> = Vec::new();
    let mut i: usize = 0;
    while i < samples.len()
        invariant
            i <= samples@.len() <= u64::MAX,
            views(keys@) == error_endpoints(samples@.take(i as int), ip@),
            stats@ == error_statuses(samples@.take(i as int), ip@),
            keys@.len() == stats@.len(),
            keys@.len() <= i,
        decreases samples@.len() - i,
    {
        let s = &samples[i];
        let a = client_address(s.client_ip.as_str(), s.remote_ip.as_str());
        proof {
            assert(samples@.take(i + 1).drop_last() =~= samples@.take(i as int));
            assert(samples@.take(i + 1).last() == samples@[i as int]);
        }
        if crate::text::str_eq(a.as_str(), ip) && s.status >= 400 {
            keys.push((s.method.clone(), s.uri.clone()));
            stats.push(s.status);
            proof {
                assert(views(keys@) =~= error_endpoints(samples@.take(i as int), ip@).push((s.method@, s.uri@)));
            }
        }
        i += 1;
    }
    proof {
        assert(samples@.take(samples@.len() as int) =~= samples@);
    }
    let groups = group_by(&keys, &stats);
    let errors = tally(&keys);
    let chosen = top_keys(&errors, 5);
    let mut r: Vec<EndpointStat> = Vec::new();
    let mut j: usize = 0;
    while j < chosen.len()
        invariant
            j <= chosen@.len(),
            groups.wf(),
            views(keys@) == error_endpoints(samples@, ip@),
            stats@ == error_statuses(samples@, ip@),
            keys@.len() == stats@.len(),
            keys@.len() <= u64::MAX,
            forall|k: (Seq<char>, Seq<char>)| groups.view().dom().contains(k) <==> views(keys@).contains(k),
            forall|k: (Seq<char>, Seq<char>)| #[trigger]
                groups.view().dom().contains(k) ==> views(groups.view()[k]@) == grouped(
                    views(keys@),
                    views(stats@),
                    k,
                    keys@.len() as int,
                ),
            errors.view() == tally_of(views(keys@)),
            is_top_list(errors.view(), views(chosen@), 5),
            r@.len() == j,
            forall|t: int| #![trigger r@[t]]
                0 <= t < j ==> (r@[t].method@, r@[t].path@) == chosen@[t]@ && endpoint_stat_ok(samples@, ip@, r@[t]),
        decreases chosen@.len() - j,
    {
        let key = &chosen[j];
        proof {
            assert(views(chosen@)[j as int] == key@);
            assert(errors.view().dom().contains(key@));
            crate::grouping::law_tally_counts_occurrences(views(keys@), key@);
            crate::grouping::lemma_occurrences_contains(views(keys@), key@);
        }
        let pos = match groups.find(key) {
            Some(p) => p,
            None => {
                proof {
                    assert(false);
                }
                return r;
            },
        };
        let codes_seq = groups.value_at(pos);
        let ghost cs = grouped(views(keys@), views(stats@), key@, keys@.len() as int);
        proof {
            assert(views(stats@) =~= stats@);
            assert(views(codes_seq@) == cs);
            assert(views(codes_seq@) =~= codes_seq@);
            lemma_grouped_len(views(keys@), views(stats@), key@, keys@.len() as int);
            assert(views(keys@).take(keys@.len() as int) =~= views(keys@));
        }
        let code_counts = tally(codes_seq);
        proof {
            assert(views(codes_seq@) =~= codes_seq@);
            code_counts.lemma_dom_len();
        }
        let n_codes = code_counts.len();
        let codes = top(&code_counts, n_codes);
        proof {
            let t = code_counts.view();
            let ks = codes@.map_values(|c: (u16, u64)| c.0);
            assert forall|i: int| 0 <= i < ks.len() implies t.dom().contains(#[trigger] ks[i]) by {
                assert(ks[i] == codes@[i].0);
            }
            assert forall|a: int, b: int| 0 <= a < b < ks.len() implies ks[a] != ks[b] by {
                assert(ks[a] == codes@[a].0 && ks[b] == codes@[b].0);
            }
            assert forall|a: int, b: int| 0 <= a < b < ks.len() implies t[ks[a]] >= t[ks[b]] by {
                assert(ks[a] == codes@[a].0 && ks[b] == codes@[b].0);
            }
            assert forall|a: int, k: u16| #![trigger ks[a], t[k]]
                0 <= a < ks.len() && t.dom().contains(k) && !ks.contains(k) implies t[k] <= t[ks[a]] by {
                assert(ks[a] == codes@[a].0);
                assert forall|b: int| 0 <= b < codes@.len() implies (#[trigger] codes@[b]).0@ != k by {
                    assert(ks[b] == codes@[b].0);
                }
            }
            assert(is_top_list(t, ks, t.dom().len()));
        }
        let stat = EndpointStat {
            method: key.0.clone(),
            path: key.1.clone(),
            errors: codes_seq.len() as u64,
            codes,
        };
        r.push(stat);
        j += 1;
    }
    proof {
        let ks = r@.map_values(|e: EndpointStat| (e.method@, e.path@));
        assert(ks =~= views(chosen@));
        assert(endpoint_errors(samples@, ip@) == errors.view());
    }
    r
}

/// IPs with failed requests (`get_error_rates`): every address that made at
/// least `min_requests` requests (5 when not given) with at least one 4xx or
/// 5xx answer, once, most failures first, each with its counts and its five
/// endpoints with the most failures.
pub fn error_rates(samples: &Vec<ErrorSample>, min_requests: Option<u64>) -> (r: Vec<IpReport>)
    requires
        samples@.len() <= u64::MAX,
    ensures
        ({
            let min: nat = match min_requests {
                Some(m) => m as nat,
                None => 5,
            };
            &&& forall|i: int| 0 <= i < r@.len() ==> reported(samples@, (#[trigger] r@[i]).ip@, min) && ip_report_ok(
                samples@,
                r@[i],
            )
            &&& forall|ip: Seq<char>| reported(samples@, ip, min) ==> exists|i: int| 0 <= i < r@.len() && (#[trigger] r@[i]).ip@ == ip
            &&& forall|i: int, j: int| 0 <= i < j < r@.len() ==> r@[i].ip@ != r@[j].ip@
            &&& forall|i: int, j: int| 0 <= i < j < r@.len() ==> report_weight(samples@, r@[i].ip@) >= report_weight(
                samples@,
                r@[j].ip@,
            )
        }),
{
    let min = match min_requests {
        Some(m) => m,
        None => 5,
    };
    let ghost minn: nat = min as nat;
    let mut ips: Vec<String> = Vec::new();
    let mut statuses: Vec<u16> = Vec::new();
    let mut i: usize = 0;
    while i < samples.len()
        invariant
            i <= samples@.len(),
            ips@.len() == i,
            views(ips@) == sample_ips(samples@).take(i as int),
            statuses@ == sample_statuses(samples@).take(i as int),
        decreases samples@.len() - i,
    {
        let s = &samples[i];
        let a = client_address(s.client_ip.as_str(), s.remote_ip.as_str());
        proof {
            assert(sample_ips(samples@)[i as int] == a@);
        }
        ips.push(a);
        statuses.push(s.status);
        proof {
            assert(views(ips@) =~= sample_ips(samples@).take(i + 1)) by {
                assert forall|j: int| 0 <= j < i + 1 implies views(ips@)[j] == sample_ips(samples@).take(i + 1)[j] by {
                    if j < i {
                        assert(views(ips@)[j] == ips@[j]@);
                        assert(views(ips@.drop_last())[j] == ips@[j]@);
                    }
                }
            }
            assert(statuses@ =~= sample_statuses(samples@).take(i + 1));
        }
        i += 1;
    }
    proof {
        assert(views(ips@) =~= sample_ips(samples@));
        assert(statuses@ =~= sample_statuses(samples@));
        assert(views(statuses@) =~= statuses@);
    }
    let groups = group_by(&ips, &statuses);
    let entries = groups.as_vec();
    proof {
        groups.lemma_reveal();
    }
    let mut weights: Counts<String> = Table::new();
    let mut k: usize = 0;
    while k < entries.len()
        invariant
            k <= entries@.len(),
            minn == min as nat,
            weights.wf(),
            groups.wf(),
            samples@.len() <= u64::MAX,
            entries@.len() == groups.pairs().len(),
            forall|t: int| #![trigger entries@[t]] 0 <= t < entries@.len() ==> (entries@[t].0@, entries@[t].1) == groups.pairs()[t],
            groups.view() == crate::table::pairs_map(groups.pairs()),
            crate::table::distinct_keys(groups.pairs()),
            forall|ip: Seq<char>| #[trigger]
                groups.view().dom().contains(ip) ==> views(groups.view()[ip]@) == ip_statuses(samples@, ip),
            forall|ip: Seq<char>| groups.view().dom().contains(ip) <==> sample_ips(samples@).contains(ip),
            forall|ip: Seq<char>| #[trigger]
                weights.view().dom().contains(ip) ==> reported(samples@, ip, minn) && weights.view()[ip]
                    == report_weight(samples@, ip),
            forall|t: int| 0 <= t < k && reported(samples@, (#[trigger] entries@[t]).0@, minn) ==> weights.view().dom().contains(
                entries@[t].0@,
            ),
            forall|ip: Seq<char>| weights.view().dom().contains(ip) ==> exists|t: int| 0 <= t < k && (#[trigger] entries@[t]).0@ == ip,
        decreases entries@.len() - k,
    {
        let ip = &entries[k].0;
        let st = &entries[k].1;
        proof {
            crate::table::lemma_pairs_map_at(groups.pairs(), k as int);
            assert(groups.view().dom().contains(ip@));
            assert(views(st@) =~= st@);
            assert(st@ == ip_statuses(samples@, ip@));
        }
        let (a, b) = count_errors(st);
        proof {
            lemma_counts_le_len(st@);
        }
        let ghost before = weights.view();
        let took = st.len() as u64 >= min && a + b > 0;
        if took {
            proof {
                assert(!before.dom().contains(ip@)) by {
                    if before.dom().contains(ip@) {
                        let t = choose|t: int| 0 <= t < k && (#[trigger] entries@[t]).0@ == ip@;
                        crate::table::lemma_pairs_map_at(groups.pairs(), t);
                    }
                }
            }
            weights.add_count(ip, a + b);
        }
        proof {
            assert(sample_ips(samples@).contains(ip@));
            assert(reported(samples@, ip@, minn) <==> (st@.len() >= minn && a + b > 0));
            assert forall|ip2: Seq<char>| #[trigger] weights.view().dom().contains(ip2) implies reported(
                samples@,
                ip2,
                minn,
            ) && weights.view()[ip2] == report_weight(samples@, ip2) by {
                if ip2 != ip@ || !took {
                    assert(before.dom().contains(ip2));
                } else {
                    assert(weights.view()[ip2] == a + b);
                }
            }
            assert forall|t: int| 0 <= t < k + 1 && reported(samples@, (#[trigger] entries@[t]).0@, minn) implies weights.view().dom().contains(
                entries@[t].0@,
            ) by {
                if t < k {
                    assert(before.dom().contains(entries@[t].0@));
                } else {
                    assert(took);
                }
            }
            assert forall|ip2: Seq<char>| weights.view().dom().contains(ip2) implies exists|t: int|
                0 <= t < k + 1 && (#[trigger] entries@[t]).0@ == ip2 by {
                if ip2 != ip@ {
                    assert(before.dom().contains(ip2));
                    let t = choose|t: int| 0 <= t < k && (#[trigger] entries@[t]).0@ == ip2;
                } else {
                    assert(entries@[k as int].0@ == ip2);
                }
            }
        }
        k += 1;
    }
    proof {
        weights.lemma_dom_len();
        assert forall|ip: Seq<char>| reported(samples@, ip, minn) implies weights.view().dom().contains(ip) by {
            crate::table::lemma_pairs_map_dom(groups.pairs(), ip);
            let x = choose|x: int| 0 <= x < groups.pairs().len() && groups.pairs()[x].0 == ip;
            assert(entries@[x].0@ == ip);
        }
    }
    let n = weights.len();
    let order = top_keys(&weights, n);
    let mut r: Vec<IpReport> = Vec::new();
    let mut t: usize = 0;
    while t < order.len()
        invariant
            t <= order@.len(),
            groups.wf(),
            samples@.len() <= u64::MAX,
            forall|ip: Seq<char>| #[trigger]
                groups.view().dom().contains(ip) ==> views(groups.view()[ip]@) == ip_statuses(samples@, ip),
            forall|ip: Seq<char>| groups.view().dom().contains(ip) <==> sample_ips(samples@).contains(ip),
            forall|ip: Seq<char>| #[trigger]
                weights.view().dom().contains(ip) ==> reported(samples@, ip, minn) && weights.view()[ip]
                    == report_weight(samples@, ip),
            is_top_list(weights.view(), views(order@), n as nat),
            forall|ip: Seq<char>| reported(samples@, ip, minn) ==> weights.view().dom().contains(ip),
            weights.view().dom().finite(),
            n == weights.view().dom().len(),
            r@.len() == t,
            forall|x: int| #![trigger r@[x]]
                0 <= x < t ==> r@[x].ip@ == order@[x]@ && ip_report_ok(samples@, r@[x]),
        decreases order@.len() - t,
    {
        let ip = &order[t];
        proof {
            assert(views(order@)[t as int] == ip@);
            assert(weights.view().dom().contains(ip@));
        }
        let pos = match groups.find(ip) {
            Some(p) => p,
            None => {
                proof {
                    assert(false);
                }
                return r;
            },
        };
        let st = groups.value_at(pos);
        proof {
            assert(views(st@) =~= st@);
        }
        let (a, b) = count_errors(st);
        let eps = ip_endpoints(samples, ip.as_str());
        proof {
            lemma_counts_le_len(st@);
        }
        r.push(IpReport { ip: ip.clone(), total: st.len() as u64, errors_4xx: a, errors_5xx: b, top_endpoints: eps });
        t += 1;
    }
    proof {
        let ov = views(order@);
        assert forall|ip: Seq<char>| reported(samples@, ip, minn) implies exists|i: int|
            0 <= i < r@.len() && (#[trigger] r@[i]).ip@ == ip by {
            lemma_top_list_covers(weights.view(), ov, n as nat, ip);
            let i = choose|i: int| 0 <= i < ov.len() && ov[i] == ip;
            assert(r@[i].ip@ == ip);
        }
        assert forall|i: int| 0 <= i < r@.len() implies reported(samples@, (#[trigger] r@[i]).ip@, minn) by {
            assert(ov[i] == r@[i].ip@);
        }
        assert forall|i: int, j: int| 0 <= i < j < r@.len() implies r@[i].ip@ != r@[j].ip@ by {
            assert(ov[i] == r@[i].ip@);
            assert(ov[j] == r@[j].ip@);
        }
        assert forall|i: int, j: int| 0 <= i < j < r@.len() implies report_weight(samples@, r@[i].ip@) >= report_weight(
            samples@,
            r@[j].ip@,
        ) by {
            assert(ov[i] == r@[i].ip@);
            assert(ov[j] == r@[j].ip@);
        }
    }
    r
}

proof fn lemma_counts_le_len(s: Seq<u16>)
    ensures
        count_4xx(s) + count_5xx(s) <= s.len(),
    decreases s.len(),
{
    if s.len() > 0 {
        lemma_counts_le_len(s.drop_last());
    }
}

/// How the map places requests.
#[derive(PartialEq, Eq, Structural, Debug, Clone, Copy)]
pub enum GeoMode {
    /// By the `Cf-Ipcountry` header.
    Country,
    /// By the coordinates of the client address.
    Precise,
}

/// The map mode a request asks for: `country` (the default) or `precise`;
/// `None` for any other name, which is answered 400.
pub fn geo_mode(mode: &Option<String>) -> (r: Option<GeoMode>)
    ensures
        r == (match mode {
            None => Some(GeoMode::Country),
            Some(m) => if m@ == "country"@ {
                Some(GeoMode::Country)
            } else if m@ == "precise"@ {
                Some(GeoMode::Precise)
            } else {
                None
            },
        }),
{
    match mode {
        None => Some(GeoMode::Country),
        Some(m) => {
            let s = m.as_str();
            if str_eq(s, "country") {
                Some(GeoMode::Country)
            } else if str_eq(s, "precise") {
                Some(GeoMode::Precise)
            } else {
                None
            }
        },
    }
}

/// Requests per country: the addresses of the requests that carried
/// `country`.
pub open spec fn country_ips(countries: Seq<Seq<char>>, ips: Seq<Seq<char>>, country: Seq<char>) -> Seq<Seq<char>> {
    grouped(countries, ips, country, countries.len() as int)
}

/// One country of the map.
pub struct CountryCount {
    pub country: String,
    pub count: u64,
    /// The ten addresses with the most requests, most first.
    pub top_ips: Vec<String>,
}

/// Requests by country (the country mode of `get_geo`): `countries[i]` is the
/// first `Cf-Ipcountry` value of a request and `ips[i]` its address. Every
/// country once, most requests first, with its ten busiest addresses.
pub fn country_counts(countries: &Vec<String>, ips: &Vec<String>) -> (r: Vec<CountryCount>)
    requires
        countries@.len() == ips@.len(),
        countries@.len() <= u64::MAX,
    ensures
        forall|i: int| #![trigger r@[i]]
            0 <= i < r@.len() ==> {
                let g = country_ips(views(countries@), views(ips@), r@[i].country@);
                &&& views(countries@).contains(r@[i].country@)
                &&& r@[i].count == g.len()
                &&& is_top_list(tally_of(g), views(r@[i].top_ips@), 10)
            },
        forall|c: Seq<char>| views(countries@).contains(c) ==> exists|i: int| 0 <= i < r@.len() && (#[trigger] r@[i]).country@ == c,
        forall|i: int, j: int| 0 <= i < j < r@.len() ==> r@[i].country@ != r@[j].country@,
        forall|i: int, j: int| 0 <= i < j < r@.len() ==> r@[i].count >= r@[j].count,
{
    let ghost cv = views(countries@);
    let ghost iv = views(ips@);
    let groups = group_by(countries, ips);
    let entries = groups.as_vec();
    proof {
        groups.lemma_reveal();
    }
    let mut counts: Counts<String> = Table::new();
    let mut k: usize = 0;
    while k < entries.len()
        invariant
            k <= entries@.len(),
            counts.wf(),
            groups.wf(),
            cv == views(countries@),
            iv == views(ips@),
            countries@.len() <= u64::MAX,
            entries@.len() == groups.pairs().len(),
            forall|t: int| #![trigger entries@[t]] 0 <= t < entries@.len() ==> (entries@[t].0@, entries@[t].1) == groups.pairs()[t],
            groups.view() == crate::table::pairs_map(groups.pairs()),
            crate::table::distinct_keys(groups.pairs()),
            forall|c: Seq<char>| #[trigger]
                groups.view().dom().contains(c) ==> views(groups.view()[c]@) == country_ips(cv, iv, c),
            forall|c: Seq<char>| #[trigger]
                counts.view().dom().contains(c) ==> cv.contains(c) && counts.view()[c] == country_ips(cv, iv, c).len(),
            forall|c: Seq<char>| groups.view().dom().contains(c) <==> cv.contains(c),
            forall|t: int| 0 <= t < k ==> counts.view().dom().contains((#[trigger] entries@[t]).0@),
            forall|c: Seq<char>| counts.view().dom().contains(c) ==> exists|t: int| 0 <= t < k && (#[trigger] entries@[t]).0@ == c,
        decreases entries@.len() - k,
    {
        let c = &entries[k].0;
        let g = &entries[k].1;
        proof {
            crate::table::lemma_pairs_map_at(groups.pairs(), k as int);
            assert(groups.view().dom().contains(c@));
            lemma_grouped_len(cv, iv, c@, cv.len() as int);
            crate::grouping::lemma_occurrences_bound_pub(cv.take(cv.len() as int), c@);
            assert(views(g@).len() == g@.len());
        }
        let ghost before = counts.view();
        proof {
            assert(!before.dom().contains(c@)) by {
                if before.dom().contains(c@) {
                    let t = choose|t: int| 0 <= t < k && (#[trigger] entries@[t]).0@ == c@;
                    crate::table::lemma_pairs_map_at(groups.pairs(), t);
                }
            }
        }
        counts.add_count(c, g.len() as u64);
        proof {
            assert forall|c2: Seq<char>| #[trigger] counts.view().dom().contains(c2) implies cv.contains(c2)
                && counts.view()[c2] == country_ips(cv, iv, c2).len() by {
                if c2 != c@ {
                    assert(before.dom().contains(c2));
                } else {
                    assert(groups.view()[c@] == *g);
                    assert(views(g@) == country_ips(cv, iv, c@));
                }
            }
            assert forall|t: int| 0 <= t < k + 1 implies counts.view().dom().contains((#[trigger] entries@[t]).0@) by {
                if t < k {
                    assert(before.dom().contains(entries@[t].0@));
                }
            }
            assert forall|c2: Seq<char>| counts.view().dom().contains(c2) implies exists|t: int|
                0 <= t < k + 1 && (#[trigger] entries@[t]).0@ == c2 by {
                if c2 != c@ {
                    assert(before.dom().contains(c2));
                    let t = choose|t: int| 0 <= t < k && (#[trigger] entries@[t]).0@ == c2;
                } else {
                    assert(entries@[k as int].0@ == c2);
                }
            }
        }
        k += 1;
    }
    proof {
        counts.lemma_dom_len();
        assert forall|c: Seq<char>| cv.contains(c) implies counts.view().dom().contains(c) by {
            crate::table::lemma_pairs_map_dom(groups.pairs(), c);
            let x = choose|x: int| 0 <= x < groups.pairs().len() && groups.pairs()[x].0 == c;
            assert(entries@[x].0@ == c);
        }
    }
    let n = counts.len();
    let order = top_keys(&counts, n);
    let mut r: Vec<CountryCount> = Vec::new();
    let mut t: usize = 0;
    while t < order.len()
        invariant
            t <= order@.len(),
            groups.wf(),
            cv == views(countries@),
            iv == views(ips@),
            countries@.len() <= u64::MAX,
            forall|c: Seq<char>| #[trigger]
                groups.view().dom().contains(c) ==> views(groups.view()[c]@) == country_ips(cv, iv, c),
            forall|c: Seq<char>| #[trigger]
                counts.view().dom().contains(c) ==> cv.contains(c) && counts.view()[c] == country_ips(cv, iv, c).len(),
            forall|c: Seq<char>| groups.view().dom().contains(c) <==> cv.contains(c),
            is_top_list(counts.view(), views(order@), n as nat),
            r@.len() == t,
            forall|x: int| #![trigger r@[x]]
                0 <= x < t ==> r@[x].country@ == order@[x]@ && r@[x].count == counts.view()[order@[x]@] && {
                    let g = country_ips(cv, iv, r@[x].country@);
                    &&& cv.contains(r@[x].country@)
                    &&& r@[x].count == g.len()
                    &&& is_top_list(tally_of(g), views(r@[x].top_ips@), 10)
                },
        decreases order@.len() - t,
    {
        let c = &order[t];
        proof {
            assert(views(order@)[t as int] == c@);
            assert(counts.view().dom().contains(c@));
        }
        let pos = match groups.find(c) {
            Some(p) => p,
            None => {
                proof {
                    assert(false);
                }
                return r;
            },
        };
        let g = groups.value_at(pos);
        proof {
            lemma_grouped_len(cv, iv, c@, cv.len() as int);
            crate::grouping::lemma_occurrences_bound_pub(cv.take(cv.len() as int), c@);
        }
        let ip_counts = tally(g);
        let top_ips = top_keys(&ip_counts, 10);
        r.push(CountryCount { country: c.clone(), count: g.len() as u64, top_ips });
        t += 1;
    }
    proof {
        let ov = views(order@);
        assert forall|c: Seq<char>| cv.contains(c) implies exists|i: int| 0 <= i < r@.len() && (#[trigger] r@[i]).country@ == c by {
            assert(counts.view().dom().contains(c));
            lemma_top_list_covers(counts.view(), ov, n as nat, c);
            let i = choose|i: int| 0 <= i < ov.len() && ov[i] == c;
            assert(r@[i].country@ == c);
        }
        assert forall|i: int, j: int| 0 <= i < j < r@.len() implies r@[i].country@ != r@[j].country@ by {
            assert(ov[i] == r@[i].country@);
            assert(ov[j] == r@[j].country@);
        }
        assert forall|i: int, j: int| 0 <= i < j < r@.len() implies r@[i].count >= r@[j].count by {
            assert(ov[i] == r@[i].country@);
            assert(ov[j] == r@[j].country@);
        }
    }
    r
}

/// The positions of the (at most) 100 largest responses, largest first
/// (`get_large_payloads`).
pub fn largest_payloads(sizes: &Vec<u64>) -> (r: Vec<usize>)
    ensures
        r@.len() == (if 100 < sizes@.len() { 100 } else { sizes@.len() as int }),
        is_ranked_prefix(sizes@, r@),
{
    ranked_prefix(sizes, 100)
}

} // verus!
