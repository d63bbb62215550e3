//! The AI traffic analysis: the summary handed to the language model, the
//! prompt around it, and the events streamed back to the browser.

use vstd::prelude::*;
use vstd::string::StringExecFns;
use crate::grouping::{law_tally_counts_occurrences, occurrences, tally, tally_of, views};
use crate::ranking::{is_top_list, top, top_key_views};
use crate::reports::address_of;
use crate::table::{count_of, Counts};
use crate::text::{before_first, before_first_str, concat2, decimal, decimal_string, replace_all, replace_str};
use crate::session::hex_lower;

verus! {

/// The settings key of a custom prompt template.
pub const SETTING_KEY: &'static str = "ai_prompt_template";

/// The prompt used when no custom template is stored.
pub const DEFAULT_PROMPT_TEMPLATE: &'static str = "You are a security-aware web traffic analyst. Analyze the following 24-hour Caddy access log summary. Provide:\n1. A concise assessment (3-5 bullet points) flagging anything suspicious or anomalous. If traffic looks normal, say so briefly.\n2. A short **Action Items** section listing concrete steps the operator should consider based on what you found.\n\nUse markdown formatting.\n\n{summary}\n\nProvide your analysis and action items:";

/// What the summary reads of a log entry.
pub struct PromptSample {
    pub status: u16,
    pub uri: String,
    pub client_ip: String,
    pub remote_ip: String,
    /// Whole hours from the start of the window to the entry.
    pub hour: u64,
    /// The first `User-Agent` header value.
    pub user_agent: Option<String>,
}

/// The path of a request: its URI without the query string.
pub open spec fn path_of(s: PromptSample) -> Seq<char> {
    before_first(s.uri@, '?')
}

pub open spec fn ip_of(s: PromptSample) -> Seq<char> {
    address_of(s.client_ip@, s.remote_ip@)
}

/// At most the first `n` characters.
pub open spec fn first_chars(s: Seq<char>, n: nat) -> Seq<char> {
    if s.len() <= n { s } else { s.take(n as int) }
}

/// The paths of the entries.
pub open spec fn paths_of(ss: Seq<PromptSample>) -> Seq<Seq<char>> {
    ss.map_values(|s: PromptSample| path_of(s))
}

/// The addresses of the entries.
pub open spec fn ips_of(ss: Seq<PromptSample>) -> Seq<Seq<char>> {
    ss.map_values(|s: PromptSample| ip_of(s))
}

/// The paths of the failed (4xx and 5xx) entries.
pub open spec fn error_paths_of(ss: Seq<PromptSample>) -> Seq<Seq<char>>
    decreases ss.len(),
{
    if ss.len() == 0 {
        Seq::empty()
    } else {
        let rest = error_paths_of(ss.drop_last());
        if ss.last().status >= 400 { rest.push(path_of(ss.last())) } else { rest }
    }
}

/// The addresses of the failed entries.
pub open spec fn error_ips_of(ss: Seq<PromptSample>) -> Seq<Seq<char>>
    decreases ss.len(),
{
    if ss.len() == 0 {
        Seq::empty()
    } else {
        let rest = error_ips_of(ss.drop_last());
        if ss.last().status >= 400 { rest.push(ip_of(ss.last())) } else { rest }
    }
}

/// The user agents (their first 60 characters) of the entries that have one.
pub open spec fn agents_of(ss: Seq<PromptSample>) -> Seq<Seq<char>>
    decreases ss.len(),
{
    if ss.len() == 0 {
        Seq::empty()
    } else {
        let rest = agents_of(ss.drop_last());
        match ss.last().user_agent {
            Some(u) => rest.push(first_chars(u@, 60)),
            None => rest,
        }
    }
}

/// Number of entries whose status lies in `[lo, hi)`.
pub open spec fn status_between(ss: Seq<PromptSample>, lo: int, hi: int) -> nat
    decreases ss.len(),
{
    if ss.len() == 0 {
        0
    } else {
        status_between(ss.drop_last(), lo, hi) + if lo <= ss.last().status < hi { 1nat } else { 0nat }
    }
}

/// The four-hour block of an entry: hours past the 24th count in the last.
pub open spec fn block_of(hour: u64) -> int {
    (if hour < 23 { hour as int } else { 23 }) / 4
}

/// Number of entries in four-hour block `b`.
pub open spec fn in_block(ss: Seq<PromptSample>, b: int) -> nat
    decreases ss.len(),
{
    if ss.len() == 0 {
        0
    } else {
        in_block(ss.drop_last(), b) + if block_of(ss.last().hour) == b { 1nat } else { 0nat }
    }
}

/// The counted facts of the last day of traffic.
pub struct TrafficSummary {
    pub total: u64,
    pub unique_ips: u64,
    pub s2xx: u64,
    pub s3xx: u64,
    pub s4xx: u64,
    pub s5xx: u64,
    /// Requests in each four-hour block, oldest first.
    pub hourly: Vec<u64>,
    pub top_paths: Vec<(String, u64)>,
    /// Address, requests, failed requests.
    pub top_ips: Vec<(String, u64, u64)>,
    pub top_error_paths: Vec<(String, u64)>,
    pub top_uas: Vec<(String, u64)>,
}

/// `pairs` are the `limit` most frequent keys of `m` with their counts.
pub open spec fn is_top_pairs(m: Map<Seq<char>, u64>, pairs: Seq<(String, u64)>, limit: nat) -> bool {
    &&& is_top_list(m, top_key_views(pairs), limit)
    &&& forall|i: int| 0 <= i < pairs.len() ==> m[(#[trigger] pairs[i]).0@] == pairs[i].1
}

/// The summary is right for these entries.
pub open spec fn summary_ok(ss: Seq<PromptSample>, r: TrafficSummary) -> bool {
    let ipm = tally_of(ips_of(ss));
    let ips = r.top_ips@.map_values(|t: (String, u64, u64)| t.0@);
    &&& r.total == ss.len()
    &&& r.unique_ips == ipm.dom().len()
    &&& r.s2xx == status_between(ss, 0, 300)
    &&& r.s3xx == status_between(ss, 300, 400)
    &&& r.s4xx == status_between(ss, 400, 500)
    &&& r.s5xx == status_between(ss, 500, 0x1_0000)
    &&& r.hourly@.len() == 6
    &&& forall|b: int| 0 <= b < 6 ==> #[trigger] r.hourly@[b] == in_block(ss, b)
    &&& is_top_pairs(tally_of(paths_of(ss)), r.top_paths@, 10)
    &&& is_top_list(ipm, ips, 10)
    &&& forall|i: int| 0 <= i < r.top_ips@.len() ==> {
        let t = #[trigger] r.top_ips@[i];
        t.1 == ipm[t.0@] && t.2 == count_of(tally_of(error_ips_of(ss)), t.0@)
    }
    &&& is_top_pairs(tally_of(error_paths_of(ss)), r.top_error_paths@, 10)
    &&& is_top_pairs(tally_of(agents_of(ss)), r.top_uas@, 5)
}

/// Requests from address `ip`.
pub open spec fn requests_from(ss: Seq<PromptSample>, ip: Seq<char>) -> nat
    decreases ss.len(),
{
    if ss.len() == 0 {
        0
    } else {
        requests_from(ss.drop_last(), ip) + if ip_of(ss.last()) == ip { 1nat } else { 0nat }
    }
}

/// Failed requests from address `ip`: those answered with a status of 400 or
/// more (a client or server error). Redirects and successes do not count.
pub open spec fn failures_from(ss: Seq<PromptSample>, ip: Seq<char>) -> nat
    decreases ss.len(),
{
    if ss.len() == 0 {
        0
    } else {
        failures_from(ss.drop_last(), ip) + if ip_of(ss.last()) == ip && ss.last().status >= 400 {
            1nat
        } else {
            0nat
        }
    }
}

proof fn lemma_error_ips_count(ss: Seq<PromptSample>, ip: Seq<char>)
    ensures
        occurrences(error_ips_of(ss), ip) == failures_from(ss, ip),
        error_ips_of(ss).len() <= ss.len(),
        occurrences(ips_of(ss), ip) == requests_from(ss, ip),
        failures_from(ss, ip) <= requests_from(ss, ip),
    decreases ss.len(),
{
    if ss.len() > 0 {
        lemma_error_ips_count(ss.drop_last(), ip);
        assert(ips_of(ss).drop_last() =~= ips_of(ss.drop_last()));
        assert(ips_of(ss).last() == ip_of(ss.last()));
        if ss.last().status >= 400 {
            assert(error_ips_of(ss).drop_last() =~= error_ips_of(ss.drop_last()));
        }
    }
}

/// Each address in the summary's top list comes with the number of its
/// requests and, as its error count, the number of its requests answered with
/// a 4xx or 5xx status: never more than its requests, and a redirect or a
/// success never adds to it.
pub proof fn law_top_ip_failures(ss: Seq<PromptSample>, r: TrafficSummary)
    requires
        ss.len() <= u64::MAX,
        summary_ok(ss, r),
    ensures
        forall|i: int| #![trigger r.top_ips@[i]] 0 <= i < r.top_ips@.len() ==> {
            &&& r.top_ips@[i].1 == requests_from(ss, r.top_ips@[i].0@)
            &&& r.top_ips@[i].2 == failures_from(ss, r.top_ips@[i].0@)
            &&& r.top_ips@[i].2 <= r.top_ips@[i].1
        },
{
    assert forall|i: int| #![trigger r.top_ips@[i]] 0 <= i < r.top_ips@.len() implies {
        &&& r.top_ips@[i].1 == requests_from(ss, r.top_ips@[i].0@)
        &&& r.top_ips@[i].2 == failures_from(ss, r.top_ips@[i].0@)
        &&& r.top_ips@[i].2 <= r.top_ips@[i].1
    } by {
        let ip = r.top_ips@[i].0@;
        lemma_error_ips_count(ss, ip);
        law_tally_counts_occurrences(error_ips_of(ss), ip);
        assert(ips_of(ss).len() == ss.len());
        law_tally_counts_occurrences(ips_of(ss), ip);
        let ips = r.top_ips@.map_values(|t: (String, u64, u64)| t.0@);
        assert(ips[i] == ip);
        assert(is_top_list(tally_of(ips_of(ss)), ips, 10));
        assert(tally_of(ips_of(ss)).dom().contains(ips[i]));
        assert(count_of(tally_of(ips_of(ss)), ip) == tally_of(ips_of(ss))[ip]);
    }
}

/// Requests answered with a status of 400 or more.
pub open spec fn failed_requests(ss: Seq<PromptSample>) -> nat
    decreases ss.len(),
{
    if ss.len() == 0 {
        0
    } else {
        failed_requests(ss.drop_last()) + if ss.last().status >= 400 { 1nat } else { 0nat }
    }
}

proof fn lemma_classes(ss: Seq<PromptSample>)
    ensures
        status_between(ss, 0, 300) + status_between(ss, 300, 400) + status_between(ss, 400, 500) + status_between(
            ss,
            500,
            0x1_0000,
        ) == ss.len(),
        status_between(ss, 400, 500) + status_between(ss, 500, 0x1_0000) == failed_requests(ss),
        in_block(ss, 0) + in_block(ss, 1) + in_block(ss, 2) + in_block(ss, 3) + in_block(ss, 4) + in_block(ss, 5)
            == ss.len(),
    decreases ss.len(),
{
    if ss.len() > 0 {
        lemma_classes(ss.drop_last());
        let h = ss.last().hour;
        assert(0 <= block_of(h) < 6);
    }
}

/// The status classes of the summary split the requests: every request is in
/// exactly one of 2xx (with anything below 300), 3xx, 4xx and 5xx, the 4xx and
/// 5xx together are the requests answered with 400 or more, and the six
/// four-hour blocks together hold every request.
pub proof fn law_summary_partitions(ss: Seq<PromptSample>, r: TrafficSummary)
    requires
        summary_ok(ss, r),
    ensures
        r.s2xx + r.s3xx + r.s4xx + r.s5xx == r.total,
        r.s4xx + r.s5xx == failed_requests(ss),
        r.hourly@[0] + r.hourly@[1] + r.hourly@[2] + r.hourly@[3] + r.hourly@[4] + r.hourly@[5] == r.total,
{
    lemma_classes(ss);
    assert(r.hourly@[0] == in_block(ss, 0));
    assert(r.hourly@[1] == in_block(ss, 1));
    assert(r.hourly@[2] == in_block(ss, 2));
    assert(r.hourly@[3] == in_block(ss, 3));
    assert(r.hourly@[4] == in_block(ss, 4));
    assert(r.hourly@[5] == in_block(ss, 5));
}

fn first_60(u: &str) -> (r: String)
    ensures
        r@ == first_chars(u@, 60),
{
    let v = crate::text::chars_of(u);
    if v.len() <= 60 {
        return crate::text::string_from_chars(&v);
    }
    let mut out: Vec<char> = Vec::new();
    let mut i: usize = 0;
    while i < 60
        invariant
            i <= 60,
            v@.len() > 60,
            out@ == v@.take(i as int),
        decreases 60 - i,
    {
        out.push(v[i]);
        i += 1;
        assert(out@ =~= v@.take(i as int));
    }
    crate::text::string_from_chars(&out)
}

fn top_pairs(m: &Counts<String>, limit: usize) -> (r: Vec<(String, u64)>)
    requires
        m.wf(),
    ensures
        is_top_pairs(m.view(), r@, limit as nat),
{
    top(m, limit)
}

/// Counts what the AI summary reports (`build_prompt`, before rendering):
/// refused when there are no entries.
pub fn summarize(samples: &Vec<PromptSample>) -> (r: Result<TrafficSummary, &'static str>)
    requires
        samples@.len() <= u64::MAX,
    ensures
        samples@.len() == 0 <==> r is Err,
        r matches Err(msg) ==> msg@ == "No log entries found in the last 24 hours."@,
        r matches Ok(s) ==> summary_ok(samples@, s),
        r matches Ok(s) ==> forall|i: int| #![trigger s.top_ips@[i]] 0 <= i < s.top_ips@.len() ==> {
            &&& s.top_ips@[i].1 == requests_from(samples@, s.top_ips@[i].0@)
            &&& s.top_ips@[i].2 == failures_from(samples@, s.top_ips@[i].0@)
        },
        r matches Ok(s) ==> s.s2xx + s.s3xx + s.s4xx + s.s5xx == samples@.len() && s.s4xx + s.s5xx
            == failed_requests(samples@),
{
    if samples.len() == 0 {
        return Err("No log entries found in the last 24 hours.");
    }
    let mut paths: Vec<String> = Vec::new();
    let mut ips: Vec<String> = Vec::new();
    let mut error_paths: Vec<String> = Vec::new();
    let mut error_ips: Vec<String> = Vec::new();
    let mut agents: Vec<String> = Vec::new();
    let mut s2: u64 = 0;
    let mut s3: u64 = 0;
    let mut s4: u64 = 0;
    let mut s5: u64 = 0;
    let mut hourly: Vec<u64> = vec![0, 0, 0, 0, 0, 0];
    let mut i: usize = 0;
    while i < samples.len()
        invariant
            i <= samples@.len() <= u64::MAX,
            views(paths@) == paths_of(samples@.take(i as int)),
            views(ips@) == ips_of(samples@.take(i as int)),
            views(error_paths@) == error_paths_of(samples@.take(i as int)),
            views(error_ips@) == error_ips_of(samples@.take(i as int)),
            views(agents@) == agents_of(samples@.take(i as int)),
            error_paths@.len() <= i,
            error_ips@.len() <= i,
            agents@.len() <= i,
            s2 == status_between(samples@.take(i as int), 0, 300),
            s3 == status_between(samples@.take(i as int), 300, 400),
            s4 == status_between(samples@.take(i as int), 400, 500),
            s5 == status_between(samples@.take(i as int), 500, 0x1_0000),
            s2 + s3 + s4 + s5 <= i,
            hourly@.len() == 6,
            forall|b: int| 0 <= b < 6 ==> #[trigger] hourly@[b] == in_block(samples@.take(i as int), b),
            forall|b: int| 0 <= b < 6 ==> #[trigger] hourly@[b] <= i,
        decreases samples@.len() - i,
    {
        let s = &samples[i];
        let ghost pre = samples@.take(i as int);
        let ghost cur = samples@.take(i + 1);
        proof {
            assert(cur.drop_last() =~= pre);
            assert(cur.last() == samples@[i as int]);
            assert(paths_of(cur) =~= paths_of(pre).push(path_of(samples@[i as int])));
            assert(ips_of(cur) =~= ips_of(pre).push(ip_of(samples@[i as int])));
        }
        let path = before_first_str(s.uri.as_str(), '?');
        let ip = crate::reports::client_address(s.client_ip.as_str(), s.remote_ip.as_str());
        if s.status >= 400 {
            error_paths.push(path.clone());
            error_ips.push(ip.clone());
        }
        paths.push(path);
        ips.push(ip);
        if let Some(u) = &s.user_agent {
            agents.push(first_60(u.as_str()));
        }
        if s.status < 300 {
            s2 += 1;
        } else if s.status < 400 {
            s3 += 1;
        } else if s.status < 500 {
            s4 += 1;
        } else {
            s5 += 1;
        }
        let h = if s.hour < 23 { s.hour } else { 23 };
        let b = (h / 4) as usize;
        let old_count = hourly[b];
        hourly.set(b, old_count + 1);
        proof {
            assert(views(paths@) =~= paths_of(cur));
            assert(views(ips@) =~= ips_of(cur));
            assert(views(error_paths@) =~= error_paths_of(cur));
            assert(views(error_ips@) =~= error_ips_of(cur));
            assert(views(agents@) =~= agents_of(cur));
            assert forall|c: int| 0 <= c < 6 implies #[trigger] hourly@[c] == in_block(cur, c) by {}
        }
        i += 1;
    }
    proof {
        assert(samples@.take(samples@.len() as int) =~= samples@);
    }
    let path_counts = tally(&paths);
    let ip_counts = tally(&ips);
    let error_path_counts = tally(&error_paths);
    let error_ip_counts = tally(&error_ips);
    let agent_counts = tally(&agents);
    let top_paths = top_pairs(&path_counts, 10);
    let top_error_paths = top_pairs(&error_path_counts, 10);
    let top_uas = top_pairs(&agent_counts, 5);
    let ranked_ips = top(&ip_counts, 10);
    let mut top_ips: Vec<(String, u64, u64)> = Vec::new();
    let mut k: usize = 0;
    while k < ranked_ips.len()
        invariant
            k <= ranked_ips@.len(),
            error_ip_counts.wf(),
            top_ips@.len() == k,
            forall|j: int| 0 <= j < k ==> {
                let t = #[trigger] top_ips@[j];
                &&& t.0@ == ranked_ips@[j].0@
                &&& t.1 == ranked_ips@[j].1
                &&& t.2 == count_of(error_ip_counts.view(), t.0@)
            },
        decreases ranked_ips@.len() - k,
    {
        let ip = &ranked_ips[k].0;
        let errs = match error_ip_counts.find(ip) {
            Some(p) => error_ip_counts.entries[p].1,
            None => 0,
        };
        top_ips.push((ip.clone(), ranked_ips[k].1, errs));
        k += 1;
    }
    proof {
        ip_counts.lemma_dom_len();
        let ipv = top_ips@.map_values(|t: (String, u64, u64)| t.0@);
        assert(ipv =~= top_key_views(ranked_ips@));
    }
    let r = TrafficSummary {
        total: samples.len() as u64,
        unique_ips: ip_counts.len() as u64,
        s2xx: s2,
        s3xx: s3,
        s4xx: s4,
        s5xx: s5,
        hourly,
        top_paths,
        top_ips,
        top_error_paths,
        top_uas,
    };
    proof {
        law_top_ip_failures(samples@, r);
        law_summary_partitions(samples@, r);
    }
    Ok(r)
}

/// A newline.
pub open spec fn nl() -> Seq<char> {
    seq!['\n']
}

/// Lines separated by newlines (`join("\n")`).
pub open spec fn join_lines(lines: Seq<Seq<char>>) -> Seq<char>
    decreases lines.len(),
{
    if lines.len() == 0 {
        Seq::empty()
    } else if lines.len() == 1 {
        lines[0]
    } else {
        join_lines(lines.drop_last()) + nl() + lines.last()
    }
}

/// `lines` joined by newlines.
pub fn join_strings(lines: &Vec<String>) -> (r: String)
    ensures
        r@ == join_lines(views(lines@)),
{
    let mut out = String::new();
    let mut i: usize = 0;
    while i < lines.len()
        invariant
            i <= lines@.len(),
            out@ == join_lines(views(lines@).take(i as int)),
        decreases lines@.len() - i,
    {
        proof {
            assert(views(lines@).take(i + 1).drop_last() =~= views(lines@).take(i as int));
            assert(views(lines@).take(i + 1).last() == lines@[i as int]@);
        }
        if i > 0 {
            out = concat2(out.as_str(), "\n");
            proof {
                reveal_strlit("\n");
            }
        }
        out = concat2(out.as_str(), lines[i].as_str());
        proof {
            if i == 0 {
                assert(views(lines@).take(1) =~= seq![lines@[0]@]);
                assert(out@ =~= lines@[0]@);
            }
        }
        i += 1;
    }
    proof {
        assert(views(lines@).take(lines@.len() as int) =~= views(lines@));
    }
    out
}

/// `  name (count)`.
pub open spec fn count_line(name: Seq<char>, c: u64) -> Seq<char> {
    "  "@ + name + " ("@ + decimal(c as nat) + ")"@
}

/// The line of a busy address; `rate` is the error rate in percent, already
/// written out.
pub open spec fn ip_line(ip: Seq<char>, c: u64, errs: u64, rate: Seq<char>) -> Seq<char> {
    if errs > 0 {
        "  "@ + ip + " ("@ + decimal(c as nat) + " reqs, "@ + decimal(errs as nat) + " errors, "@ + rate
            + "% error rate)"@
    } else {
        "  "@ + ip + " ("@ + decimal(c as nat) + " reqs)"@
    }
}

/// `  agent ... (count)`.
pub open spec fn agent_line(ua: Seq<char>, c: u64) -> Seq<char> {
    "  "@ + ua + " ... ("@ + decimal(c as nat) + ")"@
}

/// The label of four-hour block `b`.
pub open spec fn hour_label(b: int) -> Seq<char> {
    if b == 0 {
        "  hours 00-03: "@
    } else if b == 1 {
        "  hours 04-07: "@
    } else if b == 2 {
        "  hours 08-11: "@
    } else if b == 3 {
        "  hours 12-15: "@
    } else if b == 4 {
        "  hours 16-19: "@
    } else {
        "  hours 20-23: "@
    }
}

fn hour_label_str(b: usize) -> (r: &'static str)
    ensures
        r@ == hour_label(b as int),
{
    if b == 0 {
        "  hours 00-03: "
    } else if b == 1 {
        "  hours 04-07: "
    } else if b == 2 {
        "  hours 08-11: "
    } else if b == 3 {
        "  hours 12-15: "
    } else if b == 4 {
        "  hours 16-19: "
    } else {
        "  hours 20-23: "
    }
}

fn count_line_str(name: &str, c: u64) -> (r: String)
    ensures
        r@ == count_line(name@, c),
{
    let s = concat2("  ", name);
    let s = concat2(s.as_str(), " (");
    let s = concat2(s.as_str(), decimal_string(c).as_str());
    concat2(s.as_str(), ")")
}

/// The lines of counted keys.
pub open spec fn count_lines(pairs: Seq<(String, u64)>) -> Seq<Seq<char>> {
    pairs.map_values(|p: (String, u64)| count_line(p.0@, p.1))
}

fn count_lines_str(pairs: &Vec<(String, u64)>) -> (r: Vec<String>)
    ensures
        views(r@) == count_lines(pairs@),
{
    let mut r: Vec<String> = Vec::new();
    let mut i: usize = 0;
    while i < pairs.len()
        invariant
            i <= pairs@.len(),
            r@.len() == i,
            forall|j: int| 0 <= j < i ==> (#[trigger] r@[j])@ == count_line(pairs@[j].0@, pairs@[j].1),
        decreases pairs@.len() - i,
    {
        r.push(count_line_str(pairs[i].0.as_str(), pairs[i].1));
        i += 1;
    }
    assert(views(r@) =~= count_lines(pairs@));
    r
}

/// The summary text handed to the model; `rates[i]` is the error rate of
/// `top_ips[i]` in percent, written without decimals.
pub open spec fn summary_text(s: TrafficSummary, rates: Seq<Seq<char>>) -> Seq<char> {
    let hourly = join_lines(Seq::new(6, |b: int| hour_label(b) + decimal(s.hourly@[b] as nat) + " reqs"@));
    let paths = join_lines(count_lines(s.top_paths@));
    let ips = join_lines(
        Seq::new(s.top_ips@.len(), |i: int| ip_line(s.top_ips@[i].0@, s.top_ips@[i].1, s.top_ips@[i].2, rates[i])),
    );
    let errs = if s.top_error_paths@.len() == 0 { "  (none)"@ } else { join_lines(count_lines(s.top_error_paths@)) };
    let uas = join_lines(s.top_uas@.map_values(|p: (String, u64)| agent_line(p.0@, p.1)));
    "=== 24-HOUR TRAFFIC SUMMARY ===\nTotal requests: "@ + decimal(s.total as nat) + "\nUnique IPs: "@ + decimal(
        s.unique_ips as nat,
    ) + "\n\nStatus breakdown:\n2xx (success):    "@ + decimal(s.s2xx as nat) + "\n3xx (redirect):   "@ + decimal(
        s.s3xx as nat,
    ) + "\n4xx (client err): "@ + decimal(s.s4xx as nat) + "\n5xx (server err): "@ + decimal(s.s5xx as nat)
        + "\n\nRequests by hour (oldest \u{2192} newest):\n"@ + hourly + "\n\nTop paths by volume:\n"@ + paths
        + "\n\nTop IPs by request count (with error rates):\n"@ + ips + "\n\nTop error paths (4xx/5xx):\n"@ + errs
        + "\n\nTop user agents:\n"@ + uas + "\n=== END SUMMARY ==="@
}

/// Writes the summary out.
pub fn render_summary(s: &TrafficSummary, rates: &Vec<String>) -> (r: String)
    requires
        s.hourly@.len() == 6,
        rates@.len() == s.top_ips@.len(),
    ensures
        r@ == summary_text(*s, views(rates@)),
{
    let mut hourly: Vec<String> = Vec::new();
    let mut b: usize = 0;
    while b < 6
        invariant
            b <= 6,
            s.hourly@.len() == 6,
            hourly@.len() == b,
            forall|j: int| 0 <= j < b ==> (#[trigger] hourly@[j])@ == hour_label(j) + decimal(s.hourly@[j] as nat)
                + " reqs"@,
        decreases 6 - b,
    {
        let line = concat2(hour_label_str(b), decimal_string(s.hourly[b]).as_str());
        hourly.push(concat2(line.as_str(), " reqs"));
        b += 1;
    }
    let mut ips: Vec<String> = Vec::new();
    let mut i: usize = 0;
    while i < s.top_ips.len()
        invariant
            i <= s.top_ips@.len(),
            rates@.len() == s.top_ips@.len(),
            ips@.len() == i,
            forall|j: int| 0 <= j < i ==> (#[trigger] ips@[j])@ == ip_line(
                s.top_ips@[j].0@,
                s.top_ips@[j].1,
                s.top_ips@[j].2,
                rates@[j]@,
            ),
        decreases s.top_ips@.len() - i,
    {
        let (ip, c, e) = (&s.top_ips[i].0, s.top_ips[i].1, s.top_ips[i].2);
        let head = concat2("  ", ip.as_str());
        let head = concat2(head.as_str(), " (");
        let head = concat2(head.as_str(), decimal_string(c).as_str());
        let line = if e > 0 {
            let t = concat2(head.as_str(), " reqs, ");
            let t = concat2(t.as_str(), decimal_string(e).as_str());
            let t = concat2(t.as_str(), " errors, ");
            let t = concat2(t.as_str(), rates[i].as_str());
            concat2(t.as_str(), "% error rate)")
        } else {
            concat2(head.as_str(), " reqs)")
        };
        ips.push(line);
        i += 1;
    }
    let mut uas: Vec<String> = Vec::new();
    let mut u: usize = 0;
    while u < s.top_uas.len()
        invariant
            u <= s.top_uas@.len(),
            uas@.len() == u,
            forall|j: int| 0 <= j < u ==> (#[trigger] uas@[j])@ == agent_line(s.top_uas@[j].0@, s.top_uas@[j].1),
        decreases s.top_uas@.len() - u,
    {
        let t = concat2("  ", s.top_uas[u].0.as_str());
        let t = concat2(t.as_str(), " ... (");
        let t = concat2(t.as_str(), decimal_string(s.top_uas[u].1).as_str());
        uas.push(concat2(t.as_str(), ")"));
        u += 1;
    }
    let hourly_text = join_strings(&hourly);
    let paths_text = join_strings(&count_lines_str(&s.top_paths));
    let ips_text = join_strings(&ips);
    let errs_text = if s.top_error_paths.len() == 0 {
        String::from_str("  (none)")
    } else {
        join_strings(&count_lines_str(&s.top_error_paths))
    };
    let uas_text = join_strings(&uas);
    proof {
        assert(views(hourly@) =~= Seq::new(6, |b: int| hour_label(b) + decimal(s.hourly@[b] as nat) + " reqs"@));
        assert(views(ips@) =~= Seq::new(
            s.top_ips@.len(),
            |i: int| ip_line(s.top_ips@[i].0@, s.top_ips@[i].1, s.top_ips@[i].2, views(rates@)[i]),
        ));
        assert(views(uas@) =~= s.top_uas@.map_values(|p: (String, u64)| agent_line(p.0@, p.1)));
    }
    let t = concat2("=== 24-HOUR TRAFFIC SUMMARY ===\nTotal requests: ", decimal_string(s.total).as_str());
    let t = concat2(t.as_str(), "\nUnique IPs: ");
    let t = concat2(t.as_str(), decimal_string(s.unique_ips).as_str());
    let t = concat2(t.as_str(), "\n\nStatus breakdown:\n2xx (success):    ");
    let t = concat2(t.as_str(), decimal_string(s.s2xx).as_str());
    let t = concat2(t.as_str(), "\n3xx (redirect):   ");
    let t = concat2(t.as_str(), decimal_string(s.s3xx).as_str());
    let t = concat2(t.as_str(), "\n4xx (client err): ");
    let t = concat2(t.as_str(), decimal_string(s.s4xx).as_str());
    let t = concat2(t.as_str(), "\n5xx (server err): ");
    let t = concat2(t.as_str(), decimal_string(s.s5xx).as_str());
    let t = concat2(t.as_str(), "\n\nRequests by hour (oldest \u{2192} newest):\n");
    let t = concat2(t.as_str(), hourly_text.as_str());
    let t = concat2(t.as_str(), "\n\nTop paths by volume:\n");
    let t = concat2(t.as_str(), paths_text.as_str());
    let t = concat2(t.as_str(), "\n\nTop IPs by request count (with error rates):\n");
    let t = concat2(t.as_str(), ips_text.as_str());
    let t = concat2(t.as_str(), "\n\nTop error paths (4xx/5xx):\n");
    let t = concat2(t.as_str(), errs_text.as_str());
    let t = concat2(t.as_str(), "\n\nTop user agents:\n");
    let t = concat2(t.as_str(), uas_text.as_str());
    concat2(t.as_str(), "\n=== END SUMMARY ===")
}

/// The template of the prompt: the stored one, else the default.
pub fn prompt_template(stored: Option<String>) -> (r: String)
    ensures
        r@ == (match stored {
            Some(t) => t@,
            None => DEFAULT_PROMPT_TEMPLATE@,
        }),
{
    match stored {
        Some(t) => t,
        None => String::from_str(DEFAULT_PROMPT_TEMPLATE),
    }
}

/// The prompt: the template with every `{summary}` replaced by the summary.
pub fn fill_template(template: &str, summary: &str) -> (r: String)
    ensures
        r@ == replace_all(template@, "{summary}"@, summary@),
{
    let pat = "{summary}";
    proof {
        reveal_strlit("{summary}");
    }
    replace_str(template, pat, summary)
}

/// Body of an administrator's new prompt template.
pub struct UpdatePromptBody {
    pub template: String,
}

/// A stored template must keep the `{summary}` placeholder.
pub fn template_acceptable(template: &str) -> (r: bool)
    ensures
        r == crate::text::contains_seq(template@, "{summary}"@),
{
    crate::text::str_contains(template, "{summary}")
}

/// How `serde_json` writes one character inside a string literal: `"` and
/// `\` behind a backslash, backspace, tab, line feed, form feed and carriage
/// return as `\b \t \n \f \r`, the other control characters below 0x20 as
/// `\u00xx` with lower-case hex digits, every other character as itself.
pub open spec fn json_escape_char(c: char) -> Seq<char> {
    let n = c as int;
    if c == '"' {
        seq!['\\', '"']
    } else if c == '\\' {
        seq!['\\', '\\']
    } else if n == 8 {
        seq!['\\', 'b']
    } else if n == 9 {
        seq!['\\', 't']
    } else if n == 10 {
        seq!['\\', 'n']
    } else if n == 12 {
        seq!['\\', 'f']
    } else if n == 13 {
        seq!['\\', 'r']
    } else if n < 32 {
        seq!['\\', 'u', '0', '0', hex_lower((n / 16) as u8), hex_lower((n % 16) as u8)]
    } else {
        seq![c]
    }
}

/// The characters of `s`, each escaped as in a JSON string literal.
pub open spec fn json_escaped(s: Seq<char>) -> Seq<char>
    decreases s.len(),
{
    if s.len() == 0 {
        Seq::empty()
    } else {
        json_escaped(s.drop_last()) + json_escape_char(s.last())
    }
}

/// The JSON string literal of `s`, as `serde_json` writes it: the escaped
/// characters between double quotes.
pub open spec fn json_string(s: Seq<char>) -> Seq<char> {
    seq!['"'] + json_escaped(s) + seq!['"']
}

/// `serde_json::to_string` of a string: the quoted, escaped JSON literal.
/// Serialising a string cannot fail.
#[verifier::external_body]
fn to_json_string(s: &str) -> (r: String)
    ensures
        r@ == json_string(s@),
{
    serde_json::to_string(s).unwrap_or_default()
}

/// The server-sent event for one line of the model's stream: the end, an
/// error, or a token; nothing for an empty token or a line without either.
pub open spec fn sse_event_spec(done: bool, error: Option<String>, content: Option<String>) -> Seq<char> {
    if done {
        "data: {\"done\":true}\n\n"@
    } else {
        match error {
            Some(e) => "data: {\"error\":"@ + json_string(e@) + "}\n\n"@,
            None => match content {
                Some(c) => if c@.len() > 0 { "data: {\"token\":"@ + json_string(c@) + "}\n\n"@ } else { Seq::empty() },
                None => Seq::empty(),
            },
        }
    }
}

/// The event sent to the browser for one parsed chunk of the model's answer.
pub fn sse_event(done: bool, error: &Option<String>, content: &Option<String>) -> (r: String)
    ensures
        r@ == sse_event_spec(done, *error, *content),
{
    if done {
        return String::from_str("data: {\"done\":true}\n\n");
    }
    match error {
        Some(e) => {
            let t = concat2("data: {\"error\":", to_json_string(e.as_str()).as_str());
            concat2(t.as_str(), "}\n\n")
        },
        None => match content {
            Some(c) => if !c.as_str().is_empty() {
                let t = concat2("data: {\"token\":", to_json_string(c.as_str()).as_str());
                concat2(t.as_str(), "}\n\n")
            } else {
                String::new()
            },
            None => String::new(),
        },
    }
}

} // verus!
