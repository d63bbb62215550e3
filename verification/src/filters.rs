//! Log filters: glob patterns, status filters and the query predicate of the log view.

use vstd::prelude::*;
use crate::text::{
    chars_of, contains_seq, digit_value, eq_ignore_ascii_case, is_digit, lowercase,
    parse_u16_chars, parse_u16_spec, split_chars, split_on, str_contains, str_eq_ignore_ascii_case,
    string_from_chars, to_lowercase, trim, trim_chars, trim_end, trim_start,
};

verus! {

/// `text` matches `pattern`, where `*` stands for any run of characters and every
/// other character stands for itself. Without `*` this is plain equality.
pub open spec fn glob(pattern: Seq<char>, text: Seq<char>) -> bool
    decreases pattern.len() + text.len(),
{
    if pattern.len() == 0 {
        text.len() == 0
    } else if pattern[0] == '*' {
        glob(pattern.drop_first(), text) || (text.len() > 0 && glob(pattern, text.drop_first()))
    } else {
        text.len() > 0 && pattern[0] == text[0] && glob(pattern.drop_first(), text.drop_first())
    }
}

proof fn lemma_glob_step(p: Seq<char>, t: Seq<char>, i: int, j: int)
    requires
        0 <= i < p.len(),
        0 <= j <= t.len(),
    ensures
        glob(p.skip(i), t.skip(j)) == (if p[i] == '*' {
            glob(p.skip(i + 1), t.skip(j)) || (j < t.len() && glob(p.skip(i), t.skip(j + 1)))
        } else {
            j < t.len() && p[i] == t[j] && glob(p.skip(i + 1), t.skip(j + 1))
        }),
{
    assert(p.skip(i).drop_first() == p.skip(i + 1));
    if j < t.len() {
        assert(t.skip(j).drop_first() == t.skip(j + 1));
    }
}

/// Whether `text` matches the glob `pattern` (see [`glob`]).
pub fn glob_match(pattern: &str, text: &str) -> (res: bool)
    ensures
        res == glob(pattern@, text@),
{
    let p = chars_of(pattern);
    let t = chars_of(text);
    let n = t.len();
    // row[j] == glob(p.skip(i), t.skip(j)) for the current i, from i == p.len() down.
    let mut row: Vec<bool> = Vec::new();
    let mut j: usize = 0;
    while j < n
        invariant
            j <= n,
            n == t@.len(),
            row@.len() == j,
            forall|k: int| 0 <= k < j ==> row@[k] == false,
        decreases n - j,
    {
        row.push(false);
        j += 1;
    }
    row.push(true);
    proof {
        assert forall|k: int| 0 <= k <= n implies row@[k] == glob(p@.skip(p@.len() as int), t@.skip(k)) by {
            assert(p@.skip(p@.len() as int).len() == 0);
        }
    }
    let mut i: usize = p.len();
    while i > 0
        invariant
            i <= p@.len(),
            n == t@.len(),
            row@.len() == n + 1,
            forall|k: int| 0 <= k <= n ==> row@[k] == glob(p@.skip(i as int), t@.skip(k)),
        decreases i,
    {
        let pi = p[i - 1];
        let mut next: Vec<bool> = Vec::new();
        // fill positions n down to 0 into a reversed buffer, then reverse
        let mut k: usize = row.len();
        let mut rev: Vec<bool> = Vec::new();
        while k > 0
            invariant
                k <= n + 1,
                n == t@.len(),
                row@.len() == n + 1,
                i >= 1,
                i <= p@.len(),
                pi == p@[i - 1],
                forall|m: int| 0 <= m <= n ==> row@[m] == glob(p@.skip(i as int), t@.skip(m)),
                rev@.len() == n + 1 - k,
                forall|r: int|
                    0 <= r < rev@.len() ==> rev@[r] == glob(
                        p@.skip(i - 1),
                        t@.skip(n - r),
                    ),
            decreases k,
        {
            let jj = k - 1;
            proof {
                lemma_glob_step(p@, t@, i - 1, jj as int);
            }
            let v = if pi == '*' {
                row[jj] || (jj < n && rev[rev.len() - 1])
            } else {
                jj < n && pi == t[jj] && row[jj + 1]
            };
            rev.push(v);
            k -= 1;
        }
        let mut r: usize = rev.len();
        while r > 0
            invariant
                r <= rev@.len(),
                rev@.len() == n + 1,
                next@.len() == n + 1 - r,
                forall|m: int| 0 <= m < next@.len() ==> next@[m] == rev@[n - m],
            decreases r,
        {
            next.push(rev[r - 1]);
            r -= 1;
        }
        row = next;
        i -= 1;
    }
    assert(p@.skip(0) == p@);
    assert(t@.skip(0) == t@);
    row[0]
}

/// One comma-separated piece of a status filter, already trimmed: `Nxx` for a
/// status class, otherwise a status code.
pub open spec fn status_piece_matches(s: Seq<char>, code: u16) -> bool {
    if s.len() == 3 && is_digit(s[0]) && s[1] == 'x' && s[2] == 'x' {
        code / 100 == digit_value(s[0])
    } else {
        parse_u16_spec(s) == Some(code)
    }
}

/// A status filter such as `"4xx"`, `"200"` or `"404, 5xx"` accepts `code`.
pub open spec fn status_filter_matches(filter: Seq<char>, code: u16) -> bool {
    exists|i: int|
        0 <= i < split_on(filter, ',').len() && status_piece_matches(
            trim(#[trigger] split_on(filter, ',')[i]),
            code,
        )
}

fn status_piece_matches_exec(s: &Vec<char>, code: u16) -> (res: bool)
    ensures
        res == status_piece_matches(s@, code),
{
    if s.len() == 3 && '0' <= s[0] && s[0] <= '9' && s[1] == 'x' && s[2] == 'x' {
        let d = (s[0] as u32) - 48;
        return (code / 100) as u32 == d;
    }
    match parse_u16_chars(s) {
        Some(n) => n == code,
        None => false,
    }
}

/// Whether the status filter `filter` accepts the status `code`.
pub fn match_status(filter: &str, code: u16) -> (res: bool)
    ensures
        res == status_filter_matches(filter@, code),
{
    let f = chars_of(filter);
    let pieces = split_chars(&f, ',');
    let mut i: usize = 0;
    while i < pieces.len()
        invariant
            i <= pieces@.len(),
            f@ == filter@,
            pieces@.len() == split_on(f@, ',').len(),
            forall|k: int| 0 <= k < pieces@.len() ==> #[trigger] pieces@[k]@ == split_on(f@, ',')[k],
            forall|k: int|
                0 <= k < i ==> !status_piece_matches(trim(#[trigger] split_on(f@, ',')[k]), code),
        decreases pieces@.len() - i,
    {
        let t = trim_chars(&pieces[i]);
        if status_piece_matches_exec(&t, code) {
            return true;
        }
        i += 1;
    }
    false
}

/// Some trimmed, non-empty piece of the comma-separated `list` satisfies `pred`.
pub open spec fn any_listed(list: Seq<char>, pred: spec_fn(Seq<char>) -> bool) -> bool {
    exists|i: int|
        0 <= i < split_on(list, ',').len() && trim(#[trigger] split_on(list, ',')[i]).len() > 0
            && pred(trim(split_on(list, ',')[i]))
}

/// Leading whitespace is dropped from the front only: what is left is a
/// suffix that starts with a non-blank character, if any.
proof fn lemma_trim_start_shape(s: Seq<char>)
    ensures
        trim_start(s).len() <= s.len(),
        trim_start(s) == s.skip(s.len() - trim_start(s).len()),
        trim_start(s).len() == 0 || !crate::text::is_ws(trim_start(s)[0]),
    decreases s.len(),
{
    if s.len() > 0 && crate::text::is_ws(s[0]) {
        lemma_trim_start_shape(s.drop_first());
        assert(s.drop_first().skip(s.drop_first().len() - trim_start(s).len()) =~= s.skip(
            s.len() - trim_start(s).len(),
        ));
    } else {
        assert(s.skip(0) =~= s);
    }
}

/// Trailing whitespace is dropped from the end only: what is left is a prefix
/// that ends with a non-blank character, if any.
proof fn lemma_trim_end_shape(s: Seq<char>)
    ensures
        trim_end(s).len() <= s.len(),
        trim_end(s) == s.take(trim_end(s).len() as int),
        trim_end(s).len() == 0 || !crate::text::is_ws(trim_end(s).last()),
    decreases s.len(),
{
    if s.len() > 0 && crate::text::is_ws(s.last()) {
        lemma_trim_end_shape(s.drop_last());
        assert(s.drop_last().take(trim_end(s).len() as int) =~= s.take(trim_end(s).len() as int));
    } else {
        assert(s.take(s.len() as int) =~= s);
    }
}

/// Trimming twice is trimming once, and the trimmed text is a run of the
/// original characters.
proof fn lemma_trim_props(x: Seq<char>)
    ensures
        trim(trim(x)) == trim(x),
        forall|j: int| 0 <= j < trim(x).len() ==> exists|k: int| 0 <= k < x.len() && #[trigger] trim(x)[j] == x[k],
{
    let a = trim_start(x);
    let b = trim_end(a);
    lemma_trim_start_shape(x);
    lemma_trim_end_shape(a);
    lemma_trim_start_shape(b);
    lemma_trim_end_shape(b);
    if b.len() > 0 {
        assert(b[0] == a[0]);
        assert(trim_start(b) == b);
    } else {
        assert(trim_start(b) == b);
    }
    assert(trim_end(b) == b);
    let off = x.len() - a.len();
    assert forall|j: int| 0 <= j < trim(x).len() implies exists|k: int| 0 <= k < x.len() && #[trigger] trim(x)[j] == x[k] by {
        assert(b[j] == a[j]);
        assert(a[j] == x[off + j]);
    }
}

/// No piece of a split holds the separator.
proof fn lemma_split_pieces_free(s: Seq<char>, sep: char)
    ensures
        forall|i: int, j: int| 0 <= i < split_on(s, sep).len() && 0 <= j < split_on(s, sep)[i].len() ==> #[trigger] split_on(s, sep)[i][j] != sep,
    decreases s.len(),
{
    if s.len() > 0 {
        lemma_split_pieces_free(s.drop_last(), sep);
        crate::text::lemma_split_on_nonempty(s.drop_last(), sep);
        let p = split_on(s.drop_last(), sep);
        if s.last() != sep {
            let q = p.update(p.len() - 1, p.last().push(s.last()));
            assert forall|i: int, j: int| 0 <= i < q.len() && 0 <= j < q[i].len() implies #[trigger] q[i][j] != sep by {
                if i == p.len() - 1 && j == p.last().len() {
                } else if i == p.len() - 1 {
                    assert(q[i][j] == p[i][j]);
                } else {
                    assert(q[i] == p[i]);
                }
            }
        } else {
            let q = p.push(Seq::<char>::empty());
            assert forall|i: int, j: int| 0 <= i < q.len() && 0 <= j < q[i].len() implies #[trigger] q[i][j] != sep by {
                assert(i < p.len());
                assert(q[i] == p[i]);
            }
        }
    }
}

/// A text without the separator splits into itself alone.
proof fn lemma_split_without_sep(x: Seq<char>, sep: char)
    requires
        forall|j: int| 0 <= j < x.len() ==> #[trigger] x[j] != sep,
    ensures
        split_on(x, sep) == seq![x],
    decreases x.len(),
{
    if x.len() > 0 {
        lemma_split_without_sep(x.drop_last(), sep);
        assert(x[x.len() - 1] != sep);
        assert(x.drop_last().push(x.last()) =~= x);
        assert(seq![x.drop_last()].update(0, x.drop_last().push(x.last())) =~= seq![x]);
    } else {
        assert(x =~= Seq::<char>::empty());
    }
}

/// A listed piece of a status filter matches exactly when the piece, read as
/// a filter of its own, matches.
proof fn lemma_piece_as_filter(f: Seq<char>, i: int, code: u16)
    requires
        0 <= i < split_on(f, ',').len(),
    ensures
        status_filter_matches(trim(split_on(f, ',')[i]), code) == status_piece_matches(trim(split_on(f, ',')[i]), code),
{
    let piece = split_on(f, ',')[i];
    let p = trim(piece);
    lemma_split_pieces_free(f, ',');
    lemma_trim_props(piece);
    assert forall|j: int| 0 <= j < p.len() implies #[trigger] p[j] != ',' by {
        let k = choose|k: int| 0 <= k < piece.len() && p[j] == piece[k];
        assert(split_on(f, ',')[i][k] != ',');
    }
    lemma_split_without_sep(p, ',');
    assert(split_on(p, ',')[0] == p);
    if status_piece_matches(trim(p), code) {
        assert(status_filter_matches(p, code));
    }
}

/// The negated status filter excludes exactly the statuses that the plain
/// filter with the same text accepts: some trimmed, non-empty piece of the
/// list matches `code` if and only if the whole list does.
pub proof fn law_not_status_negates(filter: Seq<char>, code: u16)
    ensures
        any_listed(filter, |v: Seq<char>| status_filter_matches(v, code)) == status_filter_matches(filter, code),
{
    let pieces = split_on(filter, ',');
    if status_filter_matches(filter, code) {
        let i = choose|i: int| 0 <= i < pieces.len() && status_piece_matches(trim(#[trigger] pieces[i]), code);
        lemma_piece_as_filter(filter, i, code);
        assert(trim(pieces[i]).len() > 0) by {
            if trim(pieces[i]).len() == 0 {
                assert(parse_u16_spec(trim(pieces[i])) is None);
            }
        }
        let pred = |v: Seq<char>| status_filter_matches(v, code);
        assert(pred(trim(pieces[i])));
    }
    if any_listed(filter, |v: Seq<char>| status_filter_matches(v, code)) {
        let i = choose|i: int| 0 <= i < pieces.len() && trim(#[trigger] pieces[i]).len() > 0
            && status_filter_matches(trim(pieces[i]), code);
        lemma_piece_as_filter(filter, i, code);
        lemma_trim_props(pieces[i]);
        assert(status_piece_matches(trim(pieces[i]), code));
    }
}

/// The fields of a log entry that the log filters look at.
pub struct EntryFields {
    pub status: u16,
    pub host: String,
    pub method: String,
    pub client_ip: String,
    pub remote_ip: String,
    pub uri: String,
    /// First `User-Agent` request header value, if any.
    pub user_agent: Option<String>,
    pub size: u64,
}

/// The filter parameters of the log view. The duration bound compares
/// floating-point seconds and is applied by the caller; `has_duration_limit`
/// records whether it is set.
pub struct LogQuery {
    pub status: Option<String>,
    pub host: Option<String>,
    pub method: Option<String>,
    pub ip: Option<String>,
    pub path: Option<String>,
    pub ua: Option<String>,
    pub has_duration_limit: bool,
    pub size_gt: Option<u64>,
    pub size_lt: Option<u64>,
    pub text: Option<String>,
    pub not_status: Option<String>,
    pub not_host: Option<String>,
    pub not_method: Option<String>,
    pub not_ip: Option<String>,
    pub not_path: Option<String>,
}

/// The entry passes every filter of the query (all but the duration bound).
pub open spec fn entry_matches_spec(e: &EntryFields, q: &LogQuery) -> bool {
    &&& (q.status matches Some(f) ==> status_filter_matches(f@, e.status))
    &&& (q.host matches Some(h) ==> glob(h@, e.host@))
    &&& (q.method matches Some(m) ==> eq_ignore_ascii_case(e.method@, m@))
    &&& (q.ip matches Some(ip) ==> contains_seq(e.client_ip@, ip@) || contains_seq(
        e.remote_ip@,
        ip@,
    ))
    &&& (q.path matches Some(p) ==> glob(p@, e.uri@))
    &&& (q.ua matches Some(ua) ==> (e.user_agent matches Some(v) && contains_seq(
        lowercase(v@),
        lowercase(ua@),
    )))
    &&& (q.size_gt matches Some(g) ==> e.size > g)
    &&& (q.size_lt matches Some(l) ==> e.size < l)
    &&& (q.text matches Some(t) ==> contains_seq(lowercase(e.uri@), lowercase(t@)) || contains_seq(
        lowercase(e.host@),
        lowercase(t@),
    ) || contains_seq(e.client_ip@, lowercase(t@)))
    &&& (q.not_status matches Some(s) ==> !any_listed(
        s@,
        |v: Seq<char>| status_filter_matches(v, e.status),
    ))
    &&& (q.not_host matches Some(h) ==> !any_listed(h@, |v: Seq<char>| contains_seq(e.host@, v)))
    &&& (q.not_method matches Some(m) ==> !any_listed(
        m@,
        |v: Seq<char>| eq_ignore_ascii_case(e.method@, v),
    ))
    &&& (q.not_ip matches Some(ip) ==> !any_listed(
        ip@,
        |v: Seq<char>| contains_seq(e.client_ip@, v) || contains_seq(e.remote_ip@, v),
    ))
    &&& (q.not_path matches Some(p) ==> !any_listed(p@, |v: Seq<char>| glob(v, e.uri@)))
}

/// A query that sets one filter text and nothing else.
pub open spec fn only_field_set(q: &LogQuery) -> bool {
    &&& q.host is None && q.method is None && q.ip is None && q.path is None && q.ua is None
    &&& !q.has_duration_limit && q.size_gt is None && q.size_lt is None && q.text is None
    &&& q.not_host is None && q.not_method is None && q.not_ip is None && q.not_path is None
}

/// The negated status filter keeps exactly the entries that the plain status
/// filter with the same text drops.
pub proof fn law_negated_status_filter(e: &EntryFields, plain: &LogQuery, negated: &LogQuery)
    requires
        only_field_set(plain),
        only_field_set(negated),
        plain.not_status is None,
        negated.status is None,
        plain.status is Some,
        negated.not_status is Some,
        plain.status.unwrap()@ == negated.not_status.unwrap()@,
    ensures
        entry_matches_spec(e, negated) == !entry_matches_spec(e, plain),
{
    law_not_status_negates(plain.status.unwrap()@, e.status);
}

/// Which exclusion list is being checked.
#[derive(Clone, Copy, PartialEq, Eq, Structural)]
enum Exclusion {
    Status,
    Host,
    Method,
    Ip,
    Path,
}

spec fn exclusion_pred(kind: Exclusion, e: &EntryFields) -> spec_fn(Seq<char>) -> bool {
    match kind {
        Exclusion::Status => |v: Seq<char>| status_filter_matches(v, e.status),
        Exclusion::Host => |v: Seq<char>| contains_seq(e.host@, v),
        Exclusion::Method => |v: Seq<char>| eq_ignore_ascii_case(e.method@, v),
        Exclusion::Ip => |v: Seq<char>| contains_seq(e.client_ip@, v) || contains_seq(
            e.remote_ip@,
            v,
        ),
        Exclusion::Path => |v: Seq<char>| glob(v, e.uri@),
    }
}

fn exclusion_hit(kind: Exclusion, e: &EntryFields, value: &Vec<char>) -> (res: bool)
    ensures
        res == exclusion_pred(kind, e)(value@),
{
    let v = string_from_chars(value);
    match kind {
        Exclusion::Status => match_status(v.as_str(), e.status),
        Exclusion::Host => str_contains(e.host.as_str(), v.as_str()),
        Exclusion::Method => str_eq_ignore_ascii_case(e.method.as_str(), v.as_str()),
        Exclusion::Ip => str_contains(e.client_ip.as_str(), v.as_str()) || str_contains(
            e.remote_ip.as_str(),
            v.as_str(),
        ),
        Exclusion::Path => glob_match(v.as_str(), e.uri.as_str()),
    }
}

fn listed_hit(list: &str, kind: Exclusion, e: &EntryFields) -> (res: bool)
    ensures
        res == any_listed(list@, exclusion_pred(kind, e)),
{
    let f = chars_of(list);
    let pieces = split_chars(&f, ',');
    let ghost pred = exclusion_pred(kind, e);
    let mut i: usize = 0;
    while i < pieces.len()
        invariant
            i <= pieces@.len(),
            f@ == list@,
            pred == exclusion_pred(kind, e),
            pieces@.len() == split_on(f@, ',').len(),
            forall|k: int| 0 <= k < pieces@.len() ==> #[trigger] pieces@[k]@ == split_on(f@, ',')[k],
            forall|k: int|
                0 <= k < i ==> !(trim(#[trigger] split_on(f@, ',')[k]).len() > 0 && pred(
                    trim(split_on(f@, ',')[k]),
                )),
        decreases pieces@.len() - i,
    {
        let t = trim_chars(&pieces[i]);
        if t.len() > 0 && exclusion_hit(kind, e, &t) {
            return true;
        }
        i += 1;
    }
    false
}

/// Whether a log entry passes the query's filters (the duration bound aside).
pub fn entry_matches(e: &EntryFields, q: &LogQuery) -> (res: bool)
    ensures
        res == entry_matches_spec(e, q),
{
    if let Some(f) = &q.status {
        if !match_status(f.as_str(), e.status) {
            return false;
        }
    }
    if let Some(h) = &q.host {
        if !glob_match(h.as_str(), e.host.as_str()) {
            return false;
        }
    }
    if let Some(m) = &q.method {
        if !str_eq_ignore_ascii_case(e.method.as_str(), m.as_str()) {
            return false;
        }
    }
    if let Some(ip) = &q.ip {
        if !str_contains(e.client_ip.as_str(), ip.as_str()) && !str_contains(
            e.remote_ip.as_str(),
            ip.as_str(),
        ) {
            return false;
        }
    }
    if let Some(p) = &q.path {
        if !glob_match(p.as_str(), e.uri.as_str()) {
            return false;
        }
    }
    if let Some(ua) = &q.ua {
        let ua_lower = to_lowercase(ua.as_str());
        let hit = match &e.user_agent {
            Some(v) => {
                let v_lower = to_lowercase(v.as_str());
                str_contains(v_lower.as_str(), ua_lower.as_str())
            },
            None => false,
        };
        if !hit {
            return false;
        }
    }
    if let Some(g) = q.size_gt {
        if e.size <= g {
            return false;
        }
    }
    if let Some(l) = q.size_lt {
        if e.size >= l {
            return false;
        }
    }
    if let Some(t) = &q.text {
        let t_lower = to_lowercase(t.as_str());
        let uri_lower = to_lowercase(e.uri.as_str());
        let host_lower = to_lowercase(e.host.as_str());
        if !str_contains(uri_lower.as_str(), t_lower.as_str()) && !str_contains(
            host_lower.as_str(),
            t_lower.as_str(),
        ) && !str_contains(e.client_ip.as_str(), t_lower.as_str()) {
            return false;
        }
    }
    if let Some(s) = &q.not_status {
        if listed_hit(s.as_str(), Exclusion::Status, e) {
            return false;
        }
    }
    if let Some(h) = &q.not_host {
        if listed_hit(h.as_str(), Exclusion::Host, e) {
            return false;
        }
    }
    if let Some(m) = &q.not_method {
        if listed_hit(m.as_str(), Exclusion::Method, e) {
            return false;
        }
    }
    if let Some(ip) = &q.not_ip {
        if listed_hit(ip.as_str(), Exclusion::Ip, e) {
            return false;
        }
    }
    if let Some(p) = &q.not_path {
        if listed_hit(p.as_str(), Exclusion::Path, e) {
            return false;
        }
    }
    true
}

} // verus!
