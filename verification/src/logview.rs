//! Parameters of the log listing and export: which index to scan, how a page is
//! addressed, and how CSV fields are quoted.

use vstd::prelude::*;
use crate::filters::LogQuery;
use crate::text::{chars_of, parse_u16_chars, parse_u16_spec, string_from_chars, to_ascii_uppercase, upper_ascii_seq};

verus! {

/// Which stored sequence of rows a log scan walks.
#[derive(Clone, Debug)]
pub enum LogScan {
    /// Every row, newest first.
    All,
    /// Only rows with this status code.
    Status(u16),
    /// Only rows with this (upper-cased) method.
    Method(String),
}

/// Whether any filter of the query is set.
pub open spec fn has_filters_spec(q: &LogQuery) -> bool {
    q.status is Some || q.host is Some || q.method is Some || q.ip is Some || q.path is Some
        || q.ua is Some || q.has_duration_limit || q.size_gt is Some || q.size_lt is Some
        || q.text is Some || q.not_status is Some || q.not_host is Some || q.not_method is Some
        || q.not_ip is Some || q.not_path is Some
}

/// Whether any filter is set; the total row count is reported only without filters.
pub fn has_filters(q: &LogQuery) -> (res: bool)
    ensures
        res == has_filters_spec(q),
{
    q.status.is_some() || q.host.is_some() || q.method.is_some() || q.ip.is_some()
        || q.path.is_some() || q.ua.is_some() || q.has_duration_limit || q.size_gt.is_some()
        || q.size_lt.is_some() || q.text.is_some() || q.not_status.is_some()
        || q.not_host.is_some() || q.not_method.is_some() || q.not_ip.is_some()
        || q.not_path.is_some()
}

/// The index to scan: a status filter that is one plain status code selects the
/// status index, otherwise a method filter selects the method index, otherwise all rows.
pub fn scan_source(q: &LogQuery) -> (res: LogScan)
    ensures
        match res {
            LogScan::Status(code) => q.status matches Some(s) && parse_u16_spec(s@) == Some(code),
            LogScan::Method(m) => {
                &&& (q.status matches Some(s) ==> parse_u16_spec(s@) is None)
                &&& (q.method matches Some(qm) && m@ == upper_ascii_seq(qm@))
            },
            LogScan::All => (q.status matches Some(s) ==> parse_u16_spec(s@) is None)
                && q.method is None,
        },
{
    if let Some(s) = &q.status {
        let v = chars_of(s.as_str());
        if let Some(code) = parse_u16_chars(&v) {
            return LogScan::Status(code);
        }
    }
    if let Some(m) = &q.method {
        LogScan::Method(to_ascii_uppercase(m.as_str()))
    } else {
        LogScan::All
    }
}

/// How one page of the listing is addressed.
pub struct PageRequest {
    pub limit: usize,
    pub skip: usize,
    pub include_total: bool,
}

/// Default page size, and its bounds.
pub const DEFAULT_LIMIT: usize = 50;
pub const MAX_LIMIT: usize = 500;

/// Page size and leading skip: the limit defaults to 50 and is clamped to
/// 1..=500; a page number counts only when no cursor is given, and the skip
/// saturates at `usize::MAX`.
pub fn page_request(
    limit: Option<usize>,
    page: Option<usize>,
    cursor: Option<u64>,
    filtered: bool,
) -> (res: PageRequest)
    ensures
        ({
            let l = match limit {
                Some(x) => x,
                None => 50,
            };
            res.limit == (if l < 1 {
                1
            } else if l > 500 {
                500
            } else {
                l
            })
        }),
        res.skip == (if cursor is Some {
            0
        } else {
            let p = match page {
                Some(x) => x as int,
                None => 0,
            };
            if p * res.limit > usize::MAX {
                usize::MAX as int
            } else {
                p * res.limit
            }
        }),
        res.include_total == !filtered,
{
    let l = match limit {
        Some(x) => x,
        None => DEFAULT_LIMIT,
    };
    let l = if l < 1 {
        1
    } else if l > MAX_LIMIT {
        MAX_LIMIT
    } else {
        l
    };
    let p = match page {
        Some(x) => x,
        None => 0,
    };
    let skip = if cursor.is_none() {
        match p.checked_mul(l) {
            Some(x) => x,
            None => usize::MAX,
        }
    } else {
        0
    };
    PageRequest { limit: l, skip, include_total: !filtered }
}

/// `s` with every `"` doubled.
pub open spec fn double_quotes(s: Seq<char>) -> Seq<char>
    decreases s.len(),
{
    if s.len() == 0 {
        Seq::empty()
    } else if s.last() == '"' {
        double_quotes(s.drop_last()) + seq!['"', '"']
    } else {
        double_quotes(s.drop_last()).push(s.last())
    }
}

/// Reading the inside of a quoted CSV field from the front: `""` stands for
/// one `"`, every other character for itself.
pub open spec fn undouble_quotes(t: Seq<char>) -> Seq<char>
    decreases t.len(),
{
    if t.len() == 0 {
        Seq::empty()
    } else if t.len() >= 2 && t[0] == '"' && t[1] == '"' {
        seq!['"'] + undouble_quotes(t.skip(2))
    } else {
        seq![t[0]] + undouble_quotes(t.drop_first())
    }
}

/// Reading one CSV field back (RFC 4180): a field between double quotes is
/// its inside with `""` read as `"`; any other field is its text.
pub open spec fn csv_read_field(f: Seq<char>) -> Seq<char> {
    if f.len() >= 2 && f[0] == '"' && f.last() == '"' {
        undouble_quotes(f.subrange(1, f.len() - 1))
    } else {
        f
    }
}

proof fn lemma_double_quotes_concat(a: Seq<char>, b: Seq<char>)
    ensures
        double_quotes(a + b) == double_quotes(a) + double_quotes(b),
    decreases b.len(),
{
    if b.len() == 0 {
        assert(a + b =~= a);
        assert(double_quotes(a) + double_quotes(b) =~= double_quotes(a));
    } else {
        lemma_double_quotes_concat(a, b.drop_last());
        assert((a + b).drop_last() =~= a + b.drop_last());
        assert((a + b).last() == b.last());
        if b.last() == '"' {
            assert(double_quotes(a) + double_quotes(b.drop_last()) + seq!['"', '"'] =~= double_quotes(a) + (
            double_quotes(b.drop_last()) + seq!['"', '"']));
        } else {
            assert((double_quotes(a) + double_quotes(b.drop_last())).push(b.last()) =~= double_quotes(a) + double_quotes(
                b.drop_last(),
            ).push(b.last()));
        }
    }
}

proof fn lemma_undouble_double(s: Seq<char>)
    ensures
        undouble_quotes(double_quotes(s)) == s,
    decreases s.len(),
{
    if s.len() > 0 {
        let head = seq![s[0]];
        let rest = s.drop_first();
        assert(s =~= head + rest);
        lemma_double_quotes_concat(head, rest);
        lemma_undouble_double(rest);
        assert(head.drop_last() =~= Seq::<char>::empty());
        assert(double_quotes(head.drop_last()) =~= Seq::<char>::empty());
        assert(head.last() == s[0]);
        let d = double_quotes(s);
        if s[0] == '"' {
            assert(double_quotes(head) =~= seq!['"', '"']);
            assert(d.skip(2) =~= double_quotes(rest));
        } else {
            assert(double_quotes(head) =~= seq![s[0]]);
            assert(d.drop_first() =~= double_quotes(rest));
        }
        assert(seq![s[0]] + rest =~= s);
    }
}

/// Reading a written CSV field back gives the text that was written.
pub proof fn law_csv_field_round_trip(s: Seq<char>)
    ensures
        csv_read_field(csv_field_spec(s)) == s,
{
    if s.contains(',') || s.contains('"') || s.contains('\n') {
        let f = seq!['"'] + double_quotes(s) + seq!['"'];
        assert(f.subrange(1, f.len() - 1) =~= double_quotes(s));
        lemma_undouble_double(s);
    } else if s.len() >= 2 && s[0] == '"' {
        assert(s.contains('"'));
    }
}

/// A CSV field: quoted, with inner quotes doubled, when it holds a comma, a quote
/// or a newline; as it is otherwise.
pub open spec fn csv_field_spec(s: Seq<char>) -> Seq<char> {
    if s.contains(',') || s.contains('"') || s.contains('\n') {
        seq!['"'] + double_quotes(s) + seq!['"']
    } else {
        s
    }
}

/// Quotes one CSV field.
pub fn csv_field(s: &str) -> (res: String)
    ensures
        res@ == csv_field_spec(s@),
{
    let v = chars_of(s);
    let mut special = false;
    let mut quoted: Vec<char> = Vec::new();
    quoted.push('"');
    let mut i: usize = 0;
    while i < v.len()
        invariant
            i <= v.len(),
            special == (v@.take(i as int).contains(',') || v@.take(i as int).contains('"')
                || v@.take(i as int).contains('\n')),
            quoted@ == seq!['"'] + double_quotes(v@.take(i as int)),
        decreases v.len() - i,
    {
        let c = v[i];
        proof {
            let t = v@.take(i + 1);
            assert(t.drop_last() == v@.take(i as int));
            assert(t.last() == c);
            assert(t.contains(',') == (v@.take(i as int).contains(',') || c == ','));
            assert(t.contains('"') == (v@.take(i as int).contains('"') || c == '"'));
            assert(t.contains('\n') == (v@.take(i as int).contains('\n') || c == '\n'));
        }
        if c == ',' || c == '"' || c == '\n' {
            special = true;
        }
        quoted.push(c);
        if c == '"' {
            quoted.push('"');
        }
        i += 1;
    }
    assert(v@.take(v.len() as int) == v@);
    if special {
        quoted.push('"');
        string_from_chars(&quoted)
    } else {
        string_from_chars(&v)
    }
}

} // verus!
