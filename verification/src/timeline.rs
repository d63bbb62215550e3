//! The traffic timeline: which buckets it shows and what each one counts.

use vstd::prelude::*;
use crate::table::Counts;
use crate::text::str_eq;

verus! {

/// Bucket and window lengths (seconds) for the requested bucket name:
/// `minute` shows an hour, `hour` (the default) a day, `day` thirty days;
/// `None` for any other name.
pub fn bucket_choice(bucket: &Option<String>) -> (r: Option<(u64, u64)>)
    ensures
        r == (match bucket {
            None => Some((3600u64, 86400u64)),
            Some(b) => if b@ == "minute"@ {
                Some((60u64, 3600u64))
            } else if b@ == "hour"@ {
                Some((3600u64, 86400u64))
            } else if b@ == "day"@ {
                Some((86400u64, 2592000u64))
            } else {
                None
            },
        }),
{
    match bucket {
        None => Some((3600, 86400)),
        Some(b) => {
            let s = b.as_str();
            if str_eq(s, "minute") {
                Some((60, 3600))
            } else if str_eq(s, "hour") {
                Some((3600, 86400))
            } else if str_eq(s, "day") {
                Some((86400, 2592000))
            } else {
                None
            }
        },
    }
}

/// The start of the window: `window` seconds before `now`, not below zero.
pub open spec fn cutoff_of(now: u64, window: u64) -> u64 {
    if now >= window { (now - window) as u64 } else { 0 }
}

proof fn lemma_bucket_order(a: u64, b: u64, bs: u64)
    requires
        bs > 0,
        a <= b,
    ensures
        crate::analytics::bucket_of(a, bs) <= crate::analytics::bucket_of(b, bs),
        (crate::analytics::bucket_of(b, bs) - crate::analytics::bucket_of(a, bs)) % (bs as int) == 0,
{
    let qa = a / bs;
    let qb = b / bs;
    assert(qa * bs <= a && qb * bs <= b) by (nonlinear_arith)
        requires
            qa == a / bs,
            qb == b / bs,
            bs > 0,
    {
        vstd::arithmetic::div_mod::lemma_fundamental_div_mod(a as int, bs as int);
        vstd::arithmetic::div_mod::lemma_fundamental_div_mod(b as int, bs as int);
    }
    assert(qa <= qb) by {
        vstd::arithmetic::div_mod::lemma_div_is_ordered(a as int, b as int, bs as int);
    }
    assert(qa * bs <= qb * bs) by (nonlinear_arith)
        requires
            qa <= qb,
            bs > 0,
    {
    }
    assert((qb * bs - qa * bs) % (bs as int) == 0) by (nonlinear_arith)
        requires
            bs > 0,
            qa <= qb,
    {
        assert(qb * bs - qa * bs == (qb - qa) * bs);
        vstd::arithmetic::div_mod::lemma_mod_multiples_basic((qb - qa) as int, bs as int);
    }
}

/// The bucket starts the timeline shows: from the bucket holding the cutoff
/// to the bucket holding `now`, every `bucket_secs` seconds.
pub fn timeline_buckets(bucket_secs: u64, window_secs: u64, now: u64) -> (r: Vec<u64>)
    requires
        bucket_secs > 0,
        crate::analytics::bucket_of(now, bucket_secs) + bucket_secs <= u64::MAX,
    ensures
        ({
            let first = crate::analytics::bucket_of(cutoff_of(now, window_secs), bucket_secs);
            let last = crate::analytics::bucket_of(now, bucket_secs);
            &&& first <= last
            &&& r@.len() == (last - first) / (bucket_secs as int) + 1
            &&& forall|i: int| 0 <= i < r@.len() ==> #[trigger] r@[i] == first + i * bucket_secs
        }),
{
    let cutoff = now.saturating_sub(window_secs);
    let start = crate::analytics::bucket_start_secs(cutoff, bucket_secs);
    let end = crate::analytics::bucket_start_secs(now, bucket_secs);
    proof {
        lemma_bucket_order(cutoff, now, bucket_secs);
    }
    let mut r: Vec<u64> = Vec::new();
    let mut ts = start;
    assert(r@.len() * bucket_secs == 0) by (nonlinear_arith)
        requires
            r@.len() == 0,
    {
    }
    while ts <= end
        invariant
            bucket_secs > 0,
            start <= end,
            end + bucket_secs <= u64::MAX,
            (end - start) % (bucket_secs as int) == 0,
            ts == start + r@.len() * bucket_secs,
            ts <= end + bucket_secs,
            forall|i: int| 0 <= i < r@.len() ==> #[trigger] r@[i] == start + i * bucket_secs,
        decreases end + bucket_secs - ts,
    {
        r.push(ts);
        proof {
            assert(ts + bucket_secs == start + r@.len() * bucket_secs) by (nonlinear_arith)
                requires
                    ts == start + (r@.len() - 1) * bucket_secs,
            {
            }
            assert(ts + bucket_secs <= end + bucket_secs) by {
                if ts + bucket_secs > end + bucket_secs {
                    assert(false);
                }
            }
        }
        ts = ts + bucket_secs;
    }
    proof {
        let n = r@.len() as int;
        let m = (end - start) / (bucket_secs as int);
        assert(n == m + 1) by (nonlinear_arith)
            requires
                start + n * bucket_secs > end,
                start + n * bucket_secs <= end + bucket_secs,
                (end - start) % (bucket_secs as int) == 0,
                m == (end - start) / (bucket_secs as int),
                bucket_secs > 0,
                start <= end,
        {
            vstd::arithmetic::div_mod::lemma_fundamental_div_mod((end - start) as int, bucket_secs as int);
            assert(end - start == m * bucket_secs);
            assert(m * bucket_secs < n * bucket_secs);
            assert(n * bucket_secs <= (m + 1) * bucket_secs);
            if n <= m {
                vstd::arithmetic::mul::lemma_mul_inequality(n, m, bucket_secs as int);
            }
            if n > m + 1 {
                vstd::arithmetic::mul::lemma_mul_inequality(m + 2, n, bucket_secs as int);
            }
        }
    }
    r
}

/// The part of bucket `[bucket, bucket + bucket_secs)` inside the window
/// `[cutoff, now)`, or `None` when they do not overlap.
pub fn bucket_window(bucket: u64, bucket_secs: u64, cutoff: u64, now: u64) -> (r: Option<(u64, u64)>)
    requires
        bucket + bucket_secs <= u64::MAX,
    ensures
        ({
            let start = if bucket >= cutoff { bucket } else { cutoff };
            let end = if bucket + bucket_secs <= now { (bucket + bucket_secs) as u64 } else { now };
            &&& start >= end ==> r is None
            &&& start < end ==> r == Some((start, end))
        }),
{
    let start = if bucket >= cutoff { bucket } else { cutoff };
    let end = if bucket + bucket_secs <= now { bucket + bucket_secs } else { now };
    if start >= end {
        None
    } else {
        Some((start, end))
    }
}

/// The sum of the counts of the statuses in `lo..=hi`.
pub open spec fn count_in_range(pairs: Seq<(u16, u64)>, lo: u16, hi: u16) -> nat
    decreases pairs.len(),
{
    if pairs.len() == 0 {
        0
    } else {
        count_in_range(pairs.drop_last(), lo, hi) + if lo <= pairs.last().0 <= hi { pairs.last().1 as nat } else { 0nat }
    }
}

/// Requests of a bucket whose status lies in `lo..=hi` (`status_count`);
/// `None` when the sum does not fit in a `u64`.
pub fn status_count(codes: &Counts<u16>, lo: u16, hi: u16) -> (r: Option<u64>)
    requires
        codes.wf(),
    ensures
        r is Some <==> count_in_range(codes.pairs(), lo, hi) <= u64::MAX,
        r matches Some(n) ==> n == count_in_range(codes.pairs(), lo, hi),
{
    let v = codes.as_vec();
    let mut sum: u64 = 0;
    let mut i: usize = 0;
    while i < v.len()
        invariant
            i <= v@.len(),
            v@.len() == codes.pairs().len(),
            forall|j: int| #![trigger v@[j]] 0 <= j < v@.len() ==> (v@[j].0@, v@[j].1) == codes.pairs()[j],
            sum == count_in_range(codes.pairs().take(i as int), lo, hi),
        decreases v@.len() - i,
    {
        proof {
            assert(codes.pairs().take(i + 1).drop_last() =~= codes.pairs().take(i as int));
        }
        let (code, n) = v[i];
        if lo <= code && code <= hi {
            if n > u64::MAX - sum {
                proof {
                    lemma_count_in_range_mono(codes.pairs(), i + 1, lo, hi);
                }
                return None;
            }
            sum = sum + n;
        }
        i += 1;
    }
    proof {
        assert(codes.pairs().take(v@.len() as int) =~= codes.pairs());
    }
    Some(sum)
}

proof fn lemma_count_in_range_mono(s: Seq<(u16, u64)>, n: int, lo: u16, hi: u16)
    requires
        0 <= n <= s.len(),
    ensures
        count_in_range(s.take(n), lo, hi) <= count_in_range(s, lo, hi),
    decreases s.len(),
{
    if n < s.len() {
        lemma_count_in_range_mono(s.drop_last(), n, lo, hi);
        assert(s.drop_last().take(n) =~= s.take(n));
    } else {
        assert(s.take(n) =~= s);
    }
}

} // verus!
