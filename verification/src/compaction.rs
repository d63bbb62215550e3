//! Decisions of rollup compaction and retention: which coarser buckets to
//! rebuild, how the compaction markers move, which buckets survive a purge,
//! and the generation number that tells readers the data changed.

use vstd::prelude::*;
use crate::analytics::{bucket_of, bucket_start_secs, combine_range, fine_parts, finished_from, keyed_views, Rollup};
use crate::rollup_view::merge_all;
use crate::sortset::{sorted_unique, strictly_increasing};

verus! {

broadcast use vstd::seq_lib::lemma_seq_contains_after_push;

/// The coarse buckets (of `bucket_secs` seconds) to rebuild: those that hold a
/// touched key and lie before `current`, and those that hold a stored finer key
/// in `[marker, current)`.
pub open spec fn rebuild_set(touched: Seq<u64>, finer: Seq<u64>, current: u64, marker: u64, bucket_secs: u64) -> Set<u64> {
    Set::new(
        |b: u64|
            (exists|i: int| 0 <= i < touched.len() && bucket_of(touched[i], bucket_secs) == b && b < current)
                || (exists|i: int|
                0 <= i < finer.len() && marker <= finer[i] < current && bucket_of(finer[i], bucket_secs) == b),
    )
}

/// The buckets that compaction rebuilds, in increasing order without repeats.
/// `touched` are the keys written since the last pass (hours for the hour
/// level, the rebuilt hours for the day level), `finer` the stored keys of the
/// finer level that the caller read from `[marker, current)`.
pub fn buckets_to_rebuild(
    touched: &Vec<u64>,
    finer: &Vec<u64>,
    current: u64,
    marker: u64,
    bucket_secs: u64,
) -> (res: Vec<u64>)
    requires
        bucket_secs > 0,
    ensures
        strictly_increasing(res@),
        res@.to_set() == rebuild_set(touched@, finer@, current, marker, bucket_secs),
{
    let mut acc: Vec<u64> = Vec::new();
    let mut i: usize = 0;
    while i < touched.len()
        invariant
            i <= touched@.len(),
            bucket_secs > 0,
            forall|b: u64|
                acc@.contains(b) <==> exists|j: int|
                    0 <= j < i && bucket_of(touched@[j], bucket_secs) == b && b < current,
        decreases touched@.len() - i,
    {
        let b = bucket_start_secs(touched[i], bucket_secs);
        let ghost before = acc@;
        if b < current {
            acc.push(b);
        }
        assert(b < current ==> acc@ == before.push(b));
        assert(b >= current ==> acc@ == before);
        proof {
            assert forall|c: u64|
                acc@.contains(c) <==> exists|j: int|
                    0 <= j < i + 1 && bucket_of(touched@[j], bucket_secs) == c && c < current by {
                if acc@.contains(c) && !before.contains(c) {
                    assert(bucket_of(touched@[i as int], bucket_secs) == c);
                }
                if before.contains(c) {
                    let j = choose|j: int| 0 <= j < i && bucket_of(touched@[j], bucket_secs) == c && c < current;
                    assert(0 <= j < i + 1);
                }
                if exists|j: int| 0 <= j < i + 1 && bucket_of(touched@[j], bucket_secs) == c && c < current {
                    let j = choose|j: int| 0 <= j < i + 1 && bucket_of(touched@[j], bucket_secs) == c && c < current;
                    if j == i {
                        assert(acc@.last() == c);
                    } else {
                        assert(before.contains(c));
                    }
                }
            }
        }
        i += 1;
    }
    let ghost from_touched = acc@;
    let mut k: usize = 0;
    while k < finer.len()
        invariant
            k <= finer@.len(),
            bucket_secs > 0,
            forall|b: u64|
                acc@.contains(b) <==> (exists|j: int|
                    0 <= j < touched@.len() && bucket_of(touched@[j], bucket_secs) == b && b < current) || (exists|j: int|
                    0 <= j < k && marker <= finer@[j] < current && bucket_of(finer@[j], bucket_secs) == b),
        decreases finer@.len() - k,
    {
        let key = finer[k];
        let ghost before = acc@;
        let ghost kb = bucket_of(key, bucket_secs);
        if marker <= key && key < current {
            let b = bucket_start_secs(key, bucket_secs);
            acc.push(b);
        }
        assert(marker <= key < current ==> acc@ == before.push(kb));
        assert(!(marker <= key < current) ==> acc@ == before);
        proof {
            assert forall|c: u64|
                acc@.contains(c) <==> (exists|j: int|
                    0 <= j < touched@.len() && bucket_of(touched@[j], bucket_secs) == c && c < current) || (exists|j: int|
                    0 <= j < k + 1 && marker <= finer@[j] < current && bucket_of(finer@[j], bucket_secs) == c) by {
                if acc@.contains(c) && !before.contains(c) {
                    assert(bucket_of(finer@[k as int], bucket_secs) == c);
                }
                if exists|j: int| 0 <= j < k && marker <= finer@[j] < current && bucket_of(finer@[j], bucket_secs) == c {
                    assert(before.contains(c));
                }
                if exists|j: int| 0 <= j < k + 1 && marker <= finer@[j] < current && bucket_of(finer@[j], bucket_secs) == c {
                    let j = choose|j: int|
                        0 <= j < k + 1 && marker <= finer@[j] < current && bucket_of(finer@[j], bucket_secs) == c;
                    if j == k {
                        assert(acc@.last() == c);
                    } else {
                        assert(before.contains(c));
                    }
                }
            }
        }
        k += 1;
    }
    let res = sorted_unique(&acc);
    proof {
        assert(res@.to_set() =~= rebuild_set(touched@, finer@, current, marker, bucket_secs));
    }
    res
}

/// Whether a compaction level has work: a bucket to rebuild, or a marker
/// behind the current bucket.
pub fn level_needs_pass(to_rebuild: &Vec<u64>, marker: u64, current: u64) -> (r: bool)
    ensures
        r == (to_rebuild@.len() > 0 || marker < current),
{
    to_rebuild.len() > 0 || marker < current
}

/// The new compaction marker of a level: the current bucket once the marker
/// is behind it, otherwise unchanged.
pub fn next_marker(marker: u64, current: u64) -> (r: Option<u64>)
    ensures
        marker < current ==> r == Some(current),
        marker >= current ==> r is None,
{
    if marker < current {
        Some(current)
    } else {
        None
    }
}

/// A rebuilt bucket with no requests is removed; otherwise it is stored.
pub fn keep_rebuilt(total: u64) -> (r: bool)
    ensures
        r == (total != 0),
{
    total != 0
}

/// The bucket keys of a stored level.
pub open spec fn level_keys(level: Seq<(u64, Rollup)>) -> Seq<u64> {
    level.map_values(|p: (u64, Rollup)| p.0)
}

/// The sum of the finer rollups that make up coarse bucket `b`.
pub open spec fn coarse_sum(level: Seq<(u64, Rollup)>, b: u64, secs: u64) -> crate::rollup_view::RollupView {
    merge_all(fine_parts(keyed_views(level), b, secs))
}

/// What one compaction pass over a level writes.
pub struct LevelPass {
    /// The coarse buckets rebuilt, in increasing order.
    pub rebuilt: Vec<u64>,
    /// For each rebuilt bucket, its new rollup, or `None` when it holds no
    /// request and is removed.
    pub writes: Vec<Option<Rollup>>,
    /// The level's compaction marker after the pass.
    pub marker: u64,
}

/// One compaction pass of a coarse level (hours from minutes, days from
/// hours). `finer` holds the stored finer rollups, in the order the store
/// reads them (by key), of every range the pass reads: `[marker, current)` and the coarse buckets
/// of the touched keys. Every coarse bucket of `rebuild_set` is rebuilt as
/// the finished sum of the finer rollups in it (removed when that sum counts
/// no request), and the marker moves up to `current`. `None` when the request
/// total of some rebuilt bucket does not fit in a `u64`.
pub fn compact_level_pass(
    finer: &Vec<(u64, Rollup)>,
    touched: &Vec<u64>,
    marker: u64,
    current: u64,
    secs: u64,
) -> (r: Option<LevelPass>)
    requires
        secs > 0,
        forall|i: int| 0 <= i < finer@.len() ==> (#[trigger] finer@[i]).1.wf(),
    ensures
        r is None <==> exists|b: u64|
            rebuild_set(touched@, level_keys(finer@), current, marker, secs).contains(b) && #[trigger] coarse_sum(
                finer@,
                b,
                secs,
            ).total > u64::MAX,
        r matches Some(p) ==> {
            &&& strictly_increasing(p.rebuilt@)
            &&& p.rebuilt@.to_set() == rebuild_set(touched@, level_keys(finer@), current, marker, secs)
            &&& p.writes@.len() == p.rebuilt@.len()
            &&& forall|i: int| #![trigger p.writes@[i]] 0 <= i < p.writes@.len() ==> {
                let sum = coarse_sum(finer@, p.rebuilt@[i], secs);
                &&& (p.writes@[i] is None <==> sum.total == 0)
                &&& (p.writes@[i] matches Some(w) ==> w.wf() && finished_from(w@, sum))
            }
            &&& p.marker == (if marker < current { current } else { marker })
        },
{
    let mut keys: Vec<u64> = Vec::new();
    let mut k: usize = 0;
    while k < finer.len()
        invariant
            k <= finer@.len(),
            keys@ == level_keys(finer@).take(k as int),
        decreases finer@.len() - k,
    {
        keys.push(finer[k].0);
        proof {
            assert(level_keys(finer@).take(k + 1) =~= level_keys(finer@).take(k as int).push(finer@[k as int].0));
        }
        k += 1;
    }
    proof {
        assert(level_keys(finer@).take(finer@.len() as int) =~= level_keys(finer@));
    }
    let rebuilt = buckets_to_rebuild(touched, &keys, current, marker, secs);
    let ghost set = rebuild_set(touched@, level_keys(finer@), current, marker, secs);
    let mut writes: Vec<Option<Rollup>> = Vec::new();
    let mut i: usize = 0;
    while i < rebuilt.len()
        invariant
            i <= rebuilt@.len(),
            secs > 0,
            rebuilt@.to_set() == set,
            set == rebuild_set(touched@, level_keys(finer@), current, marker, secs),
            forall|j: int| 0 <= j < finer@.len() ==> (#[trigger] finer@[j]).1.wf(),
            writes@.len() == i,
            forall|j: int| #![trigger writes@[j]] 0 <= j < i ==> {
                let sum = coarse_sum(finer@, rebuilt@[j], secs);
                &&& (writes@[j] is None <==> sum.total == 0)
                &&& (writes@[j] matches Some(w) ==> w.wf() && finished_from(w@, sum))
            },
            forall|j: int| 0 <= j < i ==> #[trigger] coarse_sum(finer@, rebuilt@[j], secs).total <= u64::MAX,
        decreases rebuilt@.len() - i,
    {
        let b = rebuilt[i];
        proof {
            assert(rebuilt@.to_set().contains(b));
        }
        let ghost before = writes@;
        let ghost sum = coarse_sum(finer@, b, secs);
        match combine_range(finer, b, secs) {
            None => {
                proof {
                    assert(coarse_sum(finer@, b, secs).total > u64::MAX);
                    assert(rebuild_set(touched@, level_keys(finer@), current, marker, secs).contains(b));
                    assert(exists|c: u64|
                        rebuild_set(touched@, level_keys(finer@), current, marker, secs).contains(c)
                            && #[trigger] coarse_sum(finer@, c, secs).total > u64::MAX);
                }
                return None;
            },
            Some(r) => {
                proof {
                    r.lemma_view_parts();
                    assert(r@.total == sum.total);
                }
                if keep_rebuilt(r.total()) {
                    writes.push(Some(r));
                } else {
                    writes.push(None);
                }
                proof {
                    assert(writes@ == before.push(writes@[i as int]));
                    assert(writes@[i as int] is None <==> sum.total == 0);
                }
            },
        }
        i += 1;
    }
    proof {
        assert forall|b: u64| set.contains(b) implies #[trigger] coarse_sum(finer@, b, secs).total <= u64::MAX by {
            assert(rebuilt@.to_set().contains(b));
            let j = choose|j: int| 0 <= j < rebuilt@.len() && rebuilt@[j] == b;
            assert(coarse_sum(finer@, rebuilt@[j], secs).total <= u64::MAX);
        }
    }
    let new_marker = match next_marker(marker, current) {
        Some(m) => m,
        None => marker,
    };
    Some(LevelPass { rebuilt, writes, marker: new_marker })
}

/// A rollup bucket survives a purge at `boundary` (the start of the bucket
/// that holds the cutoff) only when it starts after it: the boundary bucket
/// itself is rebuilt from the entries that remain.
pub fn bucket_survives_purge(bucket: u64, boundary: u64) -> (r: bool)
    ensures
        r == (bucket > boundary),
{
    bucket > boundary
}

/// The data revision after a purge.
pub fn next_revision(revision: u64) -> (r: u64)
    ensures
        r == (if revision == u64::MAX { 0 } else { revision + 1 }),
{
    revision.wrapping_add(1)
}

/// The multiplier that spreads entry counts over the generation number.
pub const GENERATION_MIX: u64 = 0x9e37_79b9_7f4a_7c15;

/// A 64-bit value with its halves swapped.
pub open spec fn swap_halves(r: u64) -> u64 {
    (r << 32u64) | (r >> 32u64)
}

/// The generation of the analytics data: changes when entries are appended
/// (through the next entry id) or purged (through the revision).
pub open spec fn generation_spec(next_id: u64, revision: u64) -> u64 {
    ((next_id as int * GENERATION_MIX as int) % 0x1_0000_0000_0000_0000) as u64 ^ swap_halves(revision)
}

/// The generation number that readers compare to detect changed data.
pub fn analytics_generation(next_id: u64, revision: u64) -> (g: u64)
    ensures
        g == generation_spec(next_id, revision),
{
    let mixed = next_id.wrapping_mul(GENERATION_MIX);
    let swapped = (revision << 32u64) | (revision >> 32u64);
    mixed ^ swapped
}

/// The ids given to a batch of `count` new entries: `next_id`, `next_id + 1`,
/// and so on; `None` when they would pass `u64::MAX`.
pub fn assign_ids(next_id: u64, count: usize) -> (res: Option<(u64, u64)>)
    ensures
        res is Some <==> next_id + count <= u64::MAX,
        res matches Some((first, after)) ==> first == next_id && after == next_id + count,
{
    if count as u64 > u64::MAX - next_id {
        None
    } else {
        Some((next_id, next_id + count as u64))
    }
}

/// The version of the analytics indexes and rollups that this library builds.
pub const ANALYTICS_VERSION: u64 = 1;

/// Whether the analytics indexes and rollups must be rebuilt: unless the
/// stored version is the current one. So a second migration changes nothing.
pub fn migration_needed(version: Option<u64>) -> (r: bool)
    ensures
        r == (version != Some(ANALYTICS_VERSION)),
{
    match version {
        Some(v) => v != ANALYTICS_VERSION,
        None => true,
    }
}

/// Where the next migration batch starts: after the last id read, or where
/// it was when that id is `u64::MAX`.
pub fn next_migration_key(last_id: u64) -> (r: u64)
    ensures
        r == (if last_id == u64::MAX { u64::MAX as int } else { last_id + 1 }),
{
    last_id.saturating_add(1)
}

} // verus!
