use caddy_dashboard::analytics::{
    bucket_start_secs, build_updates, combine_rollups, rollup_segments, stable_hash, Resolution, Rollup,
    RollupEntry, DAY_SECS, HOUR_SECS, MINUTE_SECS,
};
use caddy_dashboard::compaction::{
    analytics_generation, assign_ids, compact_level_pass, migration_needed, bucket_survives_purge, buckets_to_rebuild, keep_rebuilt, level_needs_pass,
    next_marker, next_migration_key, next_revision,
};
use caddy_dashboard::histogram::Histogram;
use caddy_dashboard::table::Table;

fn entry(status: u16, host: &str, uri: &str, ip: &str, method: &str, size: u64, dbin: u16) -> RollupEntry {
    RollupEntry {
        status,
        host: host.to_string(),
        uri: uri.to_string(),
        client_ip: ip.to_string(),
        method: method.to_string(),
        size,
        duration_bin: dbin,
        size_bin: 3,
        referrer: Some("https://ref.example".to_string()),
        user_agent: Some(String::new()),
    }
}

fn count(t: &Table<String, u64>, k: &str) -> u64 {
    t.as_vec().iter().find(|(key, _)| key == k).map(|(_, n)| *n).unwrap_or(0)
}

fn status(t: &Table<u16, u64>, k: u16) -> u64 {
    t.as_vec().iter().find(|(key, _)| *key == k).map(|(_, n)| *n).unwrap_or(0)
}

#[test]
fn resolution_seconds_match_bucket_lengths() {
    assert_eq!(Resolution::Minute.seconds(), 60);
    assert_eq!(Resolution::Hour.seconds(), 3_600);
    assert_eq!(Resolution::Day.seconds(), 86_400);
}

#[test]
fn bucket_start_rounds_down() {
    assert_eq!(bucket_start_secs(3_599, HOUR_SECS), 0);
    assert_eq!(bucket_start_secs(3_600, HOUR_SECS), 3_600);
    assert_eq!(bucket_start_secs(90_061, MINUTE_SECS), 90_060);
    assert_eq!(bucket_start_secs(90_061, DAY_SECS), 86_400);
}

#[test]
fn stable_hash_is_fnv1a() {
    assert_eq!(stable_hash(b""), 0xcbf29ce484222325);
    assert_eq!(stable_hash(b"a"), 0xaf63dc4c8601ec8c);
    assert_ne!(stable_hash(b"10.0.0.1"), stable_hash(b"10.0.0.2"));
}

#[test]
fn histogram_merge_adds_bins_and_counts() {
    let mut left = Histogram::new();
    let mut right = Histogram::new();
    for bin in 1..=50u16 {
        left.add_bin(bin);
    }
    for bin in 51..=100u16 {
        right.add_bin(bin);
    }
    left.merge(&right);
    assert_eq!(left.count(), 100);
    assert_eq!(left.bin_at_rank(50), Some(50));
    assert_eq!(left.bin_at_rank(99), Some(99));
    assert_eq!(left.bin_at_rank(101), None);
    assert_eq!(left.bins().len(), 100);
}

#[test]
fn histogram_from_bins_checks_order_and_total() {
    assert!(Histogram::from_bins(vec![(1, 2), (5, 3)], 5).is_some());
    assert!(Histogram::from_bins(vec![(5, 2), (1, 3)], 5).is_none());
    assert!(Histogram::from_bins(vec![(1, 2), (5, 3)], 4).is_none());
}

#[test]
fn rollup_segments_use_large_aligned_buckets() {
    let (segments, stop) = rollup_segments(60, DAY_SECS + HOUR_SECS + 90);
    assert!(segments.iter().any(|s| s.resolution == Resolution::Hour));
    assert!(segments.iter().any(|s| s.resolution == Resolution::Minute));
    assert_eq!(segments.first().map(|s| (s.resolution, s.bucket)), Some((Resolution::Minute, 60)));
    assert_eq!(stop, DAY_SECS + HOUR_SECS + 60);
}

#[test]
fn rollup_segments_prefer_whole_days() {
    let (segments, stop) = rollup_segments(0, 2 * DAY_SECS);
    assert_eq!(segments.len(), 2);
    assert!(segments.iter().all(|s| s.resolution == Resolution::Day));
    assert_eq!(stop, 2 * DAY_SECS);
}

#[test]
fn rollup_counts_each_entry() {
    let mut r = Rollup::new();
    r.add_entry(&entry(200, "a.com", "/x", "1.1.1.1", "GET", 100, 7));
    r.add_entry(&entry(404, "a.com", "/y", "2.2.2.2", "POST", u64::MAX, 7));
    assert_eq!(r.total(), 2);
    assert_eq!(r.total_bytes(), u64::MAX);
    assert_eq!(status(r.status_codes(), 200), 1);
    assert_eq!(status(r.status_codes(), 404), 1);
    assert_eq!(count(r.hosts(), "a.com"), 2);
    assert_eq!(count(r.methods(), "POST"), 1);
    assert_eq!(count(r.referrers(), "https://ref.example"), 2);
    assert_eq!(r.user_agents().len(), 0);
    assert_eq!(r.client_hashes().len(), 2);
    assert_eq!(r.client_hashes()[0], stable_hash(b"1.1.1.1"));
    assert_eq!(r.unique_clients(), 2);
    let paths = r.paths();
    assert_eq!(paths.len(), 2);
    assert!(paths.as_vec().iter().any(|(p, v)| p == "a.com/x" && v.count() == 1));
}

#[test]
fn rollup_of_two_batches_merges_to_rollup_of_all() {
    let batch_a = vec![entry(200, "a", "/1", "ip1", "GET", 10, 1), entry(500, "b", "/2", "ip2", "GET", 20, 2)];
    let batch_b = vec![entry(200, "a", "/1", "ip1", "PUT", 30, 1)];
    let mut whole = Rollup::new();
    for e in batch_a.iter().chain(batch_b.iter()) {
        whole.add_entry(e);
    }
    let mut left = Rollup::new();
    for e in &batch_a {
        left.add_entry(e);
    }
    let mut right = Rollup::new();
    for e in &batch_b {
        right.add_entry(e);
    }
    left.merge(&right);
    assert_eq!(left.total(), whole.total());
    assert_eq!(left.total_bytes(), whole.total_bytes());
    assert_eq!(count(left.hosts(), "a"), count(whole.hosts(), "a"));
    assert_eq!(count(left.methods(), "PUT"), 1);
    assert_eq!(status(left.status_codes(), 200), 2);
    assert_eq!(left.client_hashes(), whole.client_hashes());
    left.finish_bucket();
    assert_eq!(left.client_hashes().len(), 2);
    assert!(left.client_hashes()[0] < left.client_hashes()[1]);
}

#[test]
fn build_updates_groups_entries_by_bucket() {
    let entries = vec![
        entry(200, "h", "/a", "x", "GET", 1, 1),
        entry(200, "h", "/a", "x", "GET", 1, 1),
        entry(301, "h", "/b", "y", "GET", 1, 1),
    ];
    let seconds = vec![10, 59, 61];
    let updates = build_updates(&entries, &seconds, MINUTE_SECS);
    assert_eq!(updates.len(), 2);
    let first = updates.as_vec().iter().find(|(b, _)| *b == 0).map(|(_, r)| r).unwrap();
    assert_eq!(first.total(), 2);
    assert_eq!(first.client_hashes().len(), 1);
    let second = updates.as_vec().iter().find(|(b, _)| *b == 60).map(|(_, r)| r).unwrap();
    assert_eq!(second.total(), 1);
    assert_eq!(status(second.status_codes(), 301), 1);
}

#[test]
fn combine_rollups_adds_minutes_into_an_hour() {
    let mut m1 = Rollup::new();
    m1.add_entry(&entry(200, "h", "/a", "x", "GET", 5, 1));
    let mut m2 = Rollup::new();
    m2.add_entry(&entry(200, "h", "/a", "x", "GET", 7, 1));
    let hour = combine_rollups(&vec![m1, m2]).unwrap();
    assert_eq!(hour.total(), 2);
    assert_eq!(hour.total_bytes(), 12);
    assert_eq!(hour.client_hashes().len(), 1);
    let empty = combine_rollups(&vec![]).unwrap();
    assert_eq!(empty.total(), 0);
}

#[test]
fn buckets_to_rebuild_collects_completed_hours() {
    let touched = vec![3_600, 7_200, 10_800];
    let finer = vec![60, 3_660, 7_260, 10_860];
    let hours = buckets_to_rebuild(&touched, &finer, 10_800, 3_600, HOUR_SECS);
    assert_eq!(hours, vec![3_600, 7_200]);
    let days = buckets_to_rebuild(&hours, &vec![], 0, 0, DAY_SECS);
    assert_eq!(days, Vec::<u64>::new());
    let days = buckets_to_rebuild(&hours, &vec![], 2 * DAY_SECS, 0, DAY_SECS);
    assert_eq!(days, vec![0]);
}

#[test]
fn compaction_markers_and_purge_rules() {
    assert!(level_needs_pass(&vec![], 0, 3_600));
    assert!(!level_needs_pass(&vec![], 3_600, 3_600));
    assert!(level_needs_pass(&vec![1], 3_600, 3_600));
    assert_eq!(next_marker(0, 3_600), Some(3_600));
    assert_eq!(next_marker(3_600, 3_600), None);
    assert!(!keep_rebuilt(0));
    assert!(keep_rebuilt(3));
    assert!(!bucket_survives_purge(120, 120));
    assert!(bucket_survives_purge(180, 120));
    assert_eq!(next_revision(u64::MAX), 0);
    assert_eq!(next_revision(4), 5);
    assert_eq!(next_migration_key(u64::MAX), u64::MAX);
    assert_eq!(next_migration_key(9), 10);
    assert_eq!(assign_ids(10, 3), Some((10, 13)));
    assert_eq!(assign_ids(u64::MAX, 1), None);
}

#[test]
fn analytics_generation_mixes_ids_and_revision() {
    assert_eq!(analytics_generation(0, 0), 0);
    assert_eq!(analytics_generation(1, 0), 0x9e3779b97f4a7c15);
    assert_eq!(analytics_generation(0, 1), 1u64 << 32);
    assert_eq!(analytics_generation(2, 0), 0x9e3779b97f4a7c15u64.wrapping_mul(2));
    assert_ne!(analytics_generation(1, 1), analytics_generation(1, 2));
}

#[test]
fn batched_updates_equal_one_pass() {
    let mk = || {
        (
            vec![entry(200, "h", "/a", "x", "GET", 3, 1), entry(404, "h", "/b", "y", "GET", 4, 2)],
            vec![entry(500, "h", "/a", "x", "POST", 5, 3)],
        )
    };
    let (a, b) = mk();
    let (a2, b2) = mk();
    let whole_entries: Vec<RollupEntry> = a2.into_iter().chain(b2).collect();
    let whole = build_updates(&whole_entries, &vec![10, 70, 20], MINUTE_SECS);
    let first = build_updates(&a, &vec![10, 70], MINUTE_SECS);
    let second = build_updates(&b, &vec![20], MINUTE_SECS);
    assert_eq!(whole.len(), 2);
    for (bucket, r) in whole.as_vec() {
        let mut merged = Rollup::new();
        for t in [&first, &second] {
            if let Some((_, p)) = t.as_vec().iter().find(|(k, _)| k == bucket) {
                merged.merge(p);
            }
        }
        merged.finish_bucket();
        assert_eq!(merged.total(), r.total());
        assert_eq!(merged.total_bytes(), r.total_bytes());
        assert_eq!(merged.status_codes().as_vec(), r.status_codes().as_vec());
        assert_eq!(merged.methods().as_vec(), r.methods().as_vec());
        assert_eq!(merged.client_hashes(), r.client_hashes());
    }
}

#[test]
fn hour_rebuilt_from_minutes_equals_hour_of_entries() {
    let mk = || {
        vec![
            entry(200, "h", "/a", "x", "GET", 3, 1),
            entry(404, "h", "/b", "y", "GET", 4, 2),
            entry(500, "h", "/a", "z", "POST", 5, 3),
            entry(200, "h", "/c", "x", "GET", 6, 1),
        ]
    };
    let seconds = vec![3_600, 3_630, 3_700, 7_100];
    let minutes = build_updates(&mk(), &seconds, MINUTE_SECS);
    let hours = build_updates(&mk(), &seconds, HOUR_SECS);
    let mut rebuilt = Rollup::new();
    let mut keys: Vec<u64> = minutes.as_vec().iter().map(|(k, _)| *k).collect();
    keys.sort();
    for k in keys {
        let (_, m) = minutes.as_vec().iter().find(|(b, _)| *b == k).unwrap();
        rebuilt.merge(m);
    }
    rebuilt.finish_bucket();
    let (_, hour) = hours.as_vec().iter().find(|(b, _)| *b == 3_600).unwrap();
    assert_eq!(rebuilt.total(), hour.total());
    assert_eq!(rebuilt.total_bytes(), hour.total_bytes());
    assert_eq!(rebuilt.client_hashes(), hour.client_hashes());
    assert_eq!(rebuilt.status_codes().as_vec(), hour.status_codes().as_vec());
    assert_eq!(rebuilt.methods().as_vec(), hour.methods().as_vec());
}

#[test]
fn compaction_pass_rebuilds_hours_from_minutes() {
    let minute = |entries: Vec<RollupEntry>| {
        let mut r = Rollup::new();
        for e in &entries {
            r.add_entry(e);
        }
        r.finish_bucket();
        r
    };
    let level = vec![
        (0, minute(vec![entry(200, "h", "/a", "x", "GET", 1, 1)])),
        (3_600, minute(vec![entry(200, "h", "/a", "x", "GET", 2, 1), entry(404, "h", "/b", "y", "GET", 3, 1)])),
        (3_660, minute(vec![entry(500, "h", "/c", "z", "POST", 4, 1)])),
    ];
    let pass = compact_level_pass(&level, &vec![3_600, 10_850], 0, 14_400, HOUR_SECS).unwrap();
    assert_eq!(pass.rebuilt, vec![0, 3_600, 10_800]);
    assert_eq!(pass.marker, 14_400);
    let totals: Vec<Option<u64>> = pass.writes.iter().map(|w| w.as_ref().map(|r| r.total())).collect();
    assert_eq!(totals, vec![Some(1), Some(3), None]);
    let hour = pass.writes[1].as_ref().unwrap();
    assert_eq!(hour.total_bytes(), 9);
    assert_eq!(hour.client_hashes().len(), 3);
    // A marker past the current bucket stays; only touched buckets are rebuilt.
    let pass = compact_level_pass(&level, &vec![0], 20_000, 14_400, HOUR_SECS).unwrap();
    assert_eq!(pass.rebuilt, vec![0]);
    assert_eq!(pass.marker, 20_000);
}

#[test]
fn migration_runs_only_for_another_version() {
    assert!(migration_needed(None));
    assert!(migration_needed(Some(0)));
    assert!(!migration_needed(Some(1)));
    assert!(migration_needed(Some(2)));
}
