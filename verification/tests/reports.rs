use caddy_dashboard::grouping::{group_by, tally};
use caddy_dashboard::ranking::{ranked_prefix, top, top_keys};
use caddy_dashboard::reports::{client_address, country_counts, error_rates, largest_payloads, ErrorSample};
use caddy_dashboard::table::Table;

fn sample(ip: &str, method: &str, uri: &str, status: u16) -> ErrorSample {
    ErrorSample {
        client_ip: ip.to_string(),
        remote_ip: "9.9.9.9".to_string(),
        method: method.to_string(),
        uri: uri.to_string(),
        status,
    }
}

#[test]
fn address_falls_back_to_remote_ip() {
    assert_eq!(client_address("", "5.5.5.5"), "5.5.5.5");
    assert_eq!(client_address("1.1.1.1", "5.5.5.5"), "1.1.1.1");
}

#[test]
fn error_rates_report_failing_addresses() {
    let mut samples = Vec::new();
    for _ in 0..3 {
        samples.push(sample("1.1.1.1", "GET", "/login", 401));
    }
    samples.push(sample("1.1.1.1", "GET", "/login", 500));
    samples.push(sample("1.1.1.1", "POST", "/api", 404));
    samples.push(sample("1.1.1.1", "GET", "/", 200));
    for _ in 0..5 {
        samples.push(sample("2.2.2.2", "GET", "/", 200));
    }
    samples.push(sample("", "GET", "/x", 503));
    samples.push(sample("", "GET", "/x", 200));
    let reports = error_rates(&samples, None);
    assert_eq!(reports.len(), 1);
    let r = &reports[0];
    assert_eq!(r.ip, "1.1.1.1");
    assert_eq!(r.total, 6);
    assert_eq!(r.errors_4xx, 4);
    assert_eq!(r.errors_5xx, 1);
    assert_eq!(r.top_endpoints.len(), 2);
    assert_eq!(r.top_endpoints[0].method, "GET");
    assert_eq!(r.top_endpoints[0].path, "/login");
    assert_eq!(r.top_endpoints[0].errors, 4);
    assert_eq!(r.top_endpoints[0].codes, vec![(401, 3), (500, 1)]);
    let all = error_rates(&samples, Some(1));
    assert_eq!(all.len(), 2);
    assert_eq!(all[0].ip, "1.1.1.1");
    assert_eq!(all[1].ip, "9.9.9.9");
    assert_eq!(all[1].errors_5xx, 1);
}

#[test]
fn error_rates_keep_five_endpoints() {
    let mut samples = Vec::new();
    for i in 0..7u16 {
        for _ in 0..=i {
            samples.push(sample("3.3.3.3", "GET", &format!("/p{i}"), 404));
        }
    }
    let reports = error_rates(&samples, Some(0));
    assert_eq!(reports[0].top_endpoints.len(), 5);
    let errs: Vec<u64> = reports[0].top_endpoints.iter().map(|e| e.errors).collect();
    assert_eq!(errs, vec![7, 6, 5, 4, 3]);
}

#[test]
fn countries_sorted_by_requests() {
    let countries: Vec<String> = ["US", "DE", "US", "US", "DE", "FR"].iter().map(|s| s.to_string()).collect();
    let ips: Vec<String> = ["a", "b", "a", "c", "b", "d"].iter().map(|s| s.to_string()).collect();
    let data = country_counts(&countries, &ips);
    assert_eq!(data.len(), 3);
    assert_eq!(data[0].country, "US");
    assert_eq!(data[0].count, 3);
    assert_eq!(data[0].top_ips, vec!["a".to_string(), "c".to_string()]);
    assert_eq!(data[1].country, "DE");
    assert_eq!(data[1].top_ips, vec!["b".to_string()]);
    assert_eq!(data[2].count, 1);
}

#[test]
fn largest_payloads_ranked_by_size() {
    let sizes = vec![10, 500, 30, 500, 7];
    assert_eq!(largest_payloads(&sizes), vec![1, 3, 2, 0, 4]);
    let many: Vec<u64> = (0..150).collect();
    let top100 = largest_payloads(&many);
    assert_eq!(top100.len(), 100);
    assert_eq!(top100[0], 149);
    assert_eq!(top100[99], 50);
}

#[test]
fn ranking_and_tallies() {
    assert_eq!(ranked_prefix(&vec![3, 9, 9, 1], 2), vec![1, 2]);
    let keys: Vec<String> = ["x", "y", "x", "z", "x", "y"].iter().map(|s| s.to_string()).collect();
    let t = tally(&keys);
    assert_eq!(t.len(), 3);
    let best = top(&t, 2);
    assert_eq!(best, vec![("x".to_string(), 3), ("y".to_string(), 2)]);
    assert_eq!(top_keys(&t, 1), vec!["x".to_string()]);
    let vals: Vec<u16> = vec![1, 2, 3, 4, 5, 6];
    let g = group_by(&keys, &vals);
    let xs = g.as_vec().iter().find(|(k, _)| k == "x").map(|(_, v)| v.clone()).unwrap();
    assert_eq!(xs, vec![1, 3, 5]);
    let empty: Table<String, u64> = Table::new();
    assert!(top(&empty, 10).is_empty());
}
