use caddy_dashboard::reports::{geo_mode, GeoMode};
use caddy_dashboard::ai::{
    fill_template, prompt_template, render_summary, sse_event, summarize, template_acceptable, PromptSample,
    DEFAULT_PROMPT_TEMPLATE,
};
use caddy_dashboard::ingest::{advance, ingest_plan, line_payload, IngestAction};
use caddy_dashboard::paging::{select_page, PageScan, Step};
use caddy_dashboard::session::{generate_token, hex_encode};
use caddy_dashboard::timeline::{bucket_choice, bucket_window, status_count, timeline_buckets};
use caddy_dashboard::table::Table;

fn ps(status: u16, uri: &str, ip: &str, hour: u64, ua: Option<&str>) -> PromptSample {
    PromptSample {
        status,
        uri: uri.to_string(),
        client_ip: ip.to_string(),
        remote_ip: "0.0.0.0".to_string(),
        hour,
        user_agent: ua.map(str::to_string),
    }
}

#[test]
fn ingest_first_start_skips_existing_content() {
    assert_eq!(ingest_plan(0, 0, 500, 7), IngestAction::RecordStart { pos: 500, inode: 7 });
    assert_eq!(ingest_plan(500, 7, 500, 7), IngestAction::Idle);
    assert_eq!(ingest_plan(500, 7, 800, 7), IngestAction::ReadFrom { pos: 500 });
    assert_eq!(ingest_plan(500, 7, 100, 7), IngestAction::ReadFrom { pos: 0 });
    assert_eq!(ingest_plan(500, 7, 900, 8), IngestAction::ReadFrom { pos: 0 });
    assert_eq!(ingest_plan(500, 7, 0, 8), IngestAction::Idle);
    assert_eq!(line_payload("{\"a\":1}  \n"), Some("{\"a\":1}".to_string()));
    assert_eq!(line_payload(" \r\n"), None);
    assert_eq!(advance(10, 5), Some(15));
    assert_eq!(advance(u64::MAX, 1), None);
}

#[test]
fn page_scan_keeps_one_row_beyond_the_limit() {
    let mut scan = PageScan::new(1, 2);
    assert_eq!(scan.consider(9, true), Step::Skipped);
    assert_eq!(scan.consider(8, false), Step::Rejected);
    assert_eq!(scan.consider(7, true), Step::Kept);
    assert_eq!(scan.consider(6, true), Step::Kept);
    assert_eq!(scan.consider(5, true), Step::KeptAndFull);
    let page = scan.finish();
    assert_eq!(page.ids, vec![7, 6]);
    assert!(page.has_more);
    assert_eq!(page.next_cursor, Some(6));
    assert_eq!(page.scanned, 5);
    let rows = vec![(9, true), (8, false), (7, true), (6, true), (5, true)];
    let same = select_page(&rows, 1, 2);
    assert_eq!(same.ids, vec![7, 6]);
    let last = select_page(&rows, 0, 10);
    assert_eq!(last.ids, vec![9, 7, 6, 5]);
    assert!(!last.has_more);
    assert_eq!(last.next_cursor, None);
    assert_eq!(last.scanned, 5);
}

#[test]
fn page_selection_reads_up_to_one_match_past_the_page() {
    let rows = vec![(9, true), (8, false), (7, true), (6, true), (5, false), (4, true), (3, true)];
    // Skip one match, keep one, and read the match after it: rows 9, 8, 7, 6.
    let page = select_page(&rows, 1, 1);
    assert_eq!(page.ids, vec![7]);
    assert!(page.has_more);
    assert_eq!(page.scanned, 4);
    let page = select_page(&rows, 2, 2);
    assert_eq!(page.ids, vec![6, 4]);
    assert_eq!(page.scanned, 7);
    let none = select_page(&rows, 9, 2);
    assert!(none.ids.is_empty());
    assert_eq!(none.scanned, 7);
}

#[test]
fn timeline_windows() {
    assert_eq!(bucket_choice(&None), Some((3_600, 86_400)));
    assert_eq!(bucket_choice(&Some("minute".to_string())), Some((60, 3_600)));
    assert_eq!(bucket_choice(&Some("day".to_string())), Some((86_400, 2_592_000)));
    assert_eq!(bucket_choice(&Some("week".to_string())), None);
    let b = timeline_buckets(3_600, 86_400, 100_000);
    assert_eq!(b.len(), 25);
    assert_eq!(b[0], 10_800);
    assert_eq!(*b.last().unwrap(), 97_200);
    assert_eq!(timeline_buckets(60, 3_600, 30), vec![0]);
    assert_eq!(bucket_window(10_800, 3_600, 13_600, 100_000), Some((13_600, 14_400)));
    assert_eq!(bucket_window(97_200, 3_600, 13_600, 100_000), Some((97_200, 100_000)));
    assert_eq!(bucket_window(0, 60, 60, 1_000), None);
    let mut codes: Table<u16, u64> = Table::new();
    codes.add_count(&200, 5);
    codes.add_count(&204, 2);
    codes.add_count(&404, 1);
    assert_eq!(status_count(&codes, 200, 299), Some(7));
    assert_eq!(status_count(&codes, 500, u16::MAX), Some(0));
}

#[test]
fn session_tokens_are_hex() {
    assert_eq!(hex_encode(&vec![0x00, 0xab, 0x7f]), "00ab7f");
    let t = generate_token().expect("random bytes");
    assert_eq!(t.len(), 64);
    assert!(t.chars().all(|c| c.is_ascii_hexdigit() && !c.is_ascii_uppercase()));
    assert_ne!(Some(t), generate_token());
}

#[test]
fn summary_counts_the_window() {
    let samples = vec![
        ps(200, "/a?x=1", "1.1.1.1", 0, Some("curl/8")),
        ps(404, "/b", "1.1.1.1", 5, None),
        ps(500, "/b?q", "2.2.2.2", 30, Some("curl/8")),
        ps(301, "/a", "3.3.3.3", 23, None),
        ps(101, "/ws", "3.3.3.3", 9, None),
    ];
    let s = summarize(&samples).ok().unwrap();
    assert_eq!(s.total, 5);
    assert_eq!(s.unique_ips, 3);
    assert_eq!((s.s2xx, s.s3xx, s.s4xx, s.s5xx), (2, 1, 1, 1));
    assert_eq!(s.hourly, vec![1, 1, 1, 0, 0, 2]);
    assert_eq!(s.top_paths[0], ("/a".to_string(), 2));
    assert_eq!(s.top_error_paths, vec![("/b".to_string(), 2)]);
    assert_eq!(s.top_ips[0], ("1.1.1.1".to_string(), 2, 1));
    assert_eq!(s.top_uas, vec![("curl/8".to_string(), 2)]);
    assert_eq!(summarize(&vec![]).err(), Some("No log entries found in the last 24 hours."));
}

#[test]
fn summary_text_and_prompt() {
    let samples = vec![ps(404, "/x", "9.9.9.9", 1, None)];
    let s = summarize(&samples).ok().unwrap();
    let text = render_summary(&s, &vec!["100".to_string()]);
    let expected = "=== 24-HOUR TRAFFIC SUMMARY ===\nTotal requests: 1\nUnique IPs: 1\n\nStatus breakdown:\n2xx (success):    0\n3xx (redirect):   0\n4xx (client err): 1\n5xx (server err): 0\n\nRequests by hour (oldest \u{2192} newest):\n  hours 00-03: 1 reqs\n  hours 04-07: 0 reqs\n  hours 08-11: 0 reqs\n  hours 12-15: 0 reqs\n  hours 16-19: 0 reqs\n  hours 20-23: 0 reqs\n\nTop paths by volume:\n  /x (1)\n\nTop IPs by request count (with error rates):\n  9.9.9.9 (1 reqs, 1 errors, 100% error rate)\n\nTop error paths (4xx/5xx):\n  /x (1)\n\nTop user agents:\n\n=== END SUMMARY ===";
    assert_eq!(text, expected);
    let prompt = fill_template(&prompt_template(None), "SUM");
    assert!(prompt.contains("\n\nSUM\n\n"));
    assert!(!prompt.contains("{summary}"));
    assert_eq!(prompt_template(Some("mine {summary}".to_string())), "mine {summary}");
    assert!(template_acceptable(DEFAULT_PROMPT_TEMPLATE));
    assert!(!template_acceptable("no placeholder"));
}

#[test]
fn model_chunks_become_events() {
    assert_eq!(sse_event(true, &None, &None), "data: {\"done\":true}\n\n");
    assert_eq!(sse_event(false, &Some("bad \"x\"".to_string()), &None), "data: {\"error\":\"bad \\\"x\\\"\"}\n\n");
    assert_eq!(sse_event(false, &None, &Some("hi\n".to_string())), "data: {\"token\":\"hi\\n\"}\n\n");
    assert_eq!(sse_event(false, &None, &Some(String::new())), "");
    assert_eq!(sse_event(false, &None, &None), "");
}

#[test]
fn events_escape_text_as_json() {
    assert_eq!(sse_event(false, &None, &Some("a\\b\t\r\u{8}\u{c}".to_string())), "data: {\"token\":\"a\\\\b\\t\\r\\b\\f\"}\n\n");
    assert_eq!(sse_event(false, &None, &Some("\u{1}\u{1f}é/".to_string())), "data: {\"token\":\"\\u0001\\u001fé/\"}\n\n");
}

#[test]
fn map_modes() {
    assert_eq!(geo_mode(&None), Some(GeoMode::Country));
    assert_eq!(geo_mode(&Some("country".to_string())), Some(GeoMode::Country));
    assert_eq!(geo_mode(&Some("precise".to_string())), Some(GeoMode::Precise));
    assert_eq!(geo_mode(&Some("Precise".to_string())), None);
    assert_eq!(geo_mode(&Some(String::new())), None);
}
