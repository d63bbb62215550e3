use caddy_dashboard::config::{base_url, cookie_secure, disable_login, issuer_url, nonempty_var, port};
use caddy_dashboard::filters::{entry_matches, glob_match, match_status, EntryFields, LogQuery};
use caddy_dashboard::logview::{csv_field, has_filters, page_request, scan_source, LogScan};
use caddy_dashboard::text::{decimal_string, replace_str, str_contains, trim_str};

fn s(v: &str) -> Option<String> {
    Some(v.to_string())
}

fn query() -> LogQuery {
    LogQuery {
        status: None,
        host: None,
        method: None,
        ip: None,
        path: None,
        ua: None,
        has_duration_limit: false,
        size_gt: None,
        size_lt: None,
        text: None,
        not_status: None,
        not_host: None,
        not_method: None,
        not_ip: None,
        not_path: None,
    }
}

fn fields() -> EntryFields {
    EntryFields {
        status: 404,
        host: "api.example.com".to_string(),
        method: "get".to_string(),
        client_ip: "10.0.0.7".to_string(),
        remote_ip: "172.16.0.1".to_string(),
        uri: "/v1/users/42".to_string(),
        user_agent: Some("Mozilla/5.0 (X11)".to_string()),
        size: 1_000,
    }
}

#[test]
fn glob_patterns() {
    assert!(glob_match("/v1/*", "/v1/users"));
    assert!(glob_match("*users*", "/v1/users/42"));
    assert!(glob_match("/exact", "/exact"));
    assert!(!glob_match("/exact", "/exact/more"));
    assert!(glob_match("/a*c", "/abc"));
    assert!(!glob_match("/a*c", "/abd"));
    assert!(glob_match("*", ""));
}

#[test]
fn status_filters() {
    assert!(match_status("4xx", 404));
    assert!(!match_status("4xx", 500));
    assert!(match_status("200, 5xx", 503));
    assert!(match_status(" 301 ", 301));
    assert!(!match_status("abc", 200));
}

#[test]
fn entry_filters_combine() {
    let e = fields();
    let mut q = query();
    assert!(entry_matches(&e, &q));
    q.status = s("4xx");
    q.host = s("*.example.com");
    q.method = s("GET");
    q.ip = s("172.16");
    q.path = s("/v1/*");
    q.ua = s("mozilla");
    q.size_gt = Some(999);
    q.size_lt = Some(1_001);
    assert!(entry_matches(&e, &q));
    q.not_method = s("post, get");
    assert!(!entry_matches(&e, &q));
    q.not_method = s(" , put");
    assert!(entry_matches(&e, &q));
    q.not_path = s("/v2/*,/v1/users/*");
    assert!(!entry_matches(&e, &q));
    let mut r = query();
    r.size_gt = Some(1_000);
    assert!(!entry_matches(&e, &r));
    let mut t = query();
    t.text = s("API.EXAMPLE");
    assert!(entry_matches(&e, &t));
}

#[test]
fn host_filter_is_exact_or_glob() {
    let e = fields();
    let mut q = query();
    q.host = s("api.example.com");
    assert!(entry_matches(&e, &q));
    q.host = s("*.com");
    assert!(entry_matches(&e, &q));
    q.host = s("example");
    assert!(!entry_matches(&e, &q));
    q.host = s("*.test");
    assert!(!entry_matches(&e, &q));
}

#[test]
fn log_page_requests() {
    let p = page_request(None, Some(3), None, false);
    assert_eq!((p.limit, p.skip, p.include_total), (50, 150, true));
    let p = page_request(Some(0), Some(2), Some(99), true);
    assert_eq!((p.limit, p.skip, p.include_total), (1, 0, false));
    let p = page_request(Some(10_000), Some(usize::MAX), None, false);
    assert_eq!((p.limit, p.skip), (500, usize::MAX));
    let mut q = query();
    assert!(!has_filters(&q));
    assert!(matches!(scan_source(&q), LogScan::All));
    q.method = s("post");
    assert!(has_filters(&q));
    assert!(matches!(scan_source(&q), LogScan::Method(m) if m == "POST"));
    q.status = s("404");
    assert!(matches!(scan_source(&q), LogScan::Status(404)));
    q.status = s("4xx");
    assert!(matches!(scan_source(&q), LogScan::Method(_)));
}

#[test]
fn csv_fields_are_quoted_when_needed() {
    assert_eq!(csv_field("plain"), "plain");
    assert_eq!(csv_field("a,b"), "\"a,b\"");
    assert_eq!(csv_field("say \"hi\""), "\"say \"\"hi\"\"\"");
    assert_eq!(csv_field("two\nlines"), "\"two\nlines\"");
}

#[test]
fn text_helpers() {
    assert_eq!(decimal_string(0), "0");
    assert_eq!(decimal_string(1_234_567), "1234567");
    assert_eq!(decimal_string(u64::MAX), "18446744073709551615");
    assert_eq!(replace_str("a{x}b{x}", "{x}", "-"), "a-b-");
    assert_eq!(replace_str("aaa", "aa", "b"), "ba");
    assert_eq!(trim_str("  \tx y\n"), "x y");
    assert!(str_contains("hello world", "o w"));
}

#[test]
fn environment_values() {
    assert!(cookie_secure(&None));
    assert!(!cookie_secure(&s("FALSE")));
    assert!(!cookie_secure(&s("false")));
    assert!(cookie_secure(&s("no")));
    assert!(disable_login(&s("true")));
    assert!(disable_login(&s("1")));
    assert!(!disable_login(&s("TRUE")));
    assert!(!disable_login(&None));
    assert_eq!(nonempty_var(s("")), None);
    assert_eq!(nonempty_var(s("id")), s("id"));
    assert_eq!(base_url(&s("https://d.example//")), s("https://d.example"));
    assert_eq!(base_url(&s("")), None);
    assert_eq!(base_url(&s("/")), s(""));
    assert_eq!(issuer_url(&s("https://idp/")), "https://idp");
    assert_eq!(issuer_url(&None), "");
    assert_eq!(port(&None), Some(9080));
    assert_eq!(port(&s("8080")), Some(8080));
    assert_eq!(port(&s("70000")), None);
    assert_eq!(port(&s("x")), None);
}

/// Reads one CSV field back as RFC 4180 does.
fn read_field(f: &str) -> String {
    if f.len() >= 2 && f.starts_with('"') && f.ends_with('"') {
        f[1..f.len() - 1].replace("\"\"", "\"")
    } else {
        f.to_string()
    }
}

#[test]
fn csv_fields_read_back_unchanged() {
    for text in ["plain", "a,b", "say \"hi\"", "\"", "line\nbreak", "", "\"\"x,"] {
        assert_eq!(read_field(&csv_field(text)), text);
    }
}

#[test]
fn negated_status_filter_drops_what_the_plain_one_keeps() {
    let e = fields();
    for text in ["4xx", "200", " 404 , 5xx", "", ",", "abc, 4xx", "2xx,3xx"] {
        let mut plain = query();
        plain.status = s(text);
        let mut negated = query();
        negated.not_status = s(text);
        assert_eq!(entry_matches(&e, &negated), !entry_matches(&e, &plain), "filter {text:?}");
    }
}
