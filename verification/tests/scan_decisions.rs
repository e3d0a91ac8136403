use zyraxbuster::cli::Args;
use zyraxbuster::filter::ResponseFilter;
use zyraxbuster::scan::{
    baseline_of, hit_line, next_attempt, path_hit, path_target, request_user_agent, response_length,
    scan_base, scan_settings, status_class, url_host, user_agents, vhost_domain, vhost_hit,
    vhost_name, vhost_target, HitResult, ResponseInfo, ScanLog, StatusClass,
};

fn args() -> Args {
    Args {
        url: Some("http://target.com".to_string()),
        wordlist: None,
        threads: 40,
        extensions: None,
        status_codes: None,
        blacklist_codes: "404".to_string(),
        timeout: 10,
        follow_redirects: false,
        user_agent: "zyraxbuster/0.1".to_string(),
        random_agent: false,
        add_slash: false,
        output: None,
        json: false,
        min_length: None,
        exclude_length: None,
        header: Vec::new(),
        insecure: false,
        retries: 1,
        delay: 0,
        list_wordlists: false,
        vhost: false,
        auto_filter: false,
    }
}

fn resp(status: u16, len: Option<u64>, loc: Option<&str>) -> ResponseInfo {
    ResponseInfo { status, content_length: len, location: loc.map(|s| s.to_string()) }
}

#[test]
fn base_drops_trailing_slashes() {
    assert_eq!(scan_base("https://x.com///"), "https://x.com");
    assert_eq!(scan_base("https://x.com/admin/"), "https://x.com/admin");
    assert_eq!(scan_base("https://x.com"), "https://x.com");
    assert_eq!(scan_base("///"), "");
}

#[test]
fn target_joins_with_one_slash() {
    assert_eq!(path_target("https://x.com", "//admin"), "https://x.com/admin");
    assert_eq!(path_target("https://x.com", "admin/"), "https://x.com/admin/");
    assert_eq!(path_target("https://x.com", ""), "https://x.com/");
    let base = scan_base("https://x.com/app/");
    assert_eq!(path_target(&base, "/index.php"), "https://x.com/app/index.php");
}

#[test]
fn vhost_names_and_target() {
    assert_eq!(vhost_name(" dev \t", "target.com"), "dev.target.com");
    assert_eq!(vhost_target("http://10.0.0.1"), "http://10.0.0.1/");
}

#[test]
fn url_host_strips_scheme_path_and_port() {
    assert_eq!(url_host("http://10.129.13.57"), "10.129.13.57");
    assert_eq!(url_host("https://target.com:8443/admin/"), "target.com");
    assert_eq!(url_host("target.com/x"), "target.com");
    assert_eq!(url_host("http://a.b"), "a.b");
}

#[test]
fn retries_stop_after_budget() {
    assert_eq!(next_attempt(0, 1), Some(1));
    assert_eq!(next_attempt(1, 1), None);
    assert_eq!(next_attempt(0, 0), None);
    // Every request fails: the number of requests is retries + 1.
    for retries in 0u32..5 {
        let mut attempt = 0u32;
        let mut sent = 1u32;
        while let Some(next) = next_attempt(attempt, retries) {
            attempt = next;
            sent += 1;
        }
        assert_eq!(sent, retries + 1);
    }
}

#[test]
fn missing_content_length_counts_as_zero() {
    assert_eq!(response_length(&resp(200, None, None)), 0);
    assert_eq!(response_length(&resp(200, Some(77), None)), 77);
}

#[test]
fn path_hits_follow_the_filter() {
    let f = ResponseFilter::new(&None, "404", None, Some(10));
    let hit = path_hit(&f, "http://x/a", &resp(301, Some(5), Some("/a/"))).unwrap();
    assert_eq!(hit.url, "http://x/a");
    assert_eq!(hit.status, 301);
    assert_eq!(hit.length, 5);
    assert_eq!(hit.redirect, Some("/a/".to_string()));
    assert!(path_hit(&f, "http://x/b", &resp(404, Some(5), None)).is_none());
    assert!(path_hit(&f, "http://x/c", &resp(200, Some(10), None)).is_none());
}

#[test]
fn baseline_matches_are_dropped_in_vhost_mode() {
    let f = ResponseFilter::new(&None, "404", None, None);
    let base = Some((200u16, 1234u64));
    assert!(vhost_hit(&f, base, "a.t.com", &resp(200, Some(1234), None)).is_none());
    let hit = vhost_hit(&f, base, "b.t.com", &resp(200, Some(99), None)).unwrap();
    assert_eq!(hit.url, "b.t.com");
    assert!(vhost_hit(&f, None, "c.t.com", &resp(200, Some(1234), None)).is_some());
    assert!(vhost_hit(&f, base, "d.t.com", &resp(404, Some(5), None)).is_none());
}

#[test]
fn failed_baseline_gives_no_baseline() {
    assert_eq!(baseline_of(&None), None);
    assert_eq!(baseline_of(&Some(resp(302, Some(12), None))), Some((302, 12)));
    assert_eq!(baseline_of(&Some(resp(200, None, None))), Some((200, 0)));
    // Without a baseline, a 200 response with no length is still reported.
    let f = ResponseFilter::new(&None, "404", None, None);
    assert!(vhost_hit(&f, baseline_of(&None), "x.t.com", &resp(200, None, None)).is_some());
}

#[test]
fn status_classes() {
    assert_eq!(status_class(200), StatusClass::Success);
    assert_eq!(status_class(299), StatusClass::Success);
    assert_eq!(status_class(301), StatusClass::Redirect);
    assert_eq!(status_class(404), StatusClass::ClientError);
    assert_eq!(status_class(503), StatusClass::ServerError);
    assert_eq!(status_class(199), StatusClass::Other);
    assert_eq!(status_class(600), StatusClass::Other);
}

#[test]
fn hit_line_format() {
    let hit = HitResult {
        url: "http://x/admin".to_string(),
        status: 403,
        length: 1234,
        redirect: None,
    };
    assert_eq!(hit_line(&hit), format!("{} [Status: {}] [Size: {}]", hit.url, hit.status, hit.length));
    assert_eq!(hit_line(&hit), "http://x/admin [Status: 403] [Size: 1234]");
}

#[test]
fn random_agent_comes_from_the_list() {
    let agents = user_agents();
    assert_eq!(agents.len(), 20);
    assert_eq!(request_user_agent(false, &agents), None);
    for _ in 0..50 {
        let a = request_user_agent(true, &agents).unwrap();
        assert!(agents.contains(&a));
    }
    assert_eq!(request_user_agent(true, &Vec::new()), None);
}

#[test]
fn settings_from_args() {
    let mut a = args();
    a.threads = 0;
    a.status_codes = Some("200".to_string());
    a.retries = 3;
    a.delay = 50;
    let s = scan_settings(&a);
    assert_eq!(s.concurrency, 1);
    assert_eq!(s.retries, 3);
    assert_eq!(s.delay_ms, 50);
    assert!(s.filter.allows(200, 0));
    assert!(!s.filter.allows(301, 0));
    a.threads = 40;
    assert_eq!(scan_settings(&a).concurrency, 40);
}

#[test]
fn vhost_domain_prefers_host_header() {
    let none: Vec<String> = Vec::new();
    assert_eq!(vhost_domain("http://target.com/", &none), "target.com");
    let hs = vec!["Host: paperwork.htb".to_string()];
    assert_eq!(vhost_domain("http://10.129.13.57", &hs), "paperwork.htb");
    let hs = vec![
        "HOST: first.htb".to_string(),
        "X-Other: 1".to_string(),
        "host: second.htb ".to_string(),
        "Host bad".to_string(),
    ];
    assert_eq!(vhost_domain("http://10.0.0.1", &hs), "second.htb");
}

#[test]
fn scan_log_keeps_hits_within_candidates() {
    let mut log = ScanLog::new(3);
    assert!(!log.is_complete());
    let hit = HitResult { url: "u".to_string(), status: 200, length: 1, redirect: None };
    log.record(Some(hit.clone()));
    log.record(None);
    log.record(Some(hit));
    assert_eq!(log.processed(), 3);
    assert_eq!(log.total(), 3);
    assert!(log.is_complete());
    let hits = log.into_hits();
    assert_eq!(hits.len(), 2);
}
