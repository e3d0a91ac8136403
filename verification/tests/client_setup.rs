use zyraxbuster::cli::Args;
use zyraxbuster::client::{client_config, header_entry, parse_headers, HEADER_MAP_ROOM};

fn args() -> Args {
    Args {
        url: Some("http://target.com".to_string()),
        wordlist: None,
        threads: 40,
        extensions: None,
        status_codes: None,
        blacklist_codes: "404".to_string(),
        timeout: 10,
        follow_redirects: false,
        user_agent: "zyraxbuster/0.1".to_string(),
        random_agent: false,
        add_slash: false,
        output: None,
        json: false,
        min_length: None,
        exclude_length: None,
        header: Vec::new(),
        insecure: false,
        retries: 1,
        delay: 0,
        list_wordlists: false,
        vhost: false,
        auto_filter: false,
    }
}

fn pair(a: &str, b: &str) -> (String, String) {
    (a.to_string(), b.to_string())
}

fn entries(m: &reqwest::header::HeaderMap) -> Vec<(String, String)> {
    m.iter()
        .map(|(k, v)| (k.as_str().to_string(), v.to_str().unwrap().to_string()))
        .collect()
}

#[test]
fn header_line_is_split_at_first_colon_and_trimmed() {
    assert_eq!(header_entry("X-Token: abc "), Some(pair("x-token", "abc")));
    assert_eq!(header_entry("Authorization: Bearer a:b"), Some(pair("authorization", "Bearer a:b")));
    assert_eq!(header_entry("  Cookie :session=1"), Some(pair("cookie", "session=1")));
}

#[test]
fn invalid_header_lines_are_dropped() {
    assert_eq!(header_entry("NoColon"), None);
    assert_eq!(header_entry(": value"), None);
    assert_eq!(header_entry("Bad Name: v"), None);
    assert_eq!(header_entry("K: v\u{7f}"), None);
    assert_eq!(header_entry("K: v\u{1}"), None);
    assert_eq!(header_entry("K: héllo"), Some(pair("k", "héllo")));
    assert_eq!(header_entry("K:"), Some(pair("k", "")));
}

#[test]
fn header_names_match_http_normalization() {
    for name in ["X-Custom", "ACCEPT", "a!#$%&'*+-.^_`|~z", "Bad(Name", "x y", "ünï"] {
        let ours = header_entry(&format!("{}: v", name)).map(|(n, _)| n);
        let theirs = reqwest::header::HeaderName::from_bytes(name.as_bytes())
            .ok()
            .map(|n| n.as_str().to_string());
        assert_eq!(ours, theirs, "name {:?}", name);
    }
}

#[test]
fn later_header_replaces_earlier() {
    let lines: Vec<String> = ["A: 1", "B: 2", "a: 3", "junk", "C: 4"].iter().map(|s| s.to_string()).collect();
    assert_eq!(entries(&parse_headers(&lines).unwrap()), vec![pair("a", "3"), pair("b", "2"), pair("c", "4")]);
}

#[test]
fn client_config_from_args() {
    let mut a = args();
    let c = client_config(&a).unwrap();
    assert_eq!(c.redirect_limit, None);
    assert_eq!(c.timeout_secs, 10);
    assert_eq!(c.user_agent, "zyraxbuster/0.1");
    assert!(c.headers.is_empty());
    a.follow_redirects = true;
    a.insecure = true;
    a.header = vec!["Host: paperwork.htb".to_string()];
    let c = client_config(&a).unwrap();
    assert_eq!(c.redirect_limit, Some(5));
    assert!(c.insecure);
    assert_eq!(entries(&c.headers), vec![pair("host", "paperwork.htb")]);
}

#[test]
fn many_copies_of_one_header_make_one_entry() {
    let mut a = args();
    a.header = vec!["X-Api-Key: k".to_string(); 7000];
    a.header.extend(vec!["garbage line".to_string(); 7000]);
    let c = client_config(&a).unwrap();
    assert_eq!(entries(&c.headers), vec![pair("x-api-key", "k")]);
    assert_eq!(c.timeout_secs, 10);
}

#[test]
fn too_many_distinct_header_names_give_no_config() {
    let room: Vec<String> = (0..HEADER_MAP_ROOM).map(|i| format!("h{}: v", i)).collect();
    let m = parse_headers(&room).unwrap();
    assert_eq!(m.len(), HEADER_MAP_ROOM);
    // Beyond the guaranteed room the map decides; the original's insert would
    // panic exactly where the library reports `None`.
    let mut over = room.clone();
    over.push("one-more: v".to_string());
    let reference = {
        let mut m = reqwest::header::HeaderMap::new();
        let mut ok = true;
        for line in &over {
            let (k, v) = line.split_once(':').unwrap();
            let name = reqwest::header::HeaderName::from_bytes(k.trim().as_bytes()).unwrap();
            let val = reqwest::header::HeaderValue::from_str(v.trim()).unwrap();
            if m.try_insert(name, val).is_err() {
                ok = false;
                break;
            }
        }
        ok
    };
    assert_eq!(parse_headers(&over).is_some(), reference);
    let mut a = args();
    a.header = over;
    assert_eq!(client_config(&a).is_some(), reference);
}

#[test]
fn header_map_full_gives_no_config() {
    // A header map holds at most 24576 entries, whatever the names' hashes.
    let lines: Vec<String> = (0..25000).map(|i| format!("n{}: v", i)).collect();
    assert!(parse_headers(&lines).is_none());
}
