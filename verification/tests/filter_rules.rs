use std::collections::HashSet;
use zyraxbuster::filter::{parse_code_set, should_report, ResponseFilter};

fn set(v: &[u16]) -> HashSet<u16> {
    v.iter().copied().collect()
}

#[test]
fn default_blacklist_is_404() {
    assert_eq!(parse_code_set("404"), set(&[404]));
}

#[test]
fn code_set_ignores_junk_entries() {
    assert_eq!(parse_code_set(" 200, 301,302,abc,70000,+5,,-1"), set(&[200, 301, 302, 5]));
    assert!(parse_code_set("").is_empty());
}

#[test]
fn blacklist_hides_codes() {
    let bl = set(&[404, 403]);
    assert!(!should_report(404, &None, &bl, 10, None, None));
    assert!(!should_report(403, &None, &bl, 10, None, None));
    assert!(should_report(200, &None, &bl, 10, None, None));
}

#[test]
fn whitelist_overrides_blacklist() {
    let wl = Some(set(&[200, 404]));
    let bl = set(&[404]);
    assert!(should_report(404, &wl, &bl, 0, None, None));
    assert!(!should_report(500, &wl, &bl, 0, None, None));
}

#[test]
fn length_filters() {
    let bl = set(&[]);
    assert!(!should_report(200, &None, &bl, 499, Some(500), None));
    assert!(should_report(200, &None, &bl, 500, Some(500), None));
    assert!(!should_report(200, &None, &bl, 1024, None, Some(1024)));
    assert!(should_report(200, &None, &bl, 1025, None, Some(1024)));
}

#[test]
fn filter_from_options() {
    let f = ResponseFilter::new(&Some("200,301".to_string()), "404", Some(5), None);
    assert_eq!(f.whitelist, Some(set(&[200, 301])));
    assert_eq!(f.blacklist, set(&[404]));
    assert!(f.allows(301, 5));
    assert!(!f.allows(404, 5));
    assert!(!f.allows(200, 4));
    let g = ResponseFilter::new(&None, "404,500", None, None);
    assert!(g.whitelist.is_none());
    assert!(g.allows(302, 0));
    assert!(!g.allows(500, 0));
}
