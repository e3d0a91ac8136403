use std::path::Path;
use zyraxbuster::wordlist::{
    auto_detect_choice, build_candidates, expand_home, first_existing, is_wordlist_file,
    parse_extensions, parse_wordlist, resolution_candidates, resolve_wordlist_choice, wordlist_dirs,
    wordlist_search_paths,
};

fn strings(v: &[&str]) -> Vec<String> {
    v.iter().map(|x| x.to_string()).collect()
}

/// The reading rule spelled with std: lines, trimmed, blanks and comments dropped.
fn reference_words(content: &str) -> Vec<String> {
    content
        .lines()
        .map(|l| l.trim())
        .filter(|l| !l.is_empty() && !l.starts_with('#'))
        .map(|l| l.to_string())
        .collect()
}

#[test]
fn parse_wordlist_skips_comments_and_blanks() {
    let content = "# comment\nadmin\n\n  login  \r\n#hidden\nbackup.zip\n   \n";
    assert_eq!(parse_wordlist(content), strings(&["admin", "login", "backup.zip"]));
}

#[test]
fn parse_wordlist_matches_lines_rule() {
    let samples = [
        "",
        "\n",
        "a",
        "a\nb",
        "a\r\nb\r\n",
        "a\rb\n",
        "  # not a comment?\n#c\n x y \n",
        "last-without-newline",
        "\t\ttabbed\t\n\u{00A0}nbsp\u{00A0}\n",
        "a\r",
    ];
    for sample in samples {
        assert_eq!(parse_wordlist(sample), reference_words(sample), "sample {:?}", sample);
    }
}

#[test]
fn parse_wordlist_reparse_is_stable() {
    let content = "  one\n# two\nthree \r\n\n four";
    let words = parse_wordlist(content);
    let text: String = words.iter().map(|w| format!("{}\n", w)).collect();
    assert_eq!(parse_wordlist(&text), words);
}

#[test]
fn extensions_are_trimmed_and_undotted() {
    let exts = parse_extensions(&Some(" php, .html,,..bak , ".to_string()));
    assert_eq!(exts, strings(&["php", "html", "bak"]));
    assert!(parse_extensions(&None).is_empty());
    assert_eq!(parse_extensions(&Some(". php".to_string())), strings(&[" php"]));
}

#[test]
fn build_candidates_words_then_extensions() {
    let words = strings(&["admin", "login/"]);
    let cands = build_candidates(&words, &Some("php,html".to_string()), true);
    assert_eq!(
        cands,
        strings(&[
            "admin/",
            "admin.php",
            "admin.html",
            "login/",
            "login/.php",
            "login/.html"
        ])
    );
}

#[test]
fn build_candidates_without_extensions_or_slash() {
    let words = strings(&["a", "b/", "c"]);
    assert_eq!(build_candidates(&words, &None, false), words);
}

#[test]
fn build_candidates_count_law() {
    let words = strings(&["w1", "w2", "w3", "w4"]);
    let cands = build_candidates(&words, &Some("a,b,c".to_string()), false);
    assert_eq!(cands.len(), words.len() * (1 + 3));
}

#[test]
fn search_paths_in_priority_order() {
    let paths = wordlist_search_paths();
    assert_eq!(paths.len(), 12);
    assert_eq!(paths[0], "/usr/share/wordlists/seclists/Discovery/Web-Content/common.txt");
    assert_eq!(paths[11], "/usr/share/wordlists/rockyou.txt");
    assert_eq!(wordlist_dirs().len(), 4);
}

#[test]
fn auto_detect_picks_first_existing() {
    let mut flags = vec![false; 12];
    assert_eq!(auto_detect_choice(&flags), None);
    flags[3] = true;
    flags[10] = true;
    assert_eq!(
        auto_detect_choice(&flags),
        Some("/usr/share/seclists/Discovery/Web-Content/raft-large-directories.txt".to_string())
    );
}

#[test]
fn first_existing_ignores_unflagged_tail() {
    let paths = strings(&["a", "b", "c"]);
    assert_eq!(first_existing(&paths, &vec![false, true]), Some("b".to_string()));
    assert_eq!(first_existing(&paths, &vec![false, false]), None);
    assert_eq!(first_existing(&strings(&["a"]), &vec![false, true]), None);
}

#[test]
fn expand_home_replaces_tilde_slash() {
    let home = Some("/home/u".to_string());
    assert_eq!(expand_home("~/lists/a.txt", &home), "/home/u/lists/a.txt");
    assert_eq!(expand_home("~/lists/a.txt", &None), "~/lists/a.txt");
    assert_eq!(expand_home("~user/a.txt", &home), "~user/a.txt");
    assert_eq!(expand_home("/abs/a.txt", &home), "/abs/a.txt");
}

#[test]
fn resolution_candidates_in_order() {
    let cands = resolution_candidates("common.txt", &None);
    assert_eq!(
        cands,
        strings(&[
            "common.txt",
            "/usr/share/wordlists/seclists/Discovery/Web-Content/common.txt",
            "/usr/share/seclists/Discovery/Web-Content/common.txt",
            "/usr/share/wordlists/common.txt",
            "/usr/share/dirbuster/wordlists/common.txt",
        ])
    );
}

#[test]
fn resolve_prefers_given_path_then_dirs_then_falls_back() {
    let home = Some("/root".to_string());
    assert_eq!(resolve_wordlist_choice("~/w.txt", &home, &vec![true, true]), "/root/w.txt");
    assert_eq!(
        resolve_wordlist_choice("w.txt", &home, &vec![false, false, true, true, false]),
        "/usr/share/seclists/Discovery/Web-Content/w.txt"
    );
    assert_eq!(resolve_wordlist_choice("~/w.txt", &home, &vec![false; 5]), "/root/w.txt");
}

#[test]
fn wordlist_file_extension_rule() {
    let names = [
        "a.txt", ".txt", "a.TXT", "a.b.lst", "txt", "a.txt.bak", "x.lst", "..", ".", "a.", ".a.txt",
        "a..txt",
    ];
    for name in names {
        let reference = Path::new(name).extension().map_or(false, |e| e == "txt" || e == "lst");
        assert_eq!(is_wordlist_file(name), reference, "name {:?}", name);
    }
}
