use gittracker::status::{parse_plus, parse_status, parse_usize, repo_status, status_from_output, unqueried_status};

fn chars(s: &str) -> Vec<char> {
    s.chars().collect()
}

#[test]
fn empty_output_gives_clean_record() {
    let r = parse_status(String::from("repo"), "");
    assert_eq!(r.path, "repo");
    assert_eq!(r.uncommitted_changes, 0);
    assert_eq!(r.unpushed_commits, 0);
    assert!(!r.has_upstream);
    assert!(!r.is_dirty);
}

#[test]
fn headers_without_entries_give_clean_record() {
    let out = "# branch.oid 0123abcd\n# branch.head main\n";
    let r = parse_status(String::from("repo"), out);
    assert_eq!(r.uncommitted_changes, 0);
    assert_eq!(r.unpushed_commits, 0);
    assert!(!r.has_upstream);
    assert!(!r.is_dirty);
}

#[test]
fn ahead_three_is_dirty_without_entries() {
    let out = "# branch.oid 0123abcd\n# branch.head main\n# branch.upstream origin/main\n# branch.ab +3 -0\n";
    let r = parse_status(String::from("repo"), out);
    assert_eq!(r.unpushed_commits, 3);
    assert_eq!(r.uncommitted_changes, 0);
    assert!(r.has_upstream);
    assert!(r.is_dirty);
}

#[test]
fn ahead_three_with_entries() {
    let out = "# branch.ab +3 -1\n1 .M N... 100644 100644 100644 aa bb src/a.rs\n";
    let r = parse_status(String::from("repo"), out);
    assert_eq!(r.unpushed_commits, 3);
    assert_eq!(r.uncommitted_changes, 1);
    assert!(!r.has_upstream);
    assert!(r.is_dirty);
}

#[test]
fn three_records_without_ahead_header() {
    let out = "# branch.head main\n1 .M N... 100644 100644 100644 aa bb a.txt\n\
               2 R. N... 100644 100644 100644 aa bb R100 new.txt\told.txt\n? notes.txt\n";
    let r = parse_status(String::from("repo"), out);
    assert_eq!(r.uncommitted_changes, 3);
    assert_eq!(r.unpushed_commits, 0);
    assert!(r.is_dirty);
}

#[test]
fn every_record_marker_counts() {
    let out = "1 a\n2 b\nu c\n? d\n! ignored\nx unknown\n1\n";
    let r = parse_status(String::from("repo"), out);
    assert_eq!(r.uncommitted_changes, 4);
}

#[test]
fn crlf_lines_are_read() {
    let out = "# branch.upstream origin/main\r\n# branch.ab +2 -0\r\n? a\r\n";
    let r = parse_status(String::from("repo"), out);
    assert!(r.has_upstream);
    assert_eq!(r.unpushed_commits, 2);
    assert_eq!(r.uncommitted_changes, 1);
}

#[test]
fn last_ahead_header_wins() {
    let out = "# branch.ab +5 -0\n# branch.ab +2 -0\n";
    let r = parse_status(String::from("repo"), out);
    assert_eq!(r.unpushed_commits, 2);
}

#[test]
fn malformed_ahead_keeps_prior_value() {
    let out = "# branch.ab +7 -0\n# branch.ab +x -0\n";
    let r = parse_status(String::from("repo"), out);
    assert_eq!(r.unpushed_commits, 7);
    let r = parse_status(String::from("repo"), "# branch.ab +x -0\n");
    assert_eq!(r.unpushed_commits, 0);
    assert!(!r.is_dirty);
}

#[test]
fn header_needs_its_separating_space() {
    let r = parse_status(String::from("repo"), "# branch.upstream\n# branch.ab+3\n");
    assert!(!r.has_upstream);
    assert_eq!(r.unpushed_commits, 0);
}

#[test]
fn unsigned_integers_are_read() {
    assert_eq!(parse_usize(&chars("0")), Some(0));
    assert_eq!(parse_usize(&chars("42")), Some(42));
    assert_eq!(parse_usize(&chars("+42")), Some(42));
    assert_eq!(parse_usize(&chars("")), None);
    assert_eq!(parse_usize(&chars("+")), None);
    assert_eq!(parse_usize(&chars("-1")), None);
    assert_eq!(parse_usize(&chars("4a")), None);
    let max = usize::MAX.to_string();
    assert_eq!(parse_usize(&chars(&max)), Some(usize::MAX));
    let over = format!("{}0", max);
    assert_eq!(parse_usize(&chars(&over)), None);
}

#[test]
fn plus_words_are_read() {
    assert_eq!(parse_plus(&chars("+3")), Some(3));
    assert_eq!(parse_plus(&chars("++3")), Some(3));
    assert_eq!(parse_plus(&chars("3")), None);
    assert_eq!(parse_plus(&chars("-3")), None);
}

#[test]
fn failed_query_gives_zeroed_record() {
    let r = repo_status(String::from("/src/broken"), None);
    assert_eq!(r.path, "/src/broken");
    assert!(!r.is_dirty);
    assert_eq!(r.uncommitted_changes, 0);
    assert_eq!(r.unpushed_commits, 0);
    assert!(!r.has_upstream);
    let u = unqueried_status(String::from("x"));
    assert!(!u.is_dirty);
}

#[test]
fn output_bytes_are_decoded() {
    let bytes = b"# branch.upstream origin/main\n? caf\xff.txt\n".to_vec();
    let r = status_from_output(String::from("repo"), &bytes);
    assert!(r.has_upstream);
    assert_eq!(r.uncommitted_changes, 1);
    let r = repo_status(String::from("repo"), Some(b"# branch.ab +4 -0\n".to_vec()));
    assert_eq!(r.unpushed_commits, 4);
    assert!(r.is_dirty);
}

#[test]
fn whitespace_matches_unicode_property() {
    for code in 0u32..0x3100 {
        if let Some(c) = char::from_u32(code) {
            assert_eq!(gittracker::status::is_space(c), c.is_whitespace(), "{:?}", c);
        }
    }
    assert!(!gittracker::status::is_space('\u{feff}'));
}

#[test]
fn chars_are_kept_in_order() {
    assert_eq!(gittracker::status::chars_of("a\u{e9}\n"), vec!['a', '\u{e9}', '\n']);
    assert!(gittracker::status::chars_of("").is_empty());
}
