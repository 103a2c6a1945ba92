use gittracker::locate::{is_git_marker, is_marker_name, skips_contents, EntryKind};
use gittracker::report::{any_dirty, scan_totals};
use gittracker::status::{parse_status, repo_status};

#[test]
fn marker_entries_are_recognized() {
    assert!(is_marker_name(".git"));
    assert!(!is_marker_name(".gitignore"));
    assert!(!is_marker_name("git"));
    assert!(is_git_marker(".git", EntryKind::Dir));
    assert!(is_git_marker(".git", EntryKind::File));
    assert!(!is_git_marker(".git", EntryKind::Symlink));
    assert!(!is_git_marker(".git", EntryKind::Other));
    assert!(!is_git_marker("src", EntryKind::Dir));
}

#[test]
fn only_marker_directories_are_pruned() {
    assert!(skips_contents(".git", EntryKind::Dir));
    assert!(!skips_contents(".git", EntryKind::File));
    assert!(!skips_contents(".git", EntryKind::Symlink));
    assert!(!skips_contents("src", EntryKind::Dir));
}

#[test]
fn two_repositories_end_to_end() {
    let clean = "# branch.oid 1111\n# branch.head main\n";
    let dirty = "# branch.oid 2222\n# branch.head main\n# branch.upstream origin/main\n\
                 # branch.ab +0 -0\n1 .M N... 100644 100644 100644 aa bb a.txt\n? b.txt\n";
    let statuses = vec![
        parse_status(String::from("root/clean"), clean),
        parse_status(String::from("root/dirty"), dirty),
    ];
    assert!(!statuses[0].is_dirty);
    assert_eq!(statuses[1].uncommitted_changes, 2);
    assert!(statuses[1].has_upstream);
    assert_eq!(statuses[1].unpushed_commits, 0);
    assert!(statuses[1].is_dirty);
    let t = scan_totals(&statuses);
    assert_eq!(t.total, 2);
    assert_eq!(t.dirty, 1);
    assert_eq!(t.clean, 1);
    assert_eq!(t.with_uncommitted, 1);
    assert_eq!(t.with_unpushed, 0);
    assert!(any_dirty(&statuses));
}

#[test]
fn failed_query_does_not_stop_the_scan() {
    let statuses = vec![
        repo_status(String::from("a"), None),
        repo_status(String::from("b"), Some(b"# branch.ab +1 -0\n? x\n".to_vec())),
    ];
    assert_eq!(statuses.len(), 2);
    assert!(!statuses[0].is_dirty);
    assert!(statuses[1].is_dirty);
    let t = scan_totals(&statuses);
    assert_eq!(t.dirty, 1);
    assert_eq!(t.with_uncommitted, 1);
    assert_eq!(t.with_unpushed, 1);
}

#[test]
fn empty_scan_has_no_dirty_repository() {
    let t = scan_totals(&Vec::new());
    assert_eq!(t.total, 0);
    assert_eq!(t.dirty, 0);
    assert_eq!(t.clean, 0);
    assert!(!any_dirty(&Vec::new()));
}
