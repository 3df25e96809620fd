use vrit::index::{Index, IndexEntry};
use vrit::worktree::{
    first_blocking_entry, has_local_changes, index_matches_head, unstaged_changes, is_under_added_dir, paths_to_remove, signature, staged_changes, stash_list_line, summary_line,
    with_newline,
};

fn pairs(v: &[(&str, &str)]) -> Vec<(String, String)> {
    v.iter().map(|(a, b)| (a.to_string(), b.to_string())).collect()
}

#[test]
fn staged_against_head() {
    let mut index = Index::new();
    index.add(IndexEntry { mode: 0o100644, sha: "1".into(), path: "same".into() });
    index.add(IndexEntry { mode: 0o100644, sha: "2".into(), path: "changed".into() });
    index.add(IndexEntry { mode: 0o100644, sha: "3".into(), path: "added".into() });
    let head = pairs(&[("same", "1"), ("changed", "9"), ("gone", "4")]);
    let (new, modified, deleted) = staged_changes(&index, &head);
    assert_eq!(new, vec!["added".to_string()]);
    assert_eq!(modified, vec!["changed".to_string()]);
    assert_eq!(deleted, vec!["gone".to_string()]);
}

#[test]
fn files_leaving_on_switch() {
    let current = pairs(&[("a", "1"), ("b", "2"), ("c", "3")]);
    let target = pairs(&[("b", "9")]);
    assert_eq!(paths_to_remove(&current, &target), vec!["a".to_string(), "c".to_string()]);
}

#[test]
fn commit_texts() {
    assert_eq!(with_newline("msg"), "msg\n");
    assert_eq!(with_newline("msg\n"), "msg\n");
    assert_eq!(signature("Ada", "ada@x.org", 1234567890), "Ada <ada@x.org> 1234567890 +0000");
    assert_eq!(summary_line("first\r\nsecond\n"), "first");
    assert_eq!(summary_line(""), "");
}

#[test]
fn added_directories() {
    assert!(is_under_added_dir("src/a.rs", "src"));
    assert!(is_under_added_dir("anything", "."));
    assert!(!is_under_added_dir("lib/a.rs", "src"));
    assert!(!is_under_added_dir("dir2.txt", "dir"));
    assert!(is_under_added_dir("dir", "dir"));
    assert!(is_under_added_dir("dir/x/y", "dir"));
}

#[test]
fn index_against_head_files() {
    let mut index = Index::new();
    index.add(IndexEntry { mode: 0o100644, sha: "1".into(), path: "a".into() });
    index.add(IndexEntry { mode: 0o100644, sha: "2".into(), path: "b".into() });
    assert!(index_matches_head(&index, &pairs(&[("b", "2"), ("a", "1")])));
    assert!(!index_matches_head(&index, &pairs(&[("a", "1"), ("b", "3")])));
    assert!(!index_matches_head(&index, &pairs(&[("a", "1")])));
    assert!(!index_matches_head(&index, &pairs(&[("a", "1"), ("b", "2"), ("c", "3")])));
    // a path listed twice counts once, and its first blob is the one compared
    assert!(index_matches_head(&index, &pairs(&[("a", "1"), ("b", "2"), ("a", "0")])));
    assert!(!index_matches_head(&index, &pairs(&[("a", "0"), ("b", "2"), ("a", "1")])));
    assert!(index_matches_head(&Index::new(), &[]));
}

#[test]
fn stash_list_lines() {
    assert_eq!(stash_list_line(0, "stash\n"), "stash@{0}: stash");
    assert_eq!(stash_list_line(12, "WIP on main\nmore"), "stash@{12}: WIP on main");
    assert_eq!(stash_list_line(3, ""), "stash@{3}: stash");
}

#[test]
fn checkout_refuses_to_overwrite_local_changes() {
    let mut index = Index::new();
    for (p, sha) in [("a.txt", "s1"), ("b.txt", "s2"), ("c.txt", "s3")] {
        index.add(IndexEntry { mode: 0o100644, sha: sha.into(), path: p.into() });
    }
    let target = vec![("a.txt".to_string(), "t1".to_string()), ("b.txt".to_string(), "s2".to_string())];
    // a.txt clean, b.txt changed but the target keeps its staged blob, c.txt missing
    let disk = vec![Some("s1".to_string()), Some("zz".to_string()), None];
    assert_eq!(first_blocking_entry(&index, &disk, &target), None);
    // c.txt changed on disk and absent from the target
    let disk = vec![Some("s1".to_string()), Some("zz".to_string()), Some("yy".to_string())];
    assert_eq!(first_blocking_entry(&index, &disk, &target), Some(2));
    // a.txt changed and the target has another blob there
    let disk = vec![Some("xx".to_string()), None, Some("yy".to_string())];
    assert_eq!(first_blocking_entry(&index, &disk, &target), Some(0));
}

#[test]
fn unstaged_changes_and_local_changes() {
    let mut index = Index::new();
    for (p, sha) in [("a.txt", "s1"), ("b.txt", "s2"), ("c.txt", "s3")] {
        index.add(IndexEntry { mode: 0o100644, sha: sha.into(), path: p.into() });
    }
    let disk = vec![Some("s1".to_string()), Some("zz".to_string()), None];
    let (modified, deleted) = unstaged_changes(&index, &disk);
    assert_eq!(modified, vec!["b.txt".to_string()]);
    assert_eq!(deleted, vec!["c.txt".to_string()]);
    let head = pairs(&[("a.txt", "s1"), ("b.txt", "s2"), ("c.txt", "s3")]);
    assert!(has_local_changes(&index, &disk, &head));
    let clean = vec![Some("s1".to_string()), Some("s2".to_string()), Some("s3".to_string())];
    assert!(!has_local_changes(&index, &clean, &head));
    // staged but not committed counts as a change
    assert!(has_local_changes(&index, &clean, &pairs(&[("a.txt", "s1"), ("b.txt", "s2")])));
}
