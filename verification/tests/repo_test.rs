use vrit::object::TreeEntry;
use vrit::repo::{branch_lines, sort_names, check_head_ref, current_branch, flatten_entries, head_ref, octal_mode, ref_line, ref_value, validate_ref_name, FlatEntry};

#[test]
fn ref_names() {
    assert!(validate_ref_name("feature/x").is_ok());
    assert!(validate_ref_name("v1.0").is_ok());
    for bad in ["a..b", "/abs", "-flag", "nul\0", "dir/", "end.", "a//b"] {
        assert!(validate_ref_name(bad).is_err(), "{bad}");
    }
    assert_eq!(validate_ref_name("../x"), Err("invalid ref name: '../x'".to_string()));
}

#[test]
fn head_contents() {
    assert_eq!(head_ref("ref: refs/heads/main\n"), Some("refs/heads/main".to_string()));
    assert_eq!(head_ref("3b18e512dba79e4c8300dd08aeb37f8e728b8dad\n"), None);
    assert_eq!(current_branch("ref: refs/heads/dev\n"), Some("dev".to_string()));
    assert_eq!(current_branch("ref: refs/tags/x\n"), None);
    assert_eq!(ref_value("  abc\n"), "abc");
    assert_eq!(ref_line("abc"), "abc\n");
    assert!(check_head_ref("refs/heads/main").is_ok());
    assert_eq!(check_head_ref("../etc"), Err("invalid HEAD ref path: ../etc".to_string()));
    assert!(check_head_ref("refs/../x").is_err());
}

#[test]
fn modes() {
    assert_eq!(octal_mode("100644"), Some(0o100644));
    assert_eq!(octal_mode("+755"), Some(0o755));
    assert_eq!(octal_mode("8"), None);
    assert_eq!(octal_mode(""), None);
    assert_eq!(octal_mode("+"), None);
    assert_eq!(octal_mode("77777777777"), None);
}

#[test]
fn flatten_one_level() {
    let entries = vec![
        TreeEntry { mode: "100755".into(), name: "run.sh".into(), sha: "s1".into() },
        TreeEntry { mode: "40000".into(), name: "lib".into(), sha: "t1".into() },
        TreeEntry { mode: "bogus".into(), name: "odd".into(), sha: "s2".into() },
    ];
    let flat = flatten_entries(&entries, "top");
    match &flat[0] {
        FlatEntry::File(p, s, m) => assert_eq!((p.as_str(), s.as_str(), *m), ("top/run.sh", "s1", 0o100755)),
        _ => panic!("expected a file"),
    }
    match &flat[1] {
        FlatEntry::Tree(p, s) => assert_eq!((p.as_str(), s.as_str()), ("top/lib", "t1")),
        _ => panic!("expected a tree"),
    }
    match &flat[2] {
        FlatEntry::File(p, _, m) => assert_eq!((p.as_str(), *m), ("top/odd", 0o100644)),
        _ => panic!("expected a file"),
    }
    match &flatten_entries(&entries, "")[0] {
        FlatEntry::File(p, _, _) => assert_eq!(p, "run.sh"),
        _ => panic!("expected a file"),
    }
}

#[test]
fn names_sort_by_bytes() {
    let names = vec![
        "main".to_string(),
        "feature/b".to_string(),
        "Zeta".to_string(),
        "feature/a".to_string(),
        "main".to_string(),
    ];
    let sorted = sort_names(names);
    assert_eq!(sorted, vec!["Zeta", "feature/a", "feature/b", "main", "main"]);
    assert!(sort_names(Vec::new()).is_empty());
}

#[test]
fn branch_list_marks_current() {
    let branches = vec!["dev".to_string(), "main".to_string()];
    assert_eq!(branch_lines(&branches, Some("main")), vec!["  dev", "* main"]);
    assert_eq!(branch_lines(&branches, None), vec!["  dev", "  main"]);
    assert_eq!(branch_lines(&branches, Some("other")), vec!["  dev", "  main"]);
}
