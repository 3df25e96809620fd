use vrit::diff::{file_diff, file_diff_bytes, format_unified, is_binary, make_hunks, myers_diff, Edit};

#[test]
fn empty_diff() {
    let edits = myers_diff(&[], &[]);
    assert!(edits.is_empty());
}

#[test]
fn all_insertions() {
    let edits = myers_diff(&[], &["a", "b"]);
    assert_eq!(edits, vec![Edit::Insert("a".into()), Edit::Insert("b".into())]);
}

#[test]
fn all_deletions() {
    let edits = myers_diff(&["a", "b"], &[]);
    assert_eq!(edits, vec![Edit::Delete("a".into()), Edit::Delete("b".into())]);
}

#[test]
fn no_changes() {
    let edits = myers_diff(&["a", "b", "c"], &["a", "b", "c"]);
    assert_eq!(
        edits,
        vec![
            Edit::Equal("a".into()),
            Edit::Equal("b".into()),
            Edit::Equal("c".into()),
        ]
    );
}

#[test]
fn mixed_edits() {
    let old = vec!["a", "b", "c"];
    let new = vec!["a", "x", "c"];
    let edits = myers_diff(&old, &new);

    let has_delete_b = edits.iter().any(|e| *e == Edit::Delete("b".into()));
    let has_insert_x = edits.iter().any(|e| *e == Edit::Insert("x".into()));
    let has_equal_a = edits.iter().any(|e| *e == Edit::Equal("a".into()));
    let has_equal_c = edits.iter().any(|e| *e == Edit::Equal("c".into()));
    assert!(has_delete_b);
    assert!(has_insert_x);
    assert!(has_equal_a);
    assert!(has_equal_c);
}

#[test]
fn unified_format_output() {
    let old = vec!["a", "b", "c"];
    let new = vec!["a", "x", "c"];
    let edits = myers_diff(&old, &new);
    let output = format_unified("test.txt", "test.txt", &edits, false);
    assert!(output.contains("--- a/test.txt"));
    assert!(output.contains("+++ b/test.txt"));
    assert!(output.contains("@@"));
    assert!(output.contains("-b"));
    assert!(output.contains("+x"));
}

#[test]
fn binary_detection() {
    assert!(is_binary(&[0x00, 0x01, 0x02]));
    assert!(!is_binary(b"hello world"));
    assert!(!is_binary(&[]));
}

fn sides(edits: &[Edit]) -> (Vec<String>, Vec<String>) {
    let mut o = Vec::new();
    let mut n = Vec::new();
    for e in edits {
        match e {
            Edit::Equal(s) => {
                o.push(s.clone());
                n.push(s.clone());
            }
            Edit::Delete(s) => o.push(s.clone()),
            Edit::Insert(s) => n.push(s.clone()),
        }
    }
    (o, n)
}

#[test]
fn script_rebuilds_both_sides() {
    let old = vec!["a", "b", "c", "a", "b", "b", "a"];
    let new = vec!["c", "b", "a", "b", "a", "c"];
    let edits = myers_diff(&old, &new);
    let (o, n) = sides(&edits);
    assert_eq!(o, old);
    assert_eq!(n, new);
    let changes = edits.iter().filter(|e| !matches!(e, Edit::Equal(_))).count();
    assert_eq!(changes, 5);
}

#[test]
fn large_input_uses_plain_script() {
    let old: Vec<String> = (0..6000).map(|i| format!("l{i}")).collect();
    let new: Vec<String> = (0..5000).map(|i| format!("l{i}")).collect();
    let o: Vec<&str> = old.iter().map(|s| s.as_str()).collect();
    let n: Vec<&str> = new.iter().map(|s| s.as_str()).collect();
    let edits = myers_diff(&o, &n);
    assert_eq!(edits.len(), 11000);
    assert_eq!(edits[0], Edit::Delete("l0".into()));
    assert_eq!(edits[6000], Edit::Insert("l0".into()));
}

#[test]
fn hunks_with_context() {
    let old: Vec<String> = (1..=20).map(|i| i.to_string()).collect();
    let mut new = old.clone();
    new[1] = "x".into();
    new[17] = "y".into();
    let o: Vec<&str> = old.iter().map(|s| s.as_str()).collect();
    let n: Vec<&str> = new.iter().map(|s| s.as_str()).collect();
    let edits = myers_diff(&o, &n);
    let hunks = make_hunks(&edits, 3);
    assert_eq!(hunks.len(), 2);
    assert_eq!((hunks[0].old_start, hunks[0].old_count, hunks[0].new_start, hunks[0].new_count), (1, 5, 1, 5));
    assert_eq!((hunks[1].old_start, hunks[1].old_count, hunks[1].new_start, hunks[1].new_count), (15, 6, 15, 6));
    let merged = make_hunks(&edits, 8);
    assert_eq!(merged.len(), 1);
    assert!(make_hunks(&myers_diff(&o, &o), 3).is_empty());
}

#[test]
fn unified_exact_text() {
    let edits = myers_diff(&["a", "b", "c"], &["a", "x", "c"]);
    let out = format_unified("f", "f", &edits, false);
    assert_eq!(out, "--- a/f\n+++ b/f\n@@ -1,3 +1,3 @@\n a\n-b\n+x\n c\n");
    assert_eq!(format_unified("f", "f", &myers_diff(&["a"], &["a"]), false), "");
}

#[test]
fn unified_colored_text() {
    colored::control::set_override(true);
    let edits = myers_diff(&["a", "b"], &["a", "x"]);
    let out = format_unified("f", "f", &edits, true);
    colored::control::unset_override();
    assert!(out.contains("\x1b[1m--- a/f\x1b[0m\n"));
    assert!(out.contains("\x1b[36m@@ -1,2 +1,2 @@\x1b[0m\n"));
    assert!(out.contains("\x1b[31m-b\x1b[0m\n"));
    assert!(out.contains("\x1b[32m+x\x1b[0m\n"));
    assert!(out.contains("\n a\n"));
}

#[test]
fn binary_only_checks_first_block() {
    let mut data = vec![b'a'; 8192];
    data.push(0);
    assert!(!is_binary(&data));
    data[8191] = 0;
    assert!(is_binary(&data));
}

#[test]
fn one_file_diff() {
    assert_eq!(file_diff("p", Some("a\nb\n"), Some("a\nc\n"), false), "--- a/p\n+++ b/p\n@@ -1,2 +1,2 @@\n a\n-b\n+c\n");
    assert_eq!(file_diff("p", Some("x\0y"), None, false), "Binary files a/p and b/p differ\n");
    assert_eq!(file_diff("p", None, Some("new\n"), false), "--- a/p\n+++ b/p\n@@ -1,0 +1,1 @@\n+new\n");
    assert_eq!(file_diff("p", Some("same"), Some("same"), false), "");
}

#[test]
fn hunks_join_within_twice_context() {
    let script = |gap: usize| -> Vec<Edit> {
        let mut v = vec![Edit::Delete("a".into())];
        for i in 0..gap {
            v.push(Edit::Equal(format!("e{i}")));
        }
        v.push(Edit::Delete("b".into()));
        v
    };
    assert_eq!(make_hunks(&script(6), 3).len(), 1);
    assert_eq!(make_hunks(&script(7), 3).len(), 2);
    let apart = make_hunks(&script(7), 3);
    assert_eq!((apart[0].old_start, apart[0].old_count), (1, 4));
    assert_eq!((apart[1].old_start, apart[1].old_count), (6, 4));
}

#[test]
fn byte_level_file_diff() {
    // bytes that are not UTF-8 but hold a zero byte are reported as binary
    let raw: &[u8] = &[0xff, 0xfe, 0x00, 0x01];
    assert_eq!(file_diff_bytes("p", Some(raw), Some(b"text\n"), false), "Binary files a/p and b/p differ\n");
    assert_eq!(file_diff_bytes("p", Some(b"a\nb\n"), Some(b"a\nc\n"), false), "--- a/p\n+++ b/p\n@@ -1,2 +1,2 @@\n a\n-b\n+c\n");
    assert_eq!(file_diff_bytes("p", None, Some(b"new\n"), false), "--- a/p\n+++ b/p\n@@ -1,0 +1,1 @@\n+new\n");
}
