use vrit::index::{Index, IndexEntry};
use vrit::object::{Object, TreeEntry};
use vrit::tree::{mode_text, split_level, tree_object};

fn entry(path: &str) -> IndexEntry {
    IndexEntry { mode: 0o100644, sha: "ab".repeat(20), path: path.into() }
}

#[test]
fn one_level() {
    let mut index = Index::new();
    for p in ["b.txt", "src/z.rs", "src/a/b.rs", "a", "docs/x"] {
        index.add(entry(p));
    }
    let (files, dirs) = split_level(&index);
    let names: Vec<&str> = files.iter().map(|f| f.name.as_str()).collect();
    assert_eq!(names, vec!["a", "b.txt"]);
    assert_eq!(files[0].mode, "100644");
    let dnames: Vec<&str> = dirs.iter().map(|d| d.0.as_str()).collect();
    assert_eq!(dnames, vec!["docs", "src"]);
    let src: Vec<&str> = dirs[1].1.entries.iter().map(|e| e.path.as_str()).collect();
    assert_eq!(src, vec!["a/b.rs", "z.rs"]);
}

#[test]
fn tree_order() {
    let files = vec![
        TreeEntry { mode: "100644".into(), name: "b".into(), sha: "1".into() },
        TreeEntry { mode: "100644".into(), name: "a".into(), sha: "2".into() },
    ];
    let dirs = vec![("a".to_string(), "3".to_string()), ("A".to_string(), "4".to_string())];
    match tree_object(files, dirs) {
        Object::Tree(es) => {
            let got: Vec<(&str, &str)> = es.iter().map(|e| (e.name.as_str(), e.mode.as_str())).collect();
            assert_eq!(got, vec![("A", "40000"), ("a", "100644"), ("a", "40000"), ("b", "100644")]);
        }
        _ => panic!("expected a tree"),
    }
}

#[test]
fn octal_modes() {
    assert_eq!(mode_text(0o100644), "100644");
    assert_eq!(mode_text(0o100755), "100755");
    assert_eq!(mode_text(0), "0");
}

#[test]
fn tree_order_is_gits() {
    let files = vec![
        TreeEntry { mode: "100644".into(), name: "a.txt".into(), sha: "1".into() },
        TreeEntry { mode: "100644".into(), name: "a0".into(), sha: "2".into() },
    ];
    let dirs = vec![("a".to_string(), "3".to_string())];
    match tree_object(files, dirs) {
        Object::Tree(es) => {
            let got: Vec<&str> = es.iter().map(|e| e.name.as_str()).collect();
            // "a.txt" < "a/" < "a0" in byte order
            assert_eq!(got, vec!["a.txt", "a", "a0"]);
        }
        _ => panic!("expected a tree"),
    }
}
