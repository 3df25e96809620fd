use vrit::index::{Index, IndexEntry};

#[test]
fn roundtrip_empty() {
    let index = Index::new();
    let data = index.serialize();
    let parsed = Index::deserialize(&data).unwrap();
    assert_eq!(parsed.entries.len(), 0);
}

#[test]
fn roundtrip_with_entries() {
    let mut index = Index::new();
    index.add(IndexEntry {
        mode: 0o100644,
        sha: "3b18e512dba79e4c8300dd08aeb37f8e728b8dad".into(),
        path: "hello.txt".into(),
    });
    index.add(IndexEntry {
        mode: 0o100644,
        sha: "aaaaaaaaaaaaaaaaaaaaaaaaaaaaaaaaaaaaaaaa".into(),
        path: "src/main.rs".into(),
    });

    let data = index.serialize();
    let parsed = Index::deserialize(&data).unwrap();
    assert_eq!(parsed.entries.len(), 2);
    assert_eq!(parsed.entries[0].path, "hello.txt");
    assert_eq!(parsed.entries[1].path, "src/main.rs");
    assert_eq!(parsed.entries[0].sha, "3b18e512dba79e4c8300dd08aeb37f8e728b8dad");
}

#[test]
fn add_updates_existing() {
    let mut index = Index::new();
    index.add(IndexEntry {
        mode: 0o100644,
        sha: "aaaa".repeat(10),
        path: "foo.txt".into(),
    });
    index.add(IndexEntry {
        mode: 0o100644,
        sha: "bbbb".repeat(10),
        path: "foo.txt".into(),
    });
    assert_eq!(index.entries.len(), 1);
    assert_eq!(index.entries[0].sha, "bbbb".repeat(10));
}

#[test]
fn remove_entry() {
    let mut index = Index::new();
    index.add(IndexEntry {
        mode: 0o100644,
        sha: "aaaa".repeat(10),
        path: "foo.txt".into(),
    });
    assert!(index.remove("foo.txt"));
    assert!(!index.remove("foo.txt"));
    assert_eq!(index.entries.len(), 0);
}

#[test]
fn entries_stay_sorted() {
    let mut index = Index::new();
    index.add(IndexEntry {
        mode: 0o100644,
        sha: "aaaa".repeat(10),
        path: "z.txt".into(),
    });
    index.add(IndexEntry {
        mode: 0o100644,
        sha: "bbbb".repeat(10),
        path: "a.txt".into(),
    });
    index.add(IndexEntry {
        mode: 0o100644,
        sha: "cccc".repeat(10),
        path: "m.txt".into(),
    });
    let paths: Vec<&str> = index.entries.iter().map(|e| e.path.as_str()).collect();
    assert_eq!(paths, vec!["a.txt", "m.txt", "z.txt"]);
}

fn entry(path: &str, c: char) -> IndexEntry {
    IndexEntry { mode: 0o100644, sha: c.to_string().repeat(40), path: path.into() }
}

#[test]
fn get_after_add_and_remove() {
    let mut index = Index::new();
    index.add(entry("b", 'b'));
    index.add(entry("a", 'a'));
    assert_eq!(index.get("a").unwrap().sha, "a".repeat(40));
    assert_eq!(index.get("b").unwrap().sha, "b".repeat(40));
    assert!(index.get("c").is_none());
    assert!(index.remove("a"));
    assert!(index.get("a").is_none());
    assert_eq!(index.get("b").unwrap().path, "b");
}

#[test]
fn remove_dir_prefix() {
    let mut index = Index::new();
    index.add(entry("src/a.rs", 'a'));
    index.add(entry("src/b/c.rs", 'b'));
    index.add(entry("srcx/d.rs", 'c'));
    index.add(entry("top.txt", 'd'));
    index.remove_dir("src");
    let paths: Vec<&str> = index.entries.iter().map(|e| e.path.as_str()).collect();
    assert_eq!(paths, vec!["srcx/d.rs", "top.txt"]);
    index.remove_dir("srcx/");
    assert_eq!(index.entries.len(), 1);
}

#[test]
fn serialized_bytes() {
    let mut index = Index::new();
    index.add(IndexEntry { mode: 0o100644, sha: "00".repeat(20), path: "ab".into() });
    let data = index.serialize();
    let mut expected = vec![1u8, 0, 0, 0, 1, 0, 0, 0x81, 0xa4];
    expected.extend_from_slice(&[0u8; 20]);
    expected.extend_from_slice(&[0, 2, b'a', b'b']);
    assert_eq!(data, expected);
}

#[test]
fn deserialize_errors() {
    assert!(Index::deserialize(&[]).is_err());
    assert!(Index::deserialize(&[2, 0, 0, 0, 0]).is_err());
    assert!(Index::deserialize(&[1, 0, 0]).is_err());
    assert!(Index::deserialize(&[1, 0, 0, 0, 1, 0, 0]).is_err());
    let mut bad = vec![1u8, 0, 0, 0, 1, 0, 0, 0x81, 0xa4];
    bad.extend_from_slice(&[0u8; 20]);
    bad.extend_from_slice(&[0, 1, 0xff]);
    assert!(Index::deserialize(&bad).is_err());
    assert_eq!(Index::deserialize(&[1, 0, 0, 0, 0, 9, 9]).unwrap().entries.len(), 0);
}

#[test]
fn deserialize_error_messages() {
    assert_eq!(Index::deserialize(&[]).unwrap_err(), "truncated index");
    assert_eq!(Index::deserialize(&[7]).unwrap_err(), "unsupported index version: 7");
    assert_eq!(Index::deserialize(&[1, 0, 0]).unwrap_err(), "truncated index header");
    assert_eq!(Index::deserialize(&[1, 0, 0, 0, 1, 0, 0]).unwrap_err(), "truncated index entry");
    let mut data = vec![1u8, 0, 0, 0, 1, 0, 0, 0x81, 0xa4];
    assert_eq!(Index::deserialize(&data).unwrap_err(), "truncated index entry sha");
    data.extend_from_slice(&[0u8; 20]);
    assert_eq!(Index::deserialize(&data).unwrap_err(), "truncated index entry path length");
    data.extend_from_slice(&[0, 2, b'a']);
    assert_eq!(Index::deserialize(&data).unwrap_err(), "truncated index entry path");
    data.pop();
    data.extend_from_slice(&[0xff, 0xfe]);
    assert_eq!(Index::deserialize(&data).unwrap_err(), "invalid UTF-8 in index path");
}

#[test]
fn remove_keeps_other_entries_in_order() {
    let mut index = Index::new();
    for p in ["c.txt", "a.txt", "b.txt"] {
        index.add(IndexEntry { mode: 0o100644, sha: "bbbb".repeat(10), path: p.into() });
    }
    assert!(index.remove("b.txt"));
    let paths: Vec<&str> = index.entries.iter().map(|e| e.path.as_str()).collect();
    assert_eq!(paths, vec!["a.txt", "c.txt"]);
    assert!(!index.remove("b.txt"));
    assert_eq!(index.entries.len(), 2);
}
