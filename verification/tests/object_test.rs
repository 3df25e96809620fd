use vrit::object::{bytes_to_hex, hex_to_bytes, object_location, parse_object, validate_sha, CommitData, Object, TagData, TreeEntry};

#[test]
fn blob_roundtrip() {
    let content = b"hello world\n";
    let blob = Object::Blob(content.to_vec());
    let serialized = blob.serialize();
    let parsed = parse_object(&serialized).unwrap();
    assert_eq!(blob, parsed);
}

#[test]
fn blob_sha_matches_git() {
    let blob = Object::Blob(b"hello world\n".to_vec());
    assert_eq!(blob.sha(), "3b18e512dba79e4c8300dd08aeb37f8e728b8dad");
}

#[test]
fn tree_serialization_roundtrip() {
    let entries = vec![
        TreeEntry {
            mode: "100644".into(),
            name: "hello.txt".into(),
            sha: "3b18e512dba79e4c8300dd08aeb37f8e728b8dad".into(),
        },
        TreeEntry {
            mode: "40000".into(),
            name: "subdir".into(),
            sha: "aaaaaaaaaaaaaaaaaaaaaaaaaaaaaaaaaaaaaaaa".into(),
        },
    ];
    let tree = Object::Tree(entries.clone());
    let serialized = tree.serialize();
    let parsed = parse_object(&serialized).unwrap();
    assert_eq!(Object::Tree(entries), parsed);
}

#[test]
fn commit_roundtrip() {
    let commit = Object::Commit(CommitData {
        tree: "abc123".repeat(7)[..40].to_string(),
        parents: vec![],
        author: "Test User <test@example.com> 1234567890 +0000".into(),
        committer: "Test User <test@example.com> 1234567890 +0000".into(),
        message: "Initial commit\n".into(),
    });
    let serialized = commit.serialize();
    let parsed = parse_object(&serialized).unwrap();
    assert_eq!(commit, parsed);
}

#[test]
fn tag_roundtrip() {
    let tag = Object::Tag(TagData {
        object: "abc123".repeat(7)[..40].to_string(),
        object_type: "commit".into(),
        tag_name: "v1.0".into(),
        tagger: "Test User <test@example.com> 1234567890 +0000".into(),
        message: "Release v1.0\n".into(),
    });
    let serialized = tag.serialize();
    let parsed = parse_object(&serialized).unwrap();
    assert_eq!(tag, parsed);
}

#[test]
fn hex_bytes_roundtrip() {
    let hex = "95d09f2b10159347eece71399a7e2e907ea3df4f";
    let bytes = hex_to_bytes(hex).unwrap();
    assert_eq!(bytes.len(), 20);
    assert_eq!(bytes_to_hex(&bytes), hex);
}

#[test]
fn blob_serialized_form() {
    let blob = Object::Blob(b"abc".to_vec());
    assert_eq!(blob.serialize(), b"blob 3\0abc".to_vec());
    assert_eq!(blob.type_str(), "blob");
    assert_eq!(blob.serialize_body(), b"abc".to_vec());
}

#[test]
fn commit_serialized_form() {
    let commit = Object::Commit(CommitData {
        tree: "t".into(),
        parents: vec!["p1".into(), "p2".into()],
        author: "A".into(),
        committer: "C".into(),
        message: "m\n".into(),
    });
    assert_eq!(commit.serialize_body(), b"tree t\nparent p1\nparent p2\nauthor A\ncommitter C\n\nm\n".to_vec());
    assert_eq!(commit.type_str(), "commit");
}

#[test]
fn hex_errors() {
    assert!(hex_to_bytes("abc").is_err());
    assert!(hex_to_bytes("zz").is_err());
    assert_eq!(hex_to_bytes("0aFf").unwrap(), vec![0x0a, 0xff]);
    assert_eq!(hex_to_bytes("").unwrap(), Vec::<u8>::new());
}

#[test]
fn parse_errors() {
    assert!(parse_object(b"blob 3").is_err());
    assert!(parse_object(b"blob x\0abc").is_err());
    assert!(parse_object(b"blob 4\0abc").is_err());
    assert!(parse_object(b"weird 0\0").is_err());
    assert!(parse_object(b"\xff\xfe 0\0").is_err());
    assert!(parse_object(b"tree 9\0100644 a\0").is_err());
}

#[test]
fn tree_entry_name_checked() {
    let mut data = b"100644 ../x\0".to_vec();
    data.extend_from_slice(&[0u8; 20]);
    let mut raw = format!("tree {}\0", data.len()).into_bytes();
    raw.extend_from_slice(&data);
    assert!(parse_object(&raw).is_err());
}

#[test]
fn sha_validation_and_location() {
    assert!(validate_sha("3b18e512dba79e4c8300dd08aeb37f8e728b8dad").is_ok());
    assert!(validate_sha("../../etc/passwd").is_err());
    assert!(validate_sha("3b18e512dba79e4c8300dd08aeb37f8e728b8da").is_err());
    let (d, f) = object_location("3b18e512dba79e4c8300dd08aeb37f8e728b8dad").unwrap();
    assert_eq!(d, "3b");
    assert_eq!(f, "18e512dba79e4c8300dd08aeb37f8e728b8dad");
}

#[test]
fn store_roundtrip() {
    let blob = Object::Blob(b"hello world\n".to_vec());
    let (sha, compressed) = blob.encode_for_store().unwrap();
    assert_eq!(sha, "3b18e512dba79e4c8300dd08aeb37f8e728b8dad");
    assert_ne!(compressed, blob.serialize());
    let back = Object::decode_stored(&compressed).unwrap();
    assert_eq!(back, blob);
    assert!(Object::decode_stored(b"not zlib").is_err());
}

#[test]
fn invalid_utf8_name_rejected() {
    let mut data = b"100644 \xff\0".to_vec();
    data.extend_from_slice(&[0u8; 20]);
    let mut raw = format!("tree {}\0", data.len()).into_bytes();
    raw.extend_from_slice(&data);
    assert!(parse_object(&raw).is_err());
}

#[test]
fn error_messages() {
    assert_eq!(hex_to_bytes("abc"), Err("hex string has odd length: 3".to_string()));
    assert_eq!(hex_to_bytes("00zz"), Err("invalid hex byte at position 2: zz".to_string()));
    assert_eq!(hex_to_bytes("+a"), Err("invalid hex byte at position 0: +a".to_string()));
    assert_eq!(parse_object(b"blob 3").unwrap_err(), "invalid object: no null byte in header");
    assert_eq!(parse_object(b"\xff\xfe 0\0").unwrap_err(), "invalid object header");
    assert_eq!(parse_object(b"blob\0").unwrap_err(), "invalid object header format");
    assert_eq!(parse_object(b"blob x\0abc").unwrap_err(), "invalid object size");
    assert_eq!(parse_object(b"blob 4\0abc").unwrap_err(), "object size mismatch: header says 4, body is 3");
    assert_eq!(parse_object(b"weird 0\0").unwrap_err(), "unknown object type: weird");
    assert_eq!(parse_object(b"tree 4\0abcd").unwrap_err(), "invalid tree entry: no space");
    assert_eq!(parse_object(b"tree 8\0100644 a").unwrap_err(), "invalid tree entry: no null");
    assert_eq!(parse_object(b"tree 9\0100644 a\0").unwrap_err(), "tree entry truncated");
    assert_eq!(parse_object(b"tree 12\0100644 ../x\0").unwrap_err(), "invalid tree entry name: ../x");
    assert_eq!(parse_object(b"commit 1\0\xff").unwrap_err(), "invalid commit: not UTF-8");
    assert_eq!(
        parse_object(b"commit 4\0tree").unwrap_err(),
        "invalid commit: no blank line separating headers and message"
    );
    assert_eq!(parse_object(b"tag 1\0\xff").unwrap_err(), "invalid tag: not UTF-8");
    assert_eq!(validate_sha("xyz").unwrap_err(), "invalid SHA: xyz");
    assert!(Object::decode_stored(b"not zlib").unwrap_err().starts_with("zlib decompress failed: "));
}

#[test]
fn display_texts() {
    assert_eq!(Object::Blob(b"hi\n".to_vec()).display_text(), "hi\n");
    assert_eq!(Object::Blob(vec![b'a', 0xff]).display_text(), "a\u{fffd}");
    let tree = Object::Tree(vec![TreeEntry {
        mode: "100644".into(),
        name: "a.txt".into(),
        sha: "ce013625030ba8dba906f756967f9e9ca394464a".into(),
    }]);
    assert_eq!(tree.display_text(), "100644 ce013625030ba8dba906f756967f9e9ca394464a a.txt\n");
    let commit = Object::Commit(CommitData {
        tree: "t".into(),
        parents: vec!["p1".into(), "p2".into()],
        author: "A".into(),
        committer: "C".into(),
        message: "msg\n".into(),
    });
    assert_eq!(commit.display_text(), "tree t\nparent p1\nparent p2\nauthor A\ncommitter C\n\nmsg\n");
    let tag = Object::Tag(TagData {
        object: "o".into(),
        object_type: "commit".into(),
        tag_name: "v1".into(),
        tagger: "T".into(),
        message: "m".into(),
    });
    assert_eq!(tag.display_text(), "object o\ntype commit\ntag v1\ntagger T\n\nm");
}

#[test]
fn tree_entry_names_refused() {
    for name in ["/abs", "a..b", ".."] {
        let mut data = format!("100644 {name}\0").into_bytes();
        data.extend_from_slice(&[0u8; 20]);
        let mut raw = format!("tree {}\0", data.len()).into_bytes();
        raw.extend_from_slice(&data);
        assert!(parse_object(&raw).is_err(), "{name}");
    }
    let mut ok = b"100644 a.b\0".to_vec();
    ok.extend_from_slice(&[0u8; 20]);
    let mut raw = format!("tree {}\0", ok.len()).into_bytes();
    raw.extend_from_slice(&ok);
    assert!(parse_object(&raw).is_ok());
}

#[test]
fn hex_accepts_digits_only() {
    assert_eq!(hex_to_bytes("+f"), Err("invalid hex byte at position 0: +f".to_string()));
    assert_eq!(hex_to_bytes("0a-1"), Err("invalid hex byte at position 2: -1".to_string()));
    // a pair that cuts through a character is refused, not a panic
    let e = hex_to_bytes("aéb").unwrap_err();
    assert!(e.starts_with("invalid hex byte at position 0: a"), "{e}");
    assert!(hex_to_bytes("éé").is_err());
}
