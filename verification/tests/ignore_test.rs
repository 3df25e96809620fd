use vrit::ignore::IgnoreRules;

#[test]
fn simple_file_pattern() {
    let rules = IgnoreRules::parse("*.o");
    assert!(rules.is_ignored("foo.o", false));
    assert!(rules.is_ignored("dir/foo.o", false));
    assert!(!rules.is_ignored("foo.c", false));
}

#[test]
fn directory_pattern() {
    let rules = IgnoreRules::parse("build/");
    assert!(rules.is_ignored("build", true));
    assert!(!rules.is_ignored("build", false));
}

#[test]
fn double_wildcard() {
    let rules = IgnoreRules::parse("**/logs");
    assert!(rules.is_ignored("logs", true));
    assert!(rules.is_ignored("a/b/logs", true));
}

#[test]
fn path_pattern() {
    let rules = IgnoreRules::parse("target/debug");
    assert!(rules.is_ignored("target/debug", true));
    assert!(!rules.is_ignored("other/debug", true));
}

#[test]
fn vrit_dir_always_ignored() {
    let rules = IgnoreRules::parse("");
    assert!(rules.is_ignored(".vrit", true));
    assert!(rules.is_ignored(".vrit/objects", true));
}

#[test]
fn question_mark() {
    let rules = IgnoreRules::parse("?.txt");
    assert!(rules.is_ignored("a.txt", false));
    assert!(!rules.is_ignored("ab.txt", false));
}

#[test]
fn comments_and_empty_lines() {
    let rules = IgnoreRules::parse("# comment\n\n*.o\n");
    assert!(rules.is_ignored("foo.o", false));
}

#[test]
fn vrit_lookalikes_not_ignored() {
    let rules = IgnoreRules::parse("");
    assert!(!rules.is_ignored(".vritx", false));
    assert!(!rules.is_ignored("a/.vrit", false));
    assert!(!rules.is_ignored("foo", false));
}

#[test]
fn trailing_components_allowed() {
    let rules = IgnoreRules::parse("target/debug");
    assert!(rules.is_ignored("target/debug/app", false));
    let rules = IgnoreRules::parse("a/**/z");
    assert!(rules.is_ignored("a/z", false));
    assert!(rules.is_ignored("a/b/c/z", false));
    assert!(!rules.is_ignored("b/z", false));
}

#[test]
fn star_inside_names() {
    let rules = IgnoreRules::parse("  foo*bar  \r\n#x\nlog?\n");
    assert!(rules.is_ignored("foobar", false));
    assert!(rules.is_ignored("d/fooXYZbar", false));
    assert!(!rules.is_ignored("foobaz", false));
    assert!(rules.is_ignored("log1", false));
    assert!(!rules.is_ignored("log", false));
}

#[test]
fn non_ascii_names() {
    let rules = IgnoreRules::parse("*é");
    assert!(rules.is_ignored("caé", false));
    assert!(!rules.is_ignored("éa", false));
}

#[test]
fn joined_ignore_files() {
    let a = "*.o\n# comment\r";
    let b = "build/\n";
    let joined = IgnoreRules::parse(&format!("{a}\n{b}"));
    let ra = IgnoreRules::parse(a);
    let rb = IgnoreRules::parse(b);
    for (path, is_dir) in [("x.o", false), ("build", true), ("src/a.rs", false), ("build", false)] {
        assert_eq!(joined.is_ignored(path, is_dir), ra.is_ignored(path, is_dir) || rb.is_ignored(path, is_dir));
    }
    assert!(joined.is_ignored("x.o", false));
    assert!(joined.is_ignored("build", true));
    assert!(!joined.is_ignored("src/a.rs", false));
}

#[test]
fn unicode_white_space_trimmed() {
    let rules = IgnoreRules::parse("\u{a0}*.o\u{3000}\n\u{2003}# note\n");
    assert!(rules.is_ignored("x.o", false));
    assert!(!rules.is_ignored("x.c", false));
}
