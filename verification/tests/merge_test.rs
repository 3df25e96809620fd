use vrit::merge::{
    find_sha, merge_action, merge_message, merge_outcome, plan_merge, write_conflict_markers, MergeAction, MergeBaseSearch,
    MergeOutcome, SearchStep,
};

fn pairs(v: &[(&str, &str)]) -> Vec<(String, String)> {
    v.iter().map(|(a, b)| (a.to_string(), b.to_string())).collect()
}

fn name(a: &MergeAction) -> String {
    match a {
        MergeAction::TakeHead(s) => format!("head {s}"),
        MergeAction::TakeOther(s) => format!("other {s}"),
        MergeAction::Delete => "delete".into(),
        MergeAction::ConflictDeletedInHead(s) => format!("conflict-deleted-here {s}"),
        MergeAction::ConflictDeletedInOther(s) => format!("conflict-deleted-there {s}"),
        MergeAction::ConflictContent(h, o) => format!("conflict {h} {o}"),
        MergeAction::Skip => "skip".into(),
    }
}

#[test]
fn merge_rules() {
    assert_eq!(name(&merge_action(Some("b"), Some("x"), Some("x"))), "head x");
    assert_eq!(name(&merge_action(Some("b"), Some("h"), Some("b"))), "head h");
    assert_eq!(name(&merge_action(Some("b"), Some("b"), Some("o"))), "other o");
    assert_eq!(name(&merge_action(None, Some("h"), None)), "head h");
    assert_eq!(name(&merge_action(None, None, Some("o"))), "other o");
    assert_eq!(name(&merge_action(Some("b"), None, Some("b"))), "delete");
    assert_eq!(name(&merge_action(Some("b"), Some("b"), None)), "delete");
    assert_eq!(name(&merge_action(Some("b"), None, Some("o"))), "conflict-deleted-here o");
    assert_eq!(name(&merge_action(Some("b"), Some("h"), None)), "conflict-deleted-there h");
    assert_eq!(name(&merge_action(Some("b"), Some("h"), Some("o"))), "conflict h o");
    assert_eq!(name(&merge_action(None, Some("h"), Some("o"))), "conflict h o");
    assert_eq!(name(&merge_action(Some("b"), None, None)), "skip");
}

#[test]
fn plan_covers_all_paths_in_order() {
    let base = pairs(&[("m", "1"), ("a", "1")]);
    let head = pairs(&[("a", "2"), ("z", "1")]);
    let other = pairs(&[("m", "1"), ("b/c", "5")]);
    let plan = plan_merge(&base, &head, &other);
    let got: Vec<(String, String)> = plan.iter().map(|(p, a)| (p.clone(), name(a))).collect();
    assert_eq!(
        got,
        vec![
            ("a".to_string(), "conflict-deleted-there 2".to_string()),
            ("b/c".to_string(), "other 5".to_string()),
            ("m".to_string(), "delete".to_string()),
            ("z".to_string(), "head 1".to_string()),
        ]
    );
    assert_eq!(find_sha(&head, "z"), Some("1"));
    assert_eq!(find_sha(&head, "q"), None);
}

#[test]
fn conflict_text_and_message() {
    assert_eq!(
        write_conflict_markers("mine\n", "theirs\n", "main", "dev"),
        "<<<<<<< main\nmine\n=======\ntheirs\n>>>>>>> dev\n"
    );
    assert_eq!(merge_message("dev", "main"), "Merge branch 'dev' into main\n");
}

fn search(graph: &[(&str, &[&str])], a: &str, b: &str) -> Option<String> {
    let parents = |s: &str| -> Vec<String> {
        graph.iter().find(|(c, _)| *c == s).map(|(_, ps)| ps.iter().map(|p| p.to_string()).collect()).unwrap_or_default()
    };
    let (mut state, mut step) = MergeBaseSearch::start(a, b);
    loop {
        match step {
            SearchStep::Done(r) => return r,
            SearchStep::Need(c) => step = state.resume(parents(&c)),
        }
    }
}

#[test]
fn merge_base_found() {
    let graph: &[(&str, &[&str])] = &[("a3", &["a2"]), ("a2", &["root"]), ("b2", &["b1"]), ("b1", &["root"]), ("root", &[])];
    assert_eq!(search(graph, "a3", "b2"), Some("root".to_string()));
    assert_eq!(search(graph, "a3", "a2"), Some("a2".to_string()));
    assert_eq!(search(graph, "a2", "a3"), Some("a2".to_string()));
    let split: &[(&str, &[&str])] = &[("x", &[]), ("y", &[])];
    assert_eq!(search(split, "x", "y"), None);
}

#[test]
fn merge_base_is_lowest() {
    // "s" reaches "b" directly and through "m"; "m" is the lowest common ancestor.
    let graph: &[(&str, &[&str])] = &[("f1", &["m"]), ("m", &["b"]), ("s", &["b", "m"]), ("b", &[])];
    assert_eq!(search(graph, "f1", "s"), Some("m".to_string()));
    assert_eq!(search(graph, "s", "f1"), Some("m".to_string()));
}

#[test]
fn merge_base_fast_forward() {
    let graph: &[(&str, &[&str])] = &[("f1", &["m"]), ("m", &["b"]), ("s", &["b", "m"]), ("b", &[])];
    assert_eq!(search(graph, "m", "s"), Some("m".to_string()));
    assert_eq!(search(graph, "s", "m"), Some("m".to_string()));
    assert_eq!(search(graph, "b", "s"), Some("b".to_string()));
}

#[test]
fn merge_outcome_commit_or_pending() {
    let clean = vec![
        ("a.txt".to_string(), MergeAction::TakeHead("h1".to_string())),
        ("b.txt".to_string(), MergeAction::Delete),
    ];
    match merge_outcome(&clean, "head", "other") {
        MergeOutcome::Commit(ps) => assert_eq!(ps, vec!["head".to_string(), "other".to_string()]),
        MergeOutcome::Conflicted(_) => panic!("clean plan reported a conflict"),
    }
    let conflicted = vec![
        ("a.txt".to_string(), MergeAction::TakeOther("o1".to_string())),
        ("b.txt".to_string(), MergeAction::ConflictContent("h".to_string(), "o".to_string())),
    ];
    match merge_outcome(&conflicted, "head", "other") {
        MergeOutcome::Conflicted(m) => assert_eq!(m, "other"),
        MergeOutcome::Commit(_) => panic!("conflict not reported"),
    }
}
