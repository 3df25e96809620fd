use vrit::history::HistoryWalk;

fn walk_all(root: &str, parents_of: &dyn Fn(&str) -> Vec<String>) -> (Vec<String>, Vec<String>) {
    let mut walk = HistoryWalk::new(root);
    let mut read: Vec<String> = Vec::new();
    while let Some(sha) = walk.next_commit() {
        let parents = parents_of(&sha);
        read.push(sha);
        walk.add_parents(parents);
    }
    (read, walk.log_order())
}

fn from_table(table: &'static [(&'static str, &'static [&'static str])]) -> impl Fn(&str) -> Vec<String> {
    move |sha: &str| {
        table.iter().find(|(c, _)| *c == sha).map(|(_, ps)| ps.iter().map(|p| p.to_string()).collect()).unwrap_or_default()
    }
}

#[test]
fn history_walk_reads_breadth_first_and_each_commit_once() {
    let parents = from_table(&[("a", &["b", "c"]), ("b", &["d"]), ("c", &["d"])]);
    let (read, shown) = walk_all("a", &parents);
    assert_eq!(read, vec!["a", "b", "c", "d"]);
    assert_eq!(shown, vec!["a", "b", "c", "d"]);
}

#[test]
fn history_walk_of_a_root_commit() {
    let mut walk = HistoryWalk::new("only");
    assert_eq!(walk.next_commit(), Some("only".to_string()));
    walk.add_parents(Vec::new());
    assert_eq!(walk.next_commit(), None);
    assert_eq!(walk.log_order(), vec!["only".to_string()]);
}

#[test]
fn history_walk_skips_a_parent_already_read() {
    let mut walk = HistoryWalk::new("x");
    assert_eq!(walk.next_commit(), Some("x".to_string()));
    walk.add_parents(vec!["x".to_string(), "y".to_string()]);
    assert_eq!(walk.next_commit(), Some("y".to_string()));
    walk.add_parents(vec!["x".to_string()]);
    assert_eq!(walk.next_commit(), None);
}

#[test]
fn log_shows_each_commit_before_its_ancestors() {
    // m merges a and b, and b was made on top of a
    let parents = from_table(&[("m", &["a", "b"]), ("b", &["a"]), ("a", &["r"])]);
    let (read, shown) = walk_all("m", &parents);
    assert_eq!(read, vec!["m", "a", "b", "r"]);
    assert_eq!(shown, vec!["m", "b", "a", "r"]);
}

#[test]
fn log_of_a_longer_side_branch() {
    let parents = from_table(&[("m", &["a1", "b3"]), ("a1", &["r"]), ("b3", &["b2"]), ("b2", &["b1"]), ("b1", &["r"])]);
    let (_, shown) = walk_all("m", &parents);
    let pos = |s: &str| shown.iter().position(|x| x == s).unwrap();
    assert_eq!(shown.len(), 6);
    for (c, p) in [("m", "a1"), ("m", "b3"), ("a1", "r"), ("b3", "b2"), ("b2", "b1"), ("b1", "r")] {
        assert!(pos(c) < pos(p), "{c} before {p}");
    }
    assert_eq!(shown, vec!["m", "a1", "b3", "b2", "b1", "r"]);
}
