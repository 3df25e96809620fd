//! Three-way merge: what happens to each path given its blob in the merge
//! base and on both sides, and the text written for a conflict.

use vstd::prelude::*;
use crate::commit_graph::{graph_links, graph_view, graph_commits, lemma_graph_commits_push, lemma_some_unreached, pick_lowest, reached_by_some, each_reached, strictly};
use crate::index::path_lt;
use crate::text::{utf8, bytes_lt, bytes_less, str_eq, string_push, lemma_bytes_lt_trans,
    lemma_bytes_lt_total, lemma_utf8_injective};

verus! {

broadcast use vstd::seq::group_seq_axioms;

/// What a three-way merge does with one path, and with which blob.
pub enum MergeAction {
    /// Keep the current side's blob.
    TakeHead(String),
    /// Take the merged branch's blob.
    TakeOther(String),
    /// Remove the file.
    Delete,
    /// Deleted here, changed there: the other side's content, as a conflict.
    ConflictDeletedInHead(String),
    /// Changed here, deleted there: the current content, as a conflict.
    ConflictDeletedInOther(String),
    /// Changed differently on both sides: conflict markers around both.
    ConflictContent(String, String),
    /// Absent from both sides.
    Skip,
}

/// Mathematical view of a merge action.
pub enum MergeActionModel {
    TakeHead(Seq<char>),
    TakeOther(Seq<char>),
    Delete,
    ConflictDeletedInHead(Seq<char>),
    ConflictDeletedInOther(Seq<char>),
    ConflictContent(Seq<char>, Seq<char>),
    Skip,
}

impl View for MergeAction {
    type V = MergeActionModel;

    open spec fn view(&self) -> MergeActionModel {
        match self {
            MergeAction::TakeHead(h) => MergeActionModel::TakeHead(h@),
            MergeAction::TakeOther(o) => MergeActionModel::TakeOther(o@),
            MergeAction::Delete => MergeActionModel::Delete,
            MergeAction::ConflictDeletedInHead(o) => MergeActionModel::ConflictDeletedInHead(o@),
            MergeAction::ConflictDeletedInOther(h) => MergeActionModel::ConflictDeletedInOther(h@),
            MergeAction::ConflictContent(h, o) => MergeActionModel::ConflictContent(h@, o@),
            MergeAction::Skip => MergeActionModel::Skip,
        }
    }
}

/// The merge rule for one path, given its blob in the base (`b`), on the
/// current side (`h`) and on the merged side (`o`); the rules are tried in
/// this order:
/// - same blob on both sides: keep it;
/// - changed only on one side: take that side;
/// - added only on one side: take it;
/// - deleted on one side and unchanged on the other: delete;
/// - deleted on one side and changed on the other: conflict;
/// - changed on both sides (or added on both) differently: conflict;
/// - absent on both sides: nothing.
pub open spec fn merge_decision(
    b: Option<Seq<char>>,
    h: Option<Seq<char>>,
    o: Option<Seq<char>>,
) -> MergeActionModel {
    if h is Some && o is Some && h->0 == o->0 {
        MergeActionModel::TakeHead(h->0)
    } else if b is Some && h is Some && o is Some && b->0 == o->0 && b->0 != h->0 {
        MergeActionModel::TakeHead(h->0)
    } else if b is Some && h is Some && o is Some && b->0 == h->0 && b->0 != o->0 {
        MergeActionModel::TakeOther(o->0)
    } else if b is None && h is Some && o is None {
        MergeActionModel::TakeHead(h->0)
    } else if b is None && h is None && o is Some {
        MergeActionModel::TakeOther(o->0)
    } else if b is Some && h is None && o is Some && b->0 == o->0 {
        MergeActionModel::Delete
    } else if b is Some && h is Some && o is None && b->0 == h->0 {
        MergeActionModel::Delete
    } else if b is Some && h is None && o is Some {
        MergeActionModel::ConflictDeletedInHead(o->0)
    } else if b is Some && h is Some && o is None {
        MergeActionModel::ConflictDeletedInOther(h->0)
    } else if h is Some && o is Some {
        MergeActionModel::ConflictContent(h->0, o->0)
    } else {
        MergeActionModel::Skip
    }
}

/// When both sides hold the same blob, that blob is kept, whatever the
/// merge base held (also when the path is new on both sides): no conflict.
pub proof fn law_same_blob_kept(b: Option<Seq<char>>, x: Seq<char>)
    ensures
        merge_decision(b, Some(x), Some(x)) == MergeActionModel::TakeHead(x),
{
}

/// A side that left the base's blob unchanged yields to the other side's
/// change: the changed blob is taken.
pub proof fn law_one_side_changed(b: Seq<char>, changed: Seq<char>)
    requires
        changed != b,
    ensures
        merge_decision(Some(b), Some(b), Some(changed)) == MergeActionModel::TakeOther(changed),
        merge_decision(Some(b), Some(changed), Some(b)) == MergeActionModel::TakeHead(changed),
{
}

/// Two different changes of the base's blob conflict, with both contents.
pub proof fn law_both_changed_conflict(b: Option<Seq<char>>, h: Seq<char>, o: Seq<char>)
    requires
        h != o,
        b != Some(h),
        b != Some(o),
    ensures
        merge_decision(b, Some(h), Some(o)) == MergeActionModel::ConflictContent(h, o),
{
}

/// Deletions: a file gone on one side and unchanged on the other is
/// deleted; gone on one side and changed on the other, it conflicts with
/// the changed content; gone on both sides (or never there), nothing is
/// done.
pub proof fn law_deletions(b: Seq<char>, x: Seq<char>)
    ensures
        merge_decision(Some(b), None, Some(b)) == MergeActionModel::Delete,
        merge_decision(Some(b), Some(b), None) == MergeActionModel::Delete,
        x != b ==> merge_decision(Some(b), None, Some(x)) == MergeActionModel::ConflictDeletedInHead(x),
        x != b ==> merge_decision(Some(b), Some(x), None) == MergeActionModel::ConflictDeletedInOther(x),
        merge_decision(Some(b), None, None) == MergeActionModel::Skip,
        merge_decision(None, None, None) == MergeActionModel::Skip,
{
}

/// A file added on one side only, since the base, is taken from that side.
pub proof fn law_added_on_one_side(x: Seq<char>)
    ensures
        merge_decision(None, Some(x), None) == MergeActionModel::TakeHead(x),
        merge_decision(None, None, Some(x)) == MergeActionModel::TakeOther(x),
{
}

/// The view of an optional string slice.
pub open spec fn opt_view(x: Option<&str>) -> Option<Seq<char>> {
    match x {
        Some(s) => Some(s@),
        None => None,
    }
}

/// Decides what the merge does with one path.
pub fn merge_action(base: Option<&str>, head: Option<&str>, other: Option<&str>) -> (out: MergeAction)
    ensures
        out@ == merge_decision(opt_view(base), opt_view(head), opt_view(other)),
{
    match (base, head, other) {
        (_, Some(h), Some(o)) if str_eq(h, o) => MergeAction::TakeHead(String::from_str(h)),
        (Some(b), Some(h), Some(o)) if str_eq(b, o) && !str_eq(b, h) => MergeAction::TakeHead(
            String::from_str(h),
        ),
        (Some(b), Some(h), Some(o)) if str_eq(b, h) && !str_eq(b, o) => MergeAction::TakeOther(
            String::from_str(o),
        ),
        (None, Some(h), None) => MergeAction::TakeHead(String::from_str(h)),
        (None, None, Some(o)) => MergeAction::TakeOther(String::from_str(o)),
        (Some(b), None, Some(o)) if str_eq(b, o) => MergeAction::Delete,
        (Some(b), Some(h), None) if str_eq(b, h) => MergeAction::Delete,
        (Some(_), None, Some(o)) => MergeAction::ConflictDeletedInHead(String::from_str(o)),
        (Some(_), Some(h), None) => MergeAction::ConflictDeletedInOther(String::from_str(h)),
        (_, Some(h), Some(o)) => MergeAction::ConflictContent(String::from_str(h), String::from_str(o)),
        _ => MergeAction::Skip,
    }
}

/// The blob of the first pair with path `p`, as a search from the front
/// finds it.
pub open spec fn sha_for(es: Seq<(Seq<char>, Seq<char>)>, p: Seq<char>) -> Option<Seq<char>>
    decreases es.len(),
{
    if es.len() == 0 {
        None
    } else if es[0].0 == p {
        Some(es[0].1)
    } else {
        sha_for(es.drop_first(), p)
    }
}

/// The views of a list of (path, blob) pairs.
pub open spec fn pair_views(v: Seq<(String, String)>) -> Seq<(Seq<char>, Seq<char>)> {
    v.map_values(|e: (String, String)| (e.0@, e.1@))
}

/// Looks up the blob of a path.
pub fn find_sha<'a>(entries: &'a [(String, String)], path: &str) -> (out: Option<&'a str>)
    ensures
        opt_view(out) == sha_for(pair_views(entries@), path@),
{
    let ghost es = pair_views(entries@);
    let mut i: usize = 0;
    assert(es.skip(0) == es);
    while i < entries.len()
        invariant
            es == pair_views(entries@),
            i <= entries@.len(),
            sha_for(es, path@) == sha_for(es.skip(i as int), path@),
        decreases entries@.len() - i,
    {
        assert(es.skip(i as int)[0] == es[i as int]);
        assert(es.skip(i as int).drop_first() == es.skip(i + 1));
        if str_eq(entries[i].0.as_str(), path) {
            return Some(entries[i].1.as_str());
        }
        i = i + 1;
    }
    assert(es.skip(i as int).len() == 0);
    None
}

// ---------------------------------------------------------------------------
// The paths of a merge
// ---------------------------------------------------------------------------

/// Strictly increasing in byte order.
pub open spec fn sorted_paths(ps: Seq<Seq<char>>) -> bool {
    forall|i: int, j: int| 0 <= i < j < ps.len() ==> path_lt(#[trigger] ps[i], #[trigger] ps[j])
}

/// The paths named by a list of (path, blob) pairs.
pub open spec fn paths_of(es: Seq<(Seq<char>, Seq<char>)>) -> Set<Seq<char>> {
    Set::new(|p: Seq<char>| exists|i: int| 0 <= i < es.len() && #[trigger] es[i].0 == p)
}

/// The views of a list of strings.
pub open spec fn string_views(v: Seq<String>) -> Seq<Seq<char>> {
    v.map_values(|s: String| s@)
}

/// Adds a path to a sorted list of distinct paths, unless it is there.
fn insert_path(ps: &mut Vec<String>, p: &str)
    requires
        sorted_paths(string_views(old(ps)@)),
    ensures
        sorted_paths(string_views(final(ps)@)),
        string_views(final(ps)@).to_set() == string_views(old(ps)@).to_set().insert(p@),
{
    let ghost old_v = string_views(ps@);
    let pb = p.as_bytes();
    let mut lo: usize = 0;
    let mut hi: usize = ps.len();
    while lo < hi
        invariant
            old_v == string_views(ps@),
            sorted_paths(old_v),
            lo <= hi <= ps@.len(),
            forall|i: int| 0 <= i < lo ==> bytes_lt(utf8(#[trigger] old_v[i]), pb@),
            forall|i: int| hi <= i < old_v.len() ==> !bytes_lt(utf8(#[trigger] old_v[i]), pb@),
        decreases hi - lo,
    {
        let mid = lo + (hi - lo) / 2;
        let below = bytes_less(ps[mid].as_str().as_bytes(), pb);
        assert(old_v[mid as int] == ps@[mid as int]@);
        if below {
            proof {
                assert forall|i: int| 0 <= i < mid + 1 implies bytes_lt(utf8(#[trigger] old_v[i]), pb@) by {
                    if i < mid {
                        assert(path_lt(old_v[i], old_v[mid as int]));
                        lemma_bytes_lt_trans(utf8(old_v[i]), utf8(old_v[mid as int]), pb@);
                    }
                }
            }
            lo = mid + 1;
        } else {
            proof {
                assert forall|i: int| mid <= i < old_v.len() implies !bytes_lt(utf8(#[trigger] old_v[i]), pb@) by {
                    if i > mid && bytes_lt(utf8(old_v[i]), pb@) {
                        assert(path_lt(old_v[mid as int], old_v[i]));
                        lemma_bytes_lt_trans(utf8(old_v[mid as int]), utf8(old_v[i]), pb@);
                    }
                }
            }
            hi = mid;
        }
    }
    let k = lo;
    if k < ps.len() && str_eq(ps[k].as_str(), p) {
        assert(old_v[k as int] == p@);
        assert(old_v.to_set().insert(p@) =~= old_v.to_set());
        return;
    }
    proof {
        // every path from k on sorts after p
        assert forall|i: int| k <= i < old_v.len() implies path_lt(p@, #[trigger] old_v[i]) by {
            assert(old_v[k as int] != p@);
            if utf8(old_v[k as int]) == utf8(p@) {
                lemma_utf8_injective(old_v[k as int], p@);
            }
            lemma_bytes_lt_total(utf8(old_v[k as int]), utf8(p@));
            if i > k {
                assert(path_lt(old_v[k as int], old_v[i]));
                lemma_bytes_lt_trans(utf8(p@), utf8(old_v[k as int]), utf8(old_v[i]));
            }
        }
    }
    ps.insert(k, String::from_str(p));
    proof {
        let r = string_views(ps@);
        assert(r == old_v.insert(k as int, p@));
        assert forall|i: int, j: int| 0 <= i < j < r.len() implies path_lt(#[trigger] r[i], #[trigger] r[j]) by {
            if j < k {
                assert(path_lt(old_v[i], old_v[j]));
            } else if j == k {
                assert(bytes_lt(utf8(old_v[i]), utf8(p@)));
            } else if i < k {
                assert(bytes_lt(utf8(old_v[i]), utf8(p@)));
                assert(path_lt(p@, old_v[j - 1]));
                lemma_bytes_lt_trans(utf8(old_v[i]), utf8(p@), utf8(old_v[j - 1]));
            } else if i == k {
                assert(path_lt(p@, old_v[j - 1]));
            } else {
                assert(path_lt(old_v[i - 1], old_v[j - 1]));
            }
        }
        assert(r.to_set() =~= old_v.to_set().insert(p@)) by {
            assert forall|x: Seq<char>| r.to_set().contains(x) <==> old_v.to_set().insert(p@).contains(x) by {
                if r.to_set().contains(x) {
                    let i = choose|i: int| 0 <= i < r.len() && r[i] == x;
                    if i < k {
                        assert(old_v[i] == x);
                    } else if i > k {
                        assert(old_v[i - 1] == x);
                    }
                }
                if old_v.to_set().contains(x) {
                    let i = choose|i: int| 0 <= i < old_v.len() && old_v[i] == x;
                    if i < k {
                        assert(r[i] == x);
                    } else {
                        assert(r[i + 1] == x);
                    }
                }
                if x == p@ {
                    assert(r[k as int] == x);
                }
            }
        }
    }
}

/// Adds the paths of a list of (path, blob) pairs.
fn insert_paths(ps: &mut Vec<String>, entries: &[(String, String)])
    requires
        sorted_paths(string_views(old(ps)@)),
    ensures
        sorted_paths(string_views(final(ps)@)),
        string_views(final(ps)@).to_set() == string_views(old(ps)@).to_set().union(paths_of(pair_views(entries@))),
{
    let ghost start = string_views(ps@).to_set();
    let ghost es = pair_views(entries@);
    let mut i: usize = 0;
    while i < entries.len()
        invariant
            es == pair_views(entries@),
            i <= entries@.len(),
            sorted_paths(string_views(ps@)),
            string_views(ps@).to_set() == start.union(paths_of(es.take(i as int))),
        decreases entries@.len() - i,
    {
        insert_path(ps, entries[i].0.as_str());
        proof {
            assert(paths_of(es.take(i + 1)) =~= paths_of(es.take(i as int)).insert(es[i as int].0)) by {
                assert forall|x: Seq<char>| paths_of(es.take(i + 1)).contains(x) <==> paths_of(es.take(i as int)).insert(es[i as int].0).contains(x) by {
                    if paths_of(es.take(i + 1)).contains(x) {
                        let j = choose|j: int| 0 <= j < es.take(i + 1).len() && #[trigger] es.take(i + 1)[j].0 == x;
                        if j < i {
                            assert(es.take(i as int)[j].0 == x);
                        }
                    }
                    if paths_of(es.take(i as int)).contains(x) {
                        let j = choose|j: int| 0 <= j < es.take(i as int).len() && #[trigger] es.take(i as int)[j].0 == x;
                        assert(es.take(i + 1)[j].0 == x);
                    }
                    if x == es[i as int].0 {
                        assert(es.take(i + 1)[i as int].0 == x);
                    }
                }
            }
            assert(start.union(paths_of(es.take(i + 1))) =~= start.union(paths_of(es.take(i as int))).insert(es[i as int].0));
        }
        i = i + 1;
    }
    assert(es.take(es.len() as int) == es);
}

/// The plan of a three-way merge: every path of the base or either side,
/// in byte order, with what to do with it.
pub fn plan_merge(
    base: &[(String, String)],
    head: &[(String, String)],
    other: &[(String, String)],
) -> (out: Vec<(String, MergeAction)>)
    ensures
        sorted_paths(out@.map_values(|e: (String, MergeAction)| e.0@)),
        out@.map_values(|e: (String, MergeAction)| e.0@).to_set() == paths_of(pair_views(base@)).union(
            paths_of(pair_views(head@)),
        ).union(paths_of(pair_views(other@))),
        forall|i: int|
            0 <= i < out@.len() ==> (#[trigger] out@[i]).1@ == merge_decision(
                sha_for(pair_views(base@), out@[i].0@),
                sha_for(pair_views(head@), out@[i].0@),
                sha_for(pair_views(other@), out@[i].0@),
            ),
{
    let mut paths: Vec<String> = Vec::new();
    assert(string_views(paths@).to_set() =~= Set::<Seq<char>>::empty());
    insert_paths(&mut paths, base);
    insert_paths(&mut paths, head);
    insert_paths(&mut paths, other);
    assert(Set::<Seq<char>>::empty().union(paths_of(pair_views(base@))) =~= paths_of(pair_views(base@)));
    let ghost pv = string_views(paths@);
    let mut out: Vec<(String, MergeAction)> = Vec::new();
    let mut i: usize = 0;
    while i < paths.len()
        invariant
            pv == string_views(paths@),
            i <= paths@.len(),
            out@.len() == i,
            forall|k: int| 0 <= k < i ==> (#[trigger] out@[k]).0@ == pv[k],
            forall|k: int|
                0 <= k < i ==> (#[trigger] out@[k]).1@ == merge_decision(
                    sha_for(pair_views(base@), out@[k].0@),
                    sha_for(pair_views(head@), out@[k].0@),
                    sha_for(pair_views(other@), out@[k].0@),
                ),
        decreases paths@.len() - i,
    {
        let p = paths[i].as_str();
        let action = merge_action(find_sha(base, p), find_sha(head, p), find_sha(other, p));
        out.push((String::from_str(p), action));
        i = i + 1;
    }
    assert(out@.map_values(|e: (String, MergeAction)| e.0@) =~= pv);
    out
}

// ---------------------------------------------------------------------------
// Texts
// ---------------------------------------------------------------------------

/// The content written for a path changed on both sides.
pub open spec fn conflict_text(head: Seq<char>, other: Seq<char>, head_name: Seq<char>, other_name: Seq<char>) -> Seq<char> {
    "<<<<<<< "@ + head_name + seq!['\n'] + head + "=======\n"@ + other + ">>>>>>> "@ + other_name + seq!['\n']
}

/// Both sides' contents between conflict markers:
/// `<<<<<<< <head_name>`, the current content, `=======`, the other
/// content, `>>>>>>> <other_name>`.
pub fn write_conflict_markers(head_content: &str, other_content: &str, head_name: &str, other_name: &str) -> (out: String)
    ensures
        out@ == conflict_text(head_content@, other_content@, head_name@, other_name@),
{
    let mut s = String::from_str("<<<<<<< ");
    s.append(head_name);
    string_push(&mut s, '\n');
    s.append(head_content);
    s.append("=======\n");
    s.append(other_content);
    s.append(">>>>>>> ");
    s.append(other_name);
    string_push(&mut s, '\n');
    s
}

/// The message of a merge commit.
pub open spec fn merge_message_text(branch: Seq<char>, current: Seq<char>) -> Seq<char> {
    "Merge branch '"@ + branch + "' into "@ + current + seq!['\n']
}

/// `Merge branch '<branch>' into <current>` and a newline.
pub fn merge_message(branch: &str, current: &str) -> (out: String)
    ensures
        out@ == merge_message_text(branch@, current@),
{
    let mut s = String::from_str("Merge branch '");
    s.append(branch);
    s.append("' into ");
    s.append(current);
    string_push(&mut s, '\n');
    s
}

/// An action that leaves its path in conflict.
pub open spec fn is_conflict(a: MergeActionModel) -> bool {
    ||| a is ConflictDeletedInHead
    ||| a is ConflictDeletedInOther
    ||| a is ConflictContent
}

/// Some path of the plan is in conflict.
pub open spec fn plan_conflicts(plan: Seq<(String, MergeAction)>) -> bool {
    exists|i: int| 0 <= i < plan.len() && is_conflict(#[trigger] plan[i].1@)
}

/// How a three-way merge ends once its plan is carried out.
pub enum MergeOutcome {
    /// Nothing conflicts: a merge commit with these parents, current first.
    Commit(Vec<String>),
    /// Some path conflicts: the merge waits, and `MERGE_HEAD` names this commit.
    Conflicted(String),
}

/// Decides how a merge ends: a commit with parents `[head, other]` when no
/// path of the plan conflicts, else a pending merge that records `other`.
pub fn merge_outcome(plan: &[(String, MergeAction)], head: &str, other: &str) -> (out: MergeOutcome)
    ensures
        out is Conflicted <==> plan_conflicts(plan@),
        out matches MergeOutcome::Conflicted(m) ==> m@ == other@,
        out matches MergeOutcome::Commit(ps) ==> ps@.len() == 2 && ps@[0]@ == head@ && ps@[1]@ == other@,
{
    let mut i: usize = 0;
    while i < plan.len()
        invariant
            i <= plan@.len(),
            forall|k: int| 0 <= k < i ==> !is_conflict(#[trigger] plan@[k].1@),
        decreases plan@.len() - i,
    {
        let conflicted = match &plan[i].1 {
            MergeAction::ConflictDeletedInHead(_) => true,
            MergeAction::ConflictDeletedInOther(_) => true,
            MergeAction::ConflictContent(_, _) => true,
            _ => false,
        };
        if conflicted {
            assert(is_conflict(plan@[i as int].1@));
            return MergeOutcome::Conflicted(String::from_str(other));
        }
        i = i + 1;
    }
    let mut parents: Vec<String> = Vec::new();
    parents.push(String::from_str(head));
    parents.push(String::from_str(other));
    MergeOutcome::Commit(parents)
}

// ---------------------------------------------------------------------------
// The merge base
// ---------------------------------------------------------------------------

/// `true` when a chain of (child, parent) links leads from `a` to `b`
/// (`a` itself included).
#[verifier::opaque]
pub open spec fn reaches(links: Set<(Seq<char>, Seq<char>)>, a: Seq<char>, b: Seq<char>) -> bool {
    exists|path: Seq<Seq<char>>| #[trigger] is_chain(links, path) && path.len() >= 1 && path[0] == a && path.last() == b
}

/// `true` when each element of `path` is linked to the next.
pub open spec fn is_chain(links: Set<(Seq<char>, Seq<char>)>, path: Seq<Seq<char>>) -> bool {
    forall|i: int| 0 <= i < path.len() - 1 ==> links.contains((#[trigger] path[i], path[i + 1]))
}

/// A commit reaches itself.
pub(crate) proof fn lemma_reaches_self(links: Set<(Seq<char>, Seq<char>)>, a: Seq<char>)
    ensures
        reaches(links, a, a),
{
    reveal(reaches);
    let path = seq![a];
    assert(is_chain(links, path));
}

/// A chain extended by one more link.
pub(crate) proof fn lemma_reaches_step(links: Set<(Seq<char>, Seq<char>)>, a: Seq<char>, b: Seq<char>, c: Seq<char>)
    requires
        reaches(links, a, b),
        links.contains((b, c)),
    ensures
        reaches(links, a, c),
{
    reveal(reaches);
    let path = choose|path: Seq<Seq<char>>| #[trigger] is_chain(links, path) && path.len() >= 1 && path[0] == a && path.last() == b;
    let longer = path.push(c);
    assert forall|i: int| 0 <= i < longer.len() - 1 implies links.contains((#[trigger] longer[i], longer[i + 1])) by {
        if i < path.len() - 1 {
            assert(links.contains((path[i], path[i + 1])));
        }
    }
    assert(is_chain(links, longer));
}

/// More links keep every chain.
pub(crate) proof fn lemma_reaches_more(links: Set<(Seq<char>, Seq<char>)>, more: Set<(Seq<char>, Seq<char>)>, a: Seq<char>, b: Seq<char>)
    requires
        reaches(links, a, b),
        links.subset_of(more),
    ensures
        reaches(more, a, b),
{
    reveal(reaches);
    let path = choose|path: Seq<Seq<char>>| #[trigger] is_chain(links, path) && path.len() >= 1 && path[0] == a && path.last() == b;
    assert forall|i: int| 0 <= i < path.len() - 1 implies more.contains((#[trigger] path[i], path[i + 1])) by {
        assert(links.contains((path[i], path[i + 1])));
    }
    assert(is_chain(more, path));
}

/// What the search asks next, or its answer.
pub enum SearchStep {
    /// The parents of this commit are needed.
    Need(String),
    /// The merge base, or `None` when the histories do not meet.
    Done(Option<String>),
}

/// The search for the merge base of two commits: first every ancestor of
/// the first commit is collected, breadth first; then the second commit's
/// history is walked breadth first, stopping on each path at the first
/// collected commit it meets; of those, the lowest (the first that none of
/// the others reaches) is the answer. The caller reads the commits it is
/// asked about and hands their parents back.
pub struct MergeBaseSearch {
    first: String,
    second: String,
    collecting: bool,
    queue: Vec<String>,
    head: usize,
    ancestors: Vec<String>,
    visited: Vec<String>,
    frontier: Vec<String>,
    graph: Vec<(String, Vec<String>)>,
    last: String,
    links: Ghost<Set<(Seq<char>, Seq<char>)>>,
    asked: Ghost<Option<Seq<char>>>,
}

/// `c` is reached from both `a` and `b`.
pub open spec fn common(links: Set<(Seq<char>, Seq<char>)>, a: Seq<char>, b: Seq<char>, c: Seq<char>) -> bool {
    reaches(links, a, c) && reaches(links, b, c)
}

/// `s` is a lowest common ancestor of `a` and `b`: reached from both, and
/// no other commit reached from both reaches it.
pub open spec fn lowest_common(links: Set<(Seq<char>, Seq<char>)>, a: Seq<char>, b: Seq<char>, s: Seq<char>) -> bool {
    &&& common(links, a, b, s)
    &&& forall|c: Seq<char>| #[trigger] common(links, a, b, c) && reaches(links, c, s) ==> c == s
}

/// Each commit reached from both `a` and `b` is reached, through at least
/// one link, from another such commit: the history loops.
pub open spec fn commons_all_reached(links: Set<(Seq<char>, Seq<char>)>, a: Seq<char>, b: Seq<char>) -> bool {
    forall|c: Seq<char>| #[trigger] common(links, a, b, c) ==> exists|d: Seq<char>| common(links, a, b, d) && #[trigger] strictly(links, d, c)
}

/// No commit reached from both `a` and `b` is its own ancestor, as in any
/// history of content-named commits.
pub open spec fn commons_loop_free(links: Set<(Seq<char>, Seq<char>)>, a: Seq<char>, b: Seq<char>) -> bool {
    forall|y: Seq<char>| #[trigger] common(links, a, b, y) ==> !strictly(links, y, y)
}

/// Reaching is transitive.
pub proof fn lemma_reaches_trans(links: Set<(Seq<char>, Seq<char>)>, a: Seq<char>, b: Seq<char>, c: Seq<char>)
    requires
        reaches(links, a, b),
        reaches(links, b, c),
    ensures
        reaches(links, a, c),
{
    let inside = |x: Seq<char>| reaches(links, a, x);
    assert forall|x: Seq<char>, y: Seq<char>| #[trigger] links.contains((x, y)) && inside(x) implies inside(y) by {
        lemma_reaches_step(links, a, x, y);
    }
    lemma_closed_reach(links, inside, b, c);
}

/// A commit reached from another, distinct one is reached through a link.
pub proof fn lemma_reaches_strictly(links: Set<(Seq<char>, Seq<char>)>, a: Seq<char>, b: Seq<char>)
    requires
        reaches(links, a, b),
        a != b,
    ensures
        strictly(links, a, b),
{
    reveal(reaches);
    let path = choose|path: Seq<Seq<char>>| #[trigger] is_chain(links, path) && path.len() >= 1 && path[0] == a && path.last() == b;
    assert(path.len() >= 2);
    assert(links.contains((path[0], path[1])));
    let rest = path.skip(1);
    assert forall|i: int| 0 <= i < rest.len() - 1 implies links.contains((#[trigger] rest[i], rest[i + 1])) by {
        assert(links.contains((path[i + 1], path[i + 2])));
    }
    assert(is_chain(links, rest));
    assert(rest.last() == b);
    assert(reaches(links, path[1], b));
}

/// When the answer is a lowest common ancestor and the second commit reaches
/// the first, the answer is the first commit (a fast-forward).
pub proof fn law_base_is_first_when_reached(links: Set<(Seq<char>, Seq<char>)>, a: Seq<char>, b: Seq<char>, s: Seq<char>)
    requires
        lowest_common(links, a, b, s),
        reaches(links, b, a),
    ensures
        s == a,
{
    lemma_reaches_self(links, a);
    assert(common(links, a, b, a));
}

/// When the answer is a lowest common ancestor and the first commit reaches
/// the second, the answer is the second commit.
pub proof fn law_base_is_second_when_reached(links: Set<(Seq<char>, Seq<char>)>, a: Seq<char>, b: Seq<char>, s: Seq<char>)
    requires
        lowest_common(links, a, b, s),
        reaches(links, a, b),
    ensures
        s == b,
{
    lemma_reaches_self(links, b);
    assert(common(links, a, b, b));
}

/// A commit reached from one of its successors lies on a loop.
proof fn lemma_loop_through(links: Set<(Seq<char>, Seq<char>)>, a: Seq<char>, d: Seq<char>)
    requires
        reaches(links, a, d),
        strictly(links, d, a),
    ensures
        strictly(links, a, a),
{
    if a != d {
        let p = choose|p: Seq<char>| #[trigger] links.contains((d, p)) && reaches(links, p, a);
        lemma_reaches_strictly(links, a, d);
        let q = choose|q: Seq<char>| #[trigger] links.contains((a, q)) && reaches(links, q, d);
        lemma_reaches_step(links, q, d, p);
        lemma_reaches_trans(links, q, p, a);
    }
}

/// Fast-forward: when the second commit reaches the first and the first is
/// not its own ancestor (no commit is, in a history of content-named
/// commits), the search's answer is the first commit.
pub proof fn law_fast_forward_to_first(links: Set<(Seq<char>, Seq<char>)>, a: Seq<char>, b: Seq<char>, s: Seq<char>)
    requires
        common(links, a, b, s),
        lowest_common(links, a, b, s) || commons_all_reached(links, a, b),
        reaches(links, b, a),
        !strictly(links, a, a),
    ensures
        s == a,
{
    lemma_reaches_self(links, a);
    assert(common(links, a, b, a));
    if !lowest_common(links, a, b, s) {
        let d = choose|d: Seq<char>| common(links, a, b, d) && #[trigger] strictly(links, d, a);
        lemma_loop_through(links, a, d);
    }
}

/// The same with the roles swapped: when the first commit reaches the
/// second and the second is not its own ancestor, the answer is the second
/// commit (the merge has nothing to do).
pub proof fn law_fast_forward_to_second(links: Set<(Seq<char>, Seq<char>)>, a: Seq<char>, b: Seq<char>, s: Seq<char>)
    requires
        common(links, a, b, s),
        lowest_common(links, a, b, s) || commons_all_reached(links, a, b),
        reaches(links, a, b),
        !strictly(links, b, b),
    ensures
        s == b,
{
    lemma_reaches_self(links, b);
    assert(common(links, a, b, b));
    if !lowest_common(links, a, b, s) {
        let d = choose|d: Seq<char>| common(links, a, b, d) && #[trigger] strictly(links, d, b);
        lemma_loop_through(links, b, d);
    }
}

/// `x` is one of the listed commits.
pub open spec fn listed(v: Seq<String>, x: Seq<char>) -> bool {
    exists|i: int| 0 <= i < v.len() && #[trigger] v[i]@ == x
}

/// `x` is one of the commits at or after position `from`.
pub open spec fn listed_from(v: Seq<String>, from: int, x: Seq<char>) -> bool {
    exists|i: int| from <= i < v.len() && #[trigger] v[i]@ == x
}

/// `true` when `s` is one of the strings.
fn contains_str(v: &Vec<String>, s: &str) -> (out: bool)
    ensures
        out == listed(v@, s@),
{
    let mut i: usize = 0;
    while i < v.len()
        invariant
            i <= v@.len(),
            forall|k: int| 0 <= k < i ==> v@[k]@ != s@,
        decreases v@.len() - i,
    {
        if str_eq(v[i].as_str(), s) {
            return true;
        }
        i = i + 1;
    }
    false
}

/// A list with one more string lists what it did and that string.
proof fn lemma_listed_push(v: Seq<String>, s: String, x: Seq<char>)
    ensures
        listed(v.push(s), x) <==> (listed(v, x) || x == s@),
{
    if listed(v, x) {
        let i = choose|i: int| 0 <= i < v.len() && #[trigger] v[i]@ == x;
        assert(v.push(s)[i]@ == x);
    }
    if x == s@ {
        assert(v.push(s)[v.len() as int]@ == x);
    }
    if listed(v.push(s), x) {
        let i = choose|i: int| 0 <= i < v.push(s).len() && #[trigger] v.push(s)[i]@ == x;
        if i < v.len() {
            assert(v[i]@ == x);
        }
    }
}

/// Growing a list at its end keeps what it lists from a position on.
proof fn lemma_listed_from_grow(v: Seq<String>, w: Seq<String>, from: int, x: Seq<char>)
    requires
        0 <= from,
        v.len() <= w.len(),
        forall|k: int| 0 <= k < v.len() ==> #[trigger] w[k] == v[k],
        listed_from(v, from, x),
    ensures
        listed_from(w, from, x),
{
    let i = choose|i: int| from <= i < v.len() && #[trigger] v[i]@ == x;
    assert(w[i]@ == x);
}

/// No commit is reached from both `a` and `b` through the links.
pub open spec fn no_common(links: Set<(Seq<char>, Seq<char>)>, a: Seq<char>, b: Seq<char>) -> bool {
    forall|s: Seq<char>| !(#[trigger] reaches(links, a, s) && reaches(links, b, s))
}

/// A chain that starts in a set closed under the links stays in it.
proof fn lemma_chain_stays(links: Set<(Seq<char>, Seq<char>)>, inside: spec_fn(Seq<char>) -> bool, path: Seq<Seq<char>>, i: int)
    requires
        is_chain(links, path),
        path.len() >= 1,
        inside(path[0]),
        forall|x: Seq<char>, y: Seq<char>| #[trigger] links.contains((x, y)) && inside(x) ==> inside(y),
        0 <= i < path.len(),
    ensures
        inside(path[i]),
    decreases i,
{
    if i > 0 {
        lemma_chain_stays(links, inside, path, i - 1);
        assert(links.contains((path[i - 1], path[i])));
    }
}

/// What a set closed under the links holds, it holds of all it reaches.
pub(crate) proof fn lemma_closed_reach(links: Set<(Seq<char>, Seq<char>)>, inside: spec_fn(Seq<char>) -> bool, a: Seq<char>, s: Seq<char>)
    requires
        inside(a),
        forall|x: Seq<char>, y: Seq<char>| #[trigger] links.contains((x, y)) && inside(x) ==> inside(y),
        reaches(links, a, s),
    ensures
        inside(s),
{
    reveal(reaches);
    let path = choose|path: Seq<Seq<char>>| #[trigger] is_chain(links, path) && path.len() >= 1 && path[0] == a && path.last() == s;
    lemma_chain_stays(links, inside, path, path.len() - 1);
}

impl MergeBaseSearch {
    /// The first commit.
    pub closed spec fn first_commit(&self) -> Seq<char> {
        self.first@
    }

    /// The second commit.
    pub closed spec fn second_commit(&self) -> Seq<char> {
        self.second@
    }

    /// The (child, parent) links handed to the search so far.
    pub closed spec fn known_links(&self) -> Set<(Seq<char>, Seq<char>)> {
        self.links@
    }

    /// The commit whose parents the search waits for.
    pub closed spec fn waiting_for(&self) -> Option<Seq<char>> {
        self.asked@
    }

    /// The commits whose parents were handed to the search.
    pub closed spec fn answered(&self) -> Set<Seq<char>> {
        graph_commits(graph_view(self.graph@))
    }

    /// `x` waits in the queue.
    closed spec fn queued(&self, x: Seq<char>) -> bool {
        listed_from(self.queue@, self.head as int, x)
    }

    /// The commit the current walk started from.
    closed spec fn root(&self) -> Seq<char> {
        if self.collecting { self.first@ } else { self.second@ }
    }

    /// What is queued, collected and visited is reached from the commit
    /// its walk started from.
    closed spec fn reached(&self) -> bool {
        let e = self.links@;
        &&& forall|i: int| 0 <= i < self.ancestors@.len() ==> reaches(e, self.first@, #[trigger] self.ancestors@[i]@)
        &&& forall|i: int| self.head <= i < self.queue@.len() ==> reaches(e, self.root(), #[trigger] self.queue@[i]@)
        &&& forall|i: int| 0 <= i < self.visited@.len() ==> reaches(e, self.second@, #[trigger] self.visited@[i]@)
        &&& forall|i: int| 0 <= i < self.frontier@.len() ==> reaches(e, self.second@, #[trigger] self.frontier@[i]@)
        &&& (self.asked@ matches Some(x) ==> reaches(e, self.root(), x))
    }

    /// Nothing is lost: while collecting, each link leads from a collected
    /// commit to one collected or queued; while walking the second history,
    /// each link lies among the collected commits, or leads from a visited
    /// commit to one visited or queued.
    closed spec fn closed_walk(&self) -> bool {
        let e = self.links@;
        let a = self.ancestors@;
        let v = self.visited@;
        &&& self.collecting ==> {
            &&& listed(a, self.first@) || self.queued(self.first@)
            &&& forall|c: Seq<char>, p: Seq<char>| #[trigger] e.contains((c, p)) ==> listed(a, c) && (listed(a, p) || self.queued(p))
            &&& v.len() == 0
            &&& self.frontier@.len() == 0
            &&& (self.asked@ matches Some(x) ==> listed(a, x))
        }
        &&& !self.collecting ==> {
            &&& listed(a, self.first@)
            &&& listed(v, self.second@) || self.queued(self.second@) || listed(self.frontier@, self.second@)
            &&& forall|c: Seq<char>, p: Seq<char>| #[trigger] e.contains((c, p)) ==> (listed(a, c) && listed(a, p)) || (listed(v, c)
                && !listed(a, c) && (listed(v, p) || self.queued(p) || listed(self.frontier@, p)))
            &&& forall|x: Seq<char>| listed(self.frontier@, x) ==> listed(a, x)
            &&& forall|x: Seq<char>| listed(v, x) ==> !listed(a, x)
            &&& (self.asked@ matches Some(x) ==> listed(v, x) && !listed(a, x))
        }
    }

    /// What the search keeps true.
    pub closed spec fn inv(&self) -> bool {
        &&& self.head <= self.queue@.len()
        &&& self.links@ == graph_links(graph_view(self.graph@))
        &&& forall|x: Seq<char>| #[trigger] graph_commits(graph_view(self.graph@)).contains(x) <==> ((listed(self.ancestors@, x)
            || listed(self.visited@, x)) && self.asked@ != Some(x))
        &&& (self.asked@ matches Some(x) ==> self.last@ == x)
        &&& self.reached()
        &&& self.closed_walk()
    }

    /// When the second walk has nothing left, every commit reached from both
    /// is reached from one of the commits where the walk stopped.
    proof fn lemma_exhausted(&self)
        requires
            self.inv(),
            !self.collecting,
            self.head == self.queue@.len(),
        ensures
            forall|c: Seq<char>| #[trigger] common(self.links@, self.first@, self.second@, c) ==> exists|i: int|
                0 <= i < self.frontier@.len() && reaches(self.links@, #[trigger] self.frontier@[i]@, c),
    {
        let e = self.links@;
        let a = self.ancestors@;
        let v = self.visited@;
        let fr = self.frontier@;
        let in_a = |x: Seq<char>| listed(a, x);
        let inside = |x: Seq<char>| listed(v, x) || exists|i: int| 0 <= i < fr.len() && reaches(e, #[trigger] fr[i]@, x);
        assert forall|x: Seq<char>, y: Seq<char>| #[trigger] e.contains((x, y)) && in_a(x) implies in_a(y) by {
            assert(listed(a, x));
        }
        assert forall|x: Seq<char>, y: Seq<char>| #[trigger] e.contains((x, y)) && inside(x) implies inside(y) by {
            if listed(v, x) {
                assert(!listed(a, x));
                assert(!self.queued(y));
                if listed(fr, y) {
                    let i = choose|i: int| 0 <= i < fr.len() && #[trigger] fr[i]@ == y;
                    lemma_reaches_self(e, y);
                    assert(reaches(e, fr[i]@, y));
                }
            } else {
                let i = choose|i: int| 0 <= i < fr.len() && reaches(e, #[trigger] fr[i]@, x);
                lemma_reaches_step(e, fr[i]@, x, y);
            }
        }
        assert(!self.queued(self.second@));
        if listed(fr, self.second@) {
            let i = choose|i: int| 0 <= i < fr.len() && #[trigger] fr[i]@ == self.second@;
            lemma_reaches_self(e, self.second@);
            assert(reaches(e, fr[i]@, self.second@));
        }
        assert(inside(self.second@));
        assert forall|c: Seq<char>| #[trigger] common(e, self.first@, self.second@, c) implies exists|i: int|
            0 <= i < fr.len() && reaches(e, #[trigger] fr[i]@, c) by {
            lemma_closed_reach(e, in_a, self.first@, c);
            lemma_closed_reach(e, inside, self.second@, c);
        }
    }

    /// When the second walk has nothing left, the parents of every commit
    /// reached from either commit were handed in.
    proof fn lemma_all_answered(&self)
        requires
            self.inv(),
            !self.collecting,
            self.head == self.queue@.len(),
            self.asked@ is None,
        ensures
            forall|x: Seq<char>| #[trigger] reaches(self.links@, self.first@, x) || reaches(self.links@, self.second@, x)
                ==> self.answered().contains(x),
    {
        let e = self.links@;
        let a = self.ancestors@;
        let v = self.visited@;
        let inside = |x: Seq<char>| listed(a, x) || listed(v, x);
        assert forall|x: Seq<char>, y: Seq<char>| #[trigger] e.contains((x, y)) && inside(x) implies inside(y) by {
            assert(!self.queued(y));
            if listed(self.frontier@, y) {
                assert(listed(a, y));
            }
        }
        assert(!self.queued(self.second@));
        if listed(self.frontier@, self.second@) {
            assert(listed(a, self.second@));
        }
        assert(inside(self.first@));
        assert(inside(self.second@));
        assert forall|x: Seq<char>| #[trigger] reaches(e, self.first@, x) || reaches(e, self.second@, x) implies self.answered().contains(x) by {
            if reaches(e, self.first@, x) {
                lemma_closed_reach(e, inside, self.first@, x);
            } else {
                lemma_closed_reach(e, inside, self.second@, x);
            }
        }
    }

    /// The commit picked among those where the walk stopped answers the
    /// search: none when there are none, else a common ancestor that is
    /// lowest, unless the history loops.
    proof fn lemma_answer(&self, r: Option<String>)
        requires
            self.inv(),
            !self.collecting,
            self.head == self.queue@.len(),
            r is None <==> self.frontier@.len() == 0,
            r matches Some(b) ==> (exists|i: int| 0 <= i < self.frontier@.len() && #[trigger] self.frontier@[i]@ == b@) && (
                !reached_by_some(self.links@, string_views(self.frontier@), b@) || each_reached(self.links@, string_views(self.frontier@))),
        ensures
            r is None ==> no_common(self.links@, self.first@, self.second@),
            r matches Some(b) ==> common(self.links@, self.first@, self.second@, b@) && (lowest_common(
                self.links@,
                self.first@,
                self.second@,
                b@,
            ) || commons_all_reached(self.links@, self.first@, self.second@)),
            r matches Some(b) ==> (commons_loop_free(self.links@, self.first@, self.second@) ==> lowest_common(
                self.links@,
                self.first@,
                self.second@,
                b@,
            )),
    {
        let e = self.links@;
        let fr = self.frontier@;
        let sv = string_views(fr);
        let f1 = self.first@;
        let f2 = self.second@;
        self.lemma_exhausted();
        assert forall|i: int| 0 <= i < fr.len() implies #[trigger] common(e, f1, f2, fr[i]@) by {
            assert(listed(fr, fr[i]@));
            assert(listed(self.ancestors@, fr[i]@));
            let k = choose|k: int| 0 <= k < self.ancestors@.len() && #[trigger] self.ancestors@[k]@ == fr[i]@;
            assert(reaches(e, f1, self.ancestors@[k]@));
        }
        match r {
            None => {
                assert forall|c: Seq<char>| !(#[trigger] reaches(e, f1, c) && reaches(e, f2, c)) by {
                    if reaches(e, f1, c) && reaches(e, f2, c) {
                        assert(common(e, f1, f2, c));
                    }
                }
            },
            Some(b) => {
                let ib = choose|i: int| 0 <= i < fr.len() && #[trigger] fr[i]@ == b@;
                assert(common(e, f1, f2, fr[ib]@));
                if !reached_by_some(e, sv, b@) {
                    assert forall|c: Seq<char>| #[trigger] common(e, f1, f2, c) && reaches(e, c, b@) implies c == b@ by {
                        if c != b@ {
                            let i = choose|i: int| 0 <= i < fr.len() && reaches(e, #[trigger] fr[i]@, c);
                            lemma_reaches_strictly(e, c, b@);
                            let p = choose|p: Seq<char>| #[trigger] e.contains((c, p)) && reaches(e, p, b@);
                            if fr[i]@ == c {
                                assert(strictly(e, fr[i]@, b@));
                            } else {
                                lemma_reaches_strictly(e, fr[i]@, c);
                                let q = choose|q: Seq<char>| #[trigger] e.contains((fr[i]@, q)) && reaches(e, q, c);
                                lemma_reaches_step(e, q, c, p);
                                lemma_reaches_trans(e, q, p, b@);
                                assert(strictly(e, fr[i]@, b@));
                            }
                            assert(sv[i] == fr[i]@);
                            assert(reached_by_some(e, sv, b@));
                        }
                    }
                } else {
                    assert(each_reached(e, sv));
                    if commons_loop_free(e, f1, f2) {
                        assert forall|i: int| 0 <= i < sv.len() implies !strictly(e, #[trigger] sv[i], sv[i]) by {
                            assert(sv[i] == fr[i]@);
                            assert(common(e, f1, f2, fr[i]@));
                        }
                        lemma_some_unreached(e, sv);
                    }
                    assert forall|c: Seq<char>| #[trigger] common(e, f1, f2, c) implies exists|d: Seq<char>| common(e, f1, f2, d)
                        && #[trigger] strictly(e, d, c) by {
                        let i = choose|i: int| 0 <= i < fr.len() && reaches(e, #[trigger] fr[i]@, c);
                        assert(sv[i] == fr[i]@);
                        assert(reached_by_some(e, sv, sv[i]));
                        let j = choose|j: int| 0 <= j < sv.len() && #[trigger] strictly(e, sv[j], sv[i]);
                        let p = choose|p: Seq<char>| #[trigger] e.contains((sv[j], p)) && reaches(e, p, sv[i]);
                        lemma_reaches_trans(e, p, sv[i], c);
                        assert(strictly(e, sv[j], c));
                        assert(common(e, f1, f2, fr[j]@));
                    }
                }
            },
        }
    }

    /// Taking the next queued commit leaves the others queued.
    proof fn lemma_pop(before: MergeBaseSearch, after: MergeBaseSearch)
        requires
            after.queue@ == before.queue@,
            after.head == before.head + 1,
            before.head < before.queue@.len(),
        ensures
            forall|x: Seq<char>| #[trigger] before.queued(x) ==> after.queued(x) || x == before.queue@[before.head as int]@,
            forall|x: Seq<char>| #[trigger] after.queued(x) ==> before.queued(x),
    {
        assert forall|x: Seq<char>| #[trigger] before.queued(x) implies after.queued(x) || x == before.queue@[before.head as int]@ by {
            let i = choose|i: int| before.head <= i < before.queue@.len() && #[trigger] before.queue@[i]@ == x;
            if i > before.head {
                assert(after.queue@[i]@ == x);
            }
        }
        assert forall|x: Seq<char>| #[trigger] after.queued(x) implies before.queued(x) by {
            let i = choose|i: int| after.head <= i < after.queue@.len() && #[trigger] after.queue@[i]@ == x;
            assert(before.queue@[i]@ == x);
        }
    }

    /// One step of collecting the first commit's ancestors: the next queued
    /// commit is taken; when it is new, it is collected and its parents are
    /// asked for.
    fn collect_next(&mut self) -> (out: Option<String>)
        requires
            old(self).inv(),
            old(self).asked@ is None,
            old(self).collecting,
            old(self).head < old(self).queue.len(),
        ensures
            final(self).inv(),
            final(self).collecting,
            final(self).first@ == old(self).first@,
            final(self).second@ == old(self).second@,
            final(self).links@ == old(self).links@,
            final(self).graph@ == old(self).graph@,
            out is None ==> final(self).asked@ is None && final(self).queue@.len() - final(self).head < old(self).queue@.len()
                - old(self).head,
            out matches Some(s) ==> final(self).asked@ == Some(s@),
    {
        let s = self.queue[self.head].clone();
        let ghost sv = s@;
        let ghost before = *self;
        self.head = self.head + 1;
        proof {
            Self::lemma_pop(before, *self);
        }
        if contains_str(&self.ancestors, s.as_str()) {
            return None;
        }
        self.ancestors.push(s.clone());
        proof {
            assert forall|x: Seq<char>| #[trigger] listed(self.ancestors@, x) <==> (listed(before.ancestors@, x) || x == sv) by {
                lemma_listed_push(before.ancestors@, s, x);
            }
            assert(self.ancestors@[self.ancestors@.len() - 1]@ == sv);
        }
        self.last = s.clone();
        self.asked = Ghost(Some(sv));
        Some(s)
    }

    /// One step of the walk through the second commit's history: the next
    /// queued commit is taken; one that was collected is kept as a place
    /// where the walk stops, a new one is visited and its parents are asked
    /// for.
    fn walk_next(&mut self) -> (out: Option<String>)
        requires
            old(self).inv(),
            old(self).asked@ is None,
            !old(self).collecting,
            old(self).head < old(self).queue.len(),
        ensures
            final(self).inv(),
            !final(self).collecting,
            final(self).first@ == old(self).first@,
            final(self).second@ == old(self).second@,
            final(self).links@ == old(self).links@,
            final(self).graph@ == old(self).graph@,
            out is None ==> final(self).asked@ is None && final(self).queue@.len() - final(self).head < old(self).queue@.len()
                - old(self).head,
            out matches Some(s) ==> final(self).asked@ == Some(s@),
    {
        let s = self.queue[self.head].clone();
        let ghost sv = s@;
        let ghost before = *self;
        self.head = self.head + 1;
        proof {
            Self::lemma_pop(before, *self);
            assert(reaches(self.links@, self.second@, before.queue@[before.head as int]@));
        }
        if contains_str(&self.ancestors, s.as_str()) {
            if !contains_str(&self.frontier, s.as_str()) {
                self.frontier.push(s.clone());
                proof {
                    assert forall|x: Seq<char>| #[trigger] listed(self.frontier@, x) <==> (listed(before.frontier@, x) || x == sv) by {
                        lemma_listed_push(before.frontier@, s, x);
                    }
                    assert(self.frontier@[self.frontier@.len() - 1]@ == sv);
                }
            }
            return None;
        }
        if contains_str(&self.visited, s.as_str()) {
            return None;
        }
        self.visited.push(s.clone());
        proof {
            assert forall|x: Seq<char>| #[trigger] listed(self.visited@, x) <==> (listed(before.visited@, x) || x == sv) by {
                lemma_listed_push(before.visited@, s, x);
            }
            assert(self.visited@[self.visited@.len() - 1]@ == sv);
        }
        self.last = s.clone();
        self.asked = Ghost(Some(sv));
        Some(s)
    }

    /// Turns from collecting the first commit's ancestors to walking the
    /// second commit's history.
    fn begin_walk(&mut self)
        requires
            old(self).inv(),
            old(self).asked@ is None,
            old(self).collecting,
            old(self).head == old(self).queue@.len(),
        ensures
            final(self).inv(),
            !final(self).collecting,
            final(self).asked@ is None,
            final(self).first@ == old(self).first@,
            final(self).second@ == old(self).second@,
            final(self).links@ == old(self).links@,
            final(self).graph@ == old(self).graph@,
    {
        let ghost before = *self;
        self.collecting = false;
        self.queue = Vec::new();
        self.queue.push(self.second.clone());
        self.head = 0;
        self.visited = Vec::new();
        proof {
            lemma_reaches_self(self.links@, self.second@);
            assert(self.queue@[0]@ == self.second@);
            assert(self.queued(self.second@));
            assert(!before.queued(self.first@));
            assert forall|c: Seq<char>, p: Seq<char>| #[trigger] self.links@.contains((c, p)) implies listed(self.ancestors@, c)
                && listed(self.ancestors@, p) by {
                assert(!before.queued(p));
            }
        }
    }

    /// Runs the search until it needs the parents of a commit or has the answer.
    fn run(&mut self) -> (out: SearchStep)
        requires
            old(self).inv(),
            old(self).asked@ is None,
        ensures
            final(self).inv(),
            final(self).first_commit() == old(self).first_commit(),
            final(self).second_commit() == old(self).second_commit(),
            final(self).known_links() == old(self).known_links(),
            final(self).answered() == old(self).answered(),
            out matches SearchStep::Need(x) ==> final(self).waiting_for() == Some(x@) && !final(self).answered().contains(x@),
            out matches SearchStep::Done(_) ==> final(self).waiting_for() is None && forall|y: Seq<char>|
                #[trigger] reaches(final(self).known_links(), final(self).first_commit(), y) || reaches(
                    final(self).known_links(),
                    final(self).second_commit(),
                    y,
                ) ==> final(self).answered().contains(y),
            out matches SearchStep::Done(Some(s)) ==> common(final(self).known_links(), final(self).first_commit(), final(self).second_commit(), s@)
                && (lowest_common(final(self).known_links(), final(self).first_commit(), final(self).second_commit(), s@)
                || commons_all_reached(final(self).known_links(), final(self).first_commit(), final(self).second_commit())),
            out matches SearchStep::Done(Some(s)) ==> (commons_loop_free(final(self).known_links(), final(self).first_commit(), final(self).second_commit())
                ==> lowest_common(final(self).known_links(), final(self).first_commit(), final(self).second_commit(), s@)),
            out matches SearchStep::Done(None) ==> no_common(final(self).known_links(), final(self).first_commit(), final(self).second_commit()),
    {
        loop
            invariant
                self.inv(),
                self.asked@ is None,
                self.first@ == old(self).first@,
                self.second@ == old(self).second@,
                self.links@ == old(self).links@,
                self.graph@ == old(self).graph@,
            decreases (if self.collecting { 1int } else { 0int }), self.queue@.len() - self.head,
        {
            if self.head < self.queue.len() {
                if self.collecting {
                    if let Some(s) = self.collect_next() {
                        return SearchStep::Need(s);
                    }
                } else {
                    if let Some(s) = self.walk_next() {
                        return SearchStep::Need(s);
                    }
                }
            } else if self.collecting {
                self.begin_walk();
            } else {
                let r = pick_lowest(&self.frontier, &self.graph);
                proof {
                    self.lemma_answer(r);
                    self.lemma_all_answered();
                }
                return SearchStep::Done(r);
            }
        }
    }

    /// Starts the search for the merge base of `first` and `second`.
    pub fn start(first: &str, second: &str) -> (out: (MergeBaseSearch, SearchStep))
        ensures
            out.0.inv(),
            out.0.first_commit() == first@,
            out.0.second_commit() == second@,
            out.0.known_links() == Set::<(Seq<char>, Seq<char>)>::empty(),
            out.0.answered() == Set::<Seq<char>>::empty(),
            out.1 matches SearchStep::Need(x) ==> out.0.waiting_for() == Some(x@) && !out.0.answered().contains(x@),
            out.1 matches SearchStep::Done(_) ==> out.0.waiting_for() is None && forall|y: Seq<char>|
                #[trigger] reaches(out.0.known_links(), first@, y) || reaches(out.0.known_links(), second@, y)
                    ==> out.0.answered().contains(y),
            out.1 matches SearchStep::Done(Some(s)) ==> common(out.0.known_links(), first@, second@, s@) && (lowest_common(
                out.0.known_links(),
                first@,
                second@,
                s@,
            ) || commons_all_reached(out.0.known_links(), first@, second@)),
            out.1 matches SearchStep::Done(Some(s)) ==> (commons_loop_free(out.0.known_links(), first@, second@) ==> lowest_common(
                out.0.known_links(),
                first@,
                second@,
                s@,
            )),
            out.1 matches SearchStep::Done(None) ==> no_common(out.0.known_links(), first@, second@),
    {
        let mut queue: Vec<String> = Vec::new();
        queue.push(String::from_str(first));
        let mut search = MergeBaseSearch {
            first: String::from_str(first),
            second: String::from_str(second),
            collecting: true,
            queue,
            head: 0,
            ancestors: Vec::new(),
            visited: Vec::new(),
            frontier: Vec::new(),
            graph: Vec::new(),
            last: String::new(),
            links: Ghost(Set::empty()),
            asked: Ghost(None),
        };
        proof {
            assert(graph_links(graph_view(search.graph@)) =~= Set::<(Seq<char>, Seq<char>)>::empty());
            assert(graph_commits(graph_view(search.graph@)) =~= Set::<Seq<char>>::empty());
            lemma_reaches_self(search.links@, search.first@);
            assert(search.queue@[0]@ == search.first@);
            assert(search.queued(search.first@));
        }
        let step = search.run();
        (search, step)
    }

    /// Puts the parents on the queue: all of them while collecting, those
    /// not yet visited while walking the second history.
    fn enqueue_parents(&mut self, parents: &Vec<String>)
        ensures
            final(self).head == old(self).head,
            final(self).collecting == old(self).collecting,
            final(self).first == old(self).first,
            final(self).second == old(self).second,
            final(self).ancestors == old(self).ancestors,
            final(self).visited == old(self).visited,
            final(self).frontier == old(self).frontier,
            final(self).graph == old(self).graph,
            final(self).last == old(self).last,
            final(self).links == old(self).links,
            final(self).asked == old(self).asked,
            final(self).queue@.len() >= old(self).queue@.len(),
            forall|k: int| 0 <= k < old(self).queue@.len() ==> #[trigger] final(self).queue@[k] == old(self).queue@[k],
            forall|k: int| old(self).queue@.len() <= k < final(self).queue@.len() ==> listed(parents@, #[trigger] final(self).queue@[k]@),
            forall|j: int| 0 <= j < parents@.len() && (old(self).collecting || !listed(old(self).visited@, parents@[j]@)) ==> listed_from(
                final(self).queue@,
                old(self).queue@.len() as int,
                #[trigger] parents@[j]@,
            ),
    {
        let ghost start = self.queue@;
        let mut i: usize = 0;
        while i < parents.len()
            invariant
                self.head == old(self).head,
                self.collecting == old(self).collecting,
                self.first == old(self).first,
                self.second == old(self).second,
                self.ancestors == old(self).ancestors,
                self.visited == old(self).visited,
                self.frontier == old(self).frontier,
                self.graph == old(self).graph,
                self.last == old(self).last,
                self.links == old(self).links,
                self.asked == old(self).asked,
                start == old(self).queue@,
                i <= parents@.len(),
                self.queue@.len() >= start.len(),
                forall|k: int| 0 <= k < start.len() ==> #[trigger] self.queue@[k] == start[k],
                forall|k: int| start.len() <= k < self.queue@.len() ==> listed(parents@, #[trigger] self.queue@[k]@),
                forall|j: int| 0 <= j < i && (self.collecting || !listed(self.visited@, parents@[j]@)) ==> listed_from(
                    self.queue@,
                    start.len() as int,
                    #[trigger] parents@[j]@,
                ),
            decreases parents@.len() - i,
        {
            let p = &parents[i];
            let ghost q0 = self.queue@;
            if self.collecting || !contains_str(&self.visited, p.as_str()) {
                self.queue.push(p.clone());
                proof {
                    assert(self.queue@[q0.len() as int]@ == p@);
                    assert(listed(parents@, parents@[i as int]@));
                    assert forall|j: int| 0 <= j < i && (self.collecting || !listed(self.visited@, parents@[j]@)) implies listed_from(
                        self.queue@,
                        start.len() as int,
                        #[trigger] parents@[j]@,
                    ) by {
                        lemma_listed_from_grow(q0, self.queue@, start.len() as int, parents@[j]@);
                    }
                }
            }
            i = i + 1;
        }
    }

    /// The links recorded by `resume`, and the queue it extended, keep what
    /// the search keeps true.
    proof fn lemma_resumed(before: MergeBaseSearch, after: MergeBaseSearch, parents: Seq<String>)
        requires
            before.inv(),
            before.asked@ is Some,
            after.head == before.head,
            after.collecting == before.collecting,
            after.first == before.first,
            after.second == before.second,
            after.ancestors == before.ancestors,
            after.visited == before.visited,
            after.frontier == before.frontier,
            after.links@ == graph_links(graph_view(after.graph@)),
            graph_commits(graph_view(after.graph@)) == graph_commits(graph_view(before.graph@)).insert(before.asked@->0),
            after.asked@ is None,
            after.links@ == before.links@.union(
                Set::new(|l: (Seq<char>, Seq<char>)| l.0 == before.asked@->0 && string_views(parents).contains(l.1)),
            ),
            after.queue@.len() >= before.queue@.len(),
            forall|k: int| 0 <= k < before.queue@.len() ==> #[trigger] after.queue@[k] == before.queue@[k],
            forall|k: int| before.queue@.len() <= k < after.queue@.len() ==> listed(parents, #[trigger] after.queue@[k]@),
            forall|j: int| 0 <= j < parents.len() && (before.collecting || !listed(before.visited@, parents[j]@)) ==> listed_from(
                after.queue@,
                before.queue@.len() as int,
                #[trigger] parents[j]@,
            ),
        ensures
            after.inv(),
    {
        let x = before.asked@->0;
        let old_links = before.links@;
        let e = after.links@;
        let root = before.root();
        assert(old_links.subset_of(e));
        // every parent named in the new links waits in the queue (or was visited)
        assert forall|p: Seq<char>| string_views(parents).contains(p) && (before.collecting || !listed(before.visited@, p)) implies after.queued(p) by {
            let j = choose|j: int| 0 <= j < string_views(parents).len() && string_views(parents)[j] == p;
            assert(parents[j]@ == p);
            let q = choose|q: int| before.queue@.len() <= q < after.queue@.len() && #[trigger] after.queue@[q]@ == parents[j]@;
            assert(after.queue@[q]@ == p);
        }
        assert forall|y: Seq<char>| before.queued(y) implies after.queued(y) by {
            lemma_listed_from_grow(before.queue@, after.queue@, before.head as int, y);
        }
        // reached
        lemma_reaches_more(old_links, e, root, x);
        assert forall|i: int| 0 <= i < after.ancestors@.len() implies reaches(e, after.first@, #[trigger] after.ancestors@[i]@) by {
            lemma_reaches_more(old_links, e, after.first@, after.ancestors@[i]@);
        }
        assert forall|i: int| 0 <= i < after.visited@.len() implies reaches(e, after.second@, #[trigger] after.visited@[i]@) by {
            lemma_reaches_more(old_links, e, after.second@, after.visited@[i]@);
        }
        assert forall|i: int| 0 <= i < after.frontier@.len() implies reaches(e, after.second@, #[trigger] after.frontier@[i]@) by {
            lemma_reaches_more(old_links, e, after.second@, after.frontier@[i]@);
        }
        assert forall|i: int| after.head <= i < after.queue@.len() implies reaches(e, after.root(), #[trigger] after.queue@[i]@) by {
            if i < before.queue@.len() {
                assert(after.queue@[i] == before.queue@[i]);
                lemma_reaches_more(old_links, e, root, before.queue@[i]@);
            } else {
                let p = after.queue@[i]@;
                let j = choose|j: int| 0 <= j < parents.len() && #[trigger] parents[j]@ == p;
                assert(string_views(parents)[j] == p);
                assert(e.contains((x, p)));
                lemma_reaches_step(e, root, x, p);
            }
        }
        assert(after.reached());
        // closed
        let a = after.ancestors@;
        let v = after.visited@;
        if after.collecting {
            assert forall|c: Seq<char>, p: Seq<char>| #[trigger] e.contains((c, p)) implies listed(a, c) && (listed(a, p) || after.queued(p)) by {
                if old_links.contains((c, p)) {
                    assert(listed(a, c) && (listed(a, p) || before.queued(p)));
                }
            }
        } else {
            let fr = after.frontier@;
            assert forall|c: Seq<char>, p: Seq<char>| #[trigger] e.contains((c, p)) implies (listed(a, c) && listed(a, p)) || (listed(v, c)
                && !listed(a, c) && (listed(v, p) || after.queued(p) || listed(fr, p))) by {
                if old_links.contains((c, p)) {
                    assert((listed(a, c) && listed(a, p)) || (listed(v, c) && !listed(a, c) && (listed(v, p) || before.queued(p)
                        || listed(fr, p))));
                }
            }
        }
        assert(after.closed_walk());
        assert forall|y: Seq<char>| #[trigger] graph_commits(graph_view(after.graph@)).contains(y) <==> ((listed(after.ancestors@, y)
            || listed(after.visited@, y)) && after.asked@ != Some(y)) by {
            if y != x {
                assert(graph_commits(graph_view(before.graph@)).contains(y) == graph_commits(graph_view(after.graph@)).contains(y));
            }
        }
    }

    /// Hands the search the parents of the commit it asked about, and runs
    /// it on.
    pub fn resume(&mut self, parents: Vec<String>) -> (out: SearchStep)
        requires
            old(self).inv(),
            old(self).waiting_for() is Some,
        ensures
            final(self).inv(),
            final(self).first_commit() == old(self).first_commit(),
            final(self).second_commit() == old(self).second_commit(),
            final(self).known_links() == old(self).known_links().union(
                Set::new(|l: (Seq<char>, Seq<char>)| l.0 == old(self).waiting_for()->0 && string_views(parents@).contains(l.1)),
            ),
            final(self).answered() == old(self).answered().insert(old(self).waiting_for()->0),
            out matches SearchStep::Need(x) ==> final(self).waiting_for() == Some(x@) && !final(self).answered().contains(x@),
            out matches SearchStep::Done(_) ==> final(self).waiting_for() is None && forall|y: Seq<char>|
                #[trigger] reaches(final(self).known_links(), final(self).first_commit(), y) || reaches(
                    final(self).known_links(),
                    final(self).second_commit(),
                    y,
                ) ==> final(self).answered().contains(y),
            out matches SearchStep::Done(Some(s)) ==> common(final(self).known_links(), final(self).first_commit(), final(self).second_commit(), s@)
                && (lowest_common(final(self).known_links(), final(self).first_commit(), final(self).second_commit(), s@)
                || commons_all_reached(final(self).known_links(), final(self).first_commit(), final(self).second_commit())),
            out matches SearchStep::Done(Some(s)) ==> (commons_loop_free(final(self).known_links(), final(self).first_commit(), final(self).second_commit())
                ==> lowest_common(final(self).known_links(), final(self).first_commit(), final(self).second_commit(), s@)),
            out matches SearchStep::Done(None) ==> no_common(final(self).known_links(), final(self).first_commit(), final(self).second_commit()),
    {
        let ghost before = *self;
        let ghost pv = parents@;
        self.enqueue_parents(&parents);
        let last = self.last.clone();
        let ghost gv0 = graph_view(self.graph@);
        self.graph.push((last, parents));
        proof {
            let x = before.asked@->0;
            let added = Set::new(|l: (Seq<char>, Seq<char>)| l.0 == x && string_views(pv).contains(l.1));
            let gv = graph_view(self.graph@);
            assert(self.graph@ == before.graph@.push((self.graph@.last().0, self.graph@.last().1)));
            assert(gv0 == graph_view(before.graph@));
            assert(graph_links(gv0) == before.links@);
            assert(self.last@ == x);
            assert(gv == gv0.push((x, string_views(pv))));
            lemma_graph_commits_push(gv0, (x, string_views(pv)));
            assert forall|l: (Seq<char>, Seq<char>)| #[trigger] graph_links(gv).contains(l) == before.links@.union(added).contains(l) by {
                if graph_links(gv).contains(l) {
                    let i = choose|i: int| 0 <= i < gv.len() && #[trigger] gv[i].0 == l.0 && gv[i].1.contains(l.1);
                    if i < gv0.len() {
                        assert(gv0[i] == gv[i]);
                        assert(graph_links(gv0).contains(l));
                    } else {
                        assert(added.contains(l));
                    }
                }
                if graph_links(gv0).contains(l) {
                    let i = choose|i: int| 0 <= i < gv0.len() && #[trigger] gv0[i].0 == l.0 && gv0[i].1.contains(l.1);
                    assert(gv[i] == gv0[i]);
                }
                if added.contains(l) {
                    assert(gv[gv0.len() as int].0 == l.0);
                    assert(gv[gv0.len() as int].1.contains(l.1));
                }
            }
            assert(graph_links(gv) =~= before.links@.union(added));
            self.links = Ghost(before.links@.union(added));
            assert(self.links@ =~= before.links@.union(
                Set::new(|l: (Seq<char>, Seq<char>)| l.0 == before.asked@->0 && string_views(pv).contains(l.1)),
            ));
            self.asked = Ghost(None);
            Self::lemma_resumed(before, *self, pv);
        }
        self.run()
    }
}

} // verus!
