//! The part of a commit history that a search has read: each commit it asked
//! about with the parents it was given. Reachability over these links is
//! computed here, and the lowest of a set of commits is picked.

use vstd::prelude::*;
use crate::history::{HistoryWalk, unshown, lemma_unshown};
use crate::merge::{reaches, is_chain, string_views, lemma_reaches_more, lemma_reaches_self, lemma_reaches_step, lemma_closed_reach, lemma_reaches_trans};
use crate::text::str_eq;

verus! {

broadcast use vstd::seq::group_seq_axioms;

/// The view of a read history: each commit with its parents.
pub open spec fn graph_view(g: Seq<(String, Vec<String>)>) -> Seq<(Seq<char>, Seq<Seq<char>>)> {
    g.map_values(|e: (String, Vec<String>)| (e.0@, string_views(e.1@)))
}

/// The (child, parent) links of a read history.
pub open spec fn graph_links(g: Seq<(Seq<char>, Seq<Seq<char>>)>) -> Set<(Seq<char>, Seq<char>)> {
    Set::new(|l: (Seq<char>, Seq<char>)| exists|i: int| 0 <= i < g.len() && #[trigger] g[i].0 == l.0 && g[i].1.contains(l.1))
}

/// The commits of a read history whose parents were handed in.
pub open spec fn graph_commits(g: Seq<(Seq<char>, Seq<Seq<char>>)>) -> Set<Seq<char>> {
    Set::new(|x: Seq<char>| exists|i: int| 0 <= i < g.len() && #[trigger] g[i].0 == x)
}

/// One more entry in a read history adds its commit.
pub proof fn lemma_graph_commits_push(g: Seq<(Seq<char>, Seq<Seq<char>>)>, e: (Seq<char>, Seq<Seq<char>>))
    ensures
        graph_commits(g.push(e)) == graph_commits(g).insert(e.0),
{
    let h = g.push(e);
    assert forall|x: Seq<char>| #[trigger] graph_commits(h).contains(x) == graph_commits(g).insert(e.0).contains(x) by {
        if graph_commits(h).contains(x) {
            let i = choose|i: int| 0 <= i < h.len() && #[trigger] h[i].0 == x;
            if i < g.len() {
                assert(g[i] == h[i]);
            }
        }
        if graph_commits(g).contains(x) {
            let i = choose|i: int| 0 <= i < g.len() && #[trigger] g[i].0 == x;
            assert(h[i] == g[i]);
        }
        if x == e.0 {
            assert(h[g.len() as int] == e);
        }
    }
    assert(graph_commits(h) =~= graph_commits(g).insert(e.0));
}

/// One more entry in a read history adds the links from its commit to its
/// parents.
pub proof fn lemma_graph_links_push(g: Seq<(Seq<char>, Seq<Seq<char>>)>, e: (Seq<char>, Seq<Seq<char>>))
    ensures
        graph_links(g.push(e)) == graph_links(g).union(
            Set::new(|l: (Seq<char>, Seq<char>)| l.0 == e.0 && e.1.contains(l.1)),
        ),
{
    let h = g.push(e);
    let added = Set::new(|l: (Seq<char>, Seq<char>)| l.0 == e.0 && e.1.contains(l.1));
    assert forall|l: (Seq<char>, Seq<char>)| #[trigger] graph_links(h).contains(l) == graph_links(g).union(added).contains(l) by {
        if graph_links(h).contains(l) {
            let i = choose|i: int| 0 <= i < h.len() && #[trigger] h[i].0 == l.0 && h[i].1.contains(l.1);
            if i < g.len() {
                assert(g[i] == h[i]);
            }
        }
        if graph_links(g).contains(l) {
            let i = choose|i: int| 0 <= i < g.len() && #[trigger] g[i].0 == l.0 && g[i].1.contains(l.1);
            assert(h[i] == g[i]);
        }
        if added.contains(l) {
            assert(h[g.len() as int] == e);
        }
    }
    assert(graph_links(h) =~= graph_links(g).union(added));
}

/// Every parent named in a read history, in order.
pub open spec fn all_parents(g: Seq<(Seq<char>, Seq<Seq<char>>)>) -> Seq<Seq<char>>
    decreases g.len(),
{
    if g.len() == 0 {
        Seq::empty()
    } else {
        all_parents(g.drop_last()) + g.last().1
    }
}

/// `y` is reached from `x` through at least one link.
pub open spec fn strictly(links: Set<(Seq<char>, Seq<char>)>, x: Seq<char>, y: Seq<char>) -> bool {
    exists|p: Seq<char>| #[trigger] links.contains((x, p)) && reaches(links, p, y)
}

/// A commit reached through a link is reached.
pub proof fn lemma_strictly_reaches(links: Set<(Seq<char>, Seq<char>)>, x: Seq<char>, y: Seq<char>)
    requires
        strictly(links, x, y),
    ensures
        reaches(links, x, y),
{
    let p = choose|p: Seq<char>| #[trigger] links.contains((x, p)) && reaches(links, p, y);
    lemma_reaches_self(links, x);
    lemma_reaches_step(links, x, x, p);
    lemma_reaches_trans(links, x, p, y);
}

/// Reaching through links is transitive.
pub proof fn lemma_strictly_trans(links: Set<(Seq<char>, Seq<char>)>, x: Seq<char>, y: Seq<char>, z: Seq<char>)
    requires
        strictly(links, x, y),
        strictly(links, y, z),
    ensures
        strictly(links, x, z),
{
    let p = choose|p: Seq<char>| #[trigger] links.contains((x, p)) && reaches(links, p, y);
    lemma_strictly_reaches(links, y, z);
    lemma_reaches_trans(links, p, y, z);
}

/// A commit reached through links from `u` has a child reached from `u`.
pub proof fn lemma_last_link(links: Set<(Seq<char>, Seq<char>)>, u: Seq<char>, c: Seq<char>)
    requires
        strictly(links, u, c),
    ensures
        exists|y: Seq<char>| #[trigger] links.contains((y, c)) && reaches(links, u, y),
{
    let p = choose|p: Seq<char>| #[trigger] links.contains((u, p)) && reaches(links, p, c);
    lemma_reaches_self(links, u);
    lemma_reaches_step(links, u, u, p);
    reveal(reaches);
    let path = choose|path: Seq<Seq<char>>| #[trigger] is_chain(links, path) && path.len() >= 1 && path[0] == p && path.last() == c;
    if path.len() == 1 {
        assert(links.contains((u, c)));
    } else {
        let n = path.len() - 1;
        let pre = path.take(n);
        assert forall|i: int| 0 <= i < pre.len() - 1 implies links.contains((#[trigger] pre[i], pre[i + 1])) by {
            assert(links.contains((path[i], path[i + 1])));
        }
        assert(is_chain(links, pre));
        assert(pre.last() == path[n - 1]);
        assert(reaches(links, p, path[n - 1]));
        assert(links.contains((path[n - 1], path[n])));
        lemma_reaches_trans(links, u, p, path[n - 1]);
    }
}

/// Among finitely many commits none of which is its own ancestor, one is
/// reached from none of the others.
pub proof fn lemma_some_unreached(links: Set<(Seq<char>, Seq<char>)>, cs: Seq<Seq<char>>)
    requires
        cs.len() > 0,
        forall|i: int| 0 <= i < cs.len() ==> !strictly(links, #[trigger] cs[i], cs[i]),
    ensures
        !each_reached(links, cs),
    decreases cs.len(),
{
    let n = cs.len() - 1;
    if n == 0 {
        assert forall|j: int| 0 <= j < cs.len() implies !strictly(links, #[trigger] cs[j], cs[0]) by {
            assert(j == 0);
        }
        assert(!reached_by_some(links, cs, cs[0]));
    } else {
        let init = cs.drop_last();
        assert forall|i: int| 0 <= i < init.len() implies !strictly(links, #[trigger] init[i], init[i]) by {
            assert(init[i] == cs[i]);
        }
        lemma_some_unreached(links, init);
        let i = choose|i: int| 0 <= i < init.len() && !#[trigger] reached_by_some(links, init, init[i]);
        assert(init[i] == cs[i]);
        assert forall|j: int| 0 <= j < init.len() implies !strictly(links, #[trigger] init[j], init[i]) by {
            if strictly(links, init[j], init[i]) {
                assert(reached_by_some(links, init, init[i]));
            }
        }
        if !strictly(links, cs[n], cs[i]) {
            assert forall|j: int| 0 <= j < cs.len() implies !strictly(links, #[trigger] cs[j], cs[i]) by {
                if j < n {
                    assert(init[j] == cs[j]);
                }
            }
            assert(!reached_by_some(links, cs, cs[i]));
        } else {
            assert forall|j: int| 0 <= j < cs.len() implies !strictly(links, #[trigger] cs[j], cs[n]) by {
                if j < n {
                    assert(init[j] == cs[j]);
                    if strictly(links, cs[j], cs[n]) {
                        lemma_strictly_trans(links, cs[j], cs[n], cs[i]);
                    }
                }
            }
            assert(!reached_by_some(links, cs, cs[n]));
        }
    }
}

/// A parent of an entry is among all the parents.
proof fn lemma_all_parents(g: Seq<(Seq<char>, Seq<Seq<char>>)>, i: int, q: Seq<char>)
    requires
        0 <= i < g.len(),
        g[i].1.contains(q),
    ensures
        all_parents(g).contains(q),
    decreases g.len(),
{
    let init = g.drop_last();
    if i < g.len() - 1 {
        assert(init[i] == g[i]);
        lemma_all_parents(init, i, q);
        let k = choose|k: int| 0 <= k < all_parents(init).len() && all_parents(init)[k] == q;
        assert(all_parents(g)[k] == q);
    } else {
        let k = choose|k: int| 0 <= k < g[i].1.len() && g[i].1[k] == q;
        assert(all_parents(g)[all_parents(init).len() + k] == q);
    }
}

/// A list without repeats, all of whose elements are in `u`, is no longer
/// than `u`.
proof fn lemma_distinct_within(sh: Seq<Seq<char>>, u: Seq<Seq<char>>)
    requires
        sh.no_duplicates(),
        forall|i: int| 0 <= i < sh.len() ==> u.contains(#[trigger] sh[i]),
    ensures
        sh.len() <= u.len(),
{
    assert forall|x: Seq<char>| sh.to_set().contains(x) implies u.to_set().contains(x) by {
        let j = choose|j: int| 0 <= j < sh.len() && sh[j] == x;
        assert(u.contains(sh[j]));
    }
    vstd::seq_lib::seq_to_set_is_finite(u);
    vstd::set_lib::lemma_len_subset(sh.to_set(), u.to_set());
    sh.unique_seq_to_set();
    u.lemma_cardinality_of_set();
}

/// The parents recorded for `y` (over every entry of `y`).
pub fn parents_of(graph: &Vec<(String, Vec<String>)>, y: &str) -> (out: Vec<String>)
    ensures
        forall|q: Seq<char>| #[trigger] string_views(out@).contains(q) <==> graph_links(graph_view(graph@)).contains((y@, q)),
        forall|q: Seq<char>| string_views(out@).contains(q) ==> #[trigger] all_parents(graph_view(graph@)).contains(q),
{
    let ghost gv = graph_view(graph@);
    let mut out: Vec<String> = Vec::new();
    let mut i: usize = 0;
    while i < graph.len()
        invariant
            gv == graph_view(graph@),
            i <= graph@.len(),
            forall|q: Seq<char>| #[trigger] string_views(out@).contains(q) <==> exists|j: int|
                0 <= j < i && gv[j].0 == y@ && #[trigger] gv[j].1.contains(q),
            forall|q: Seq<char>| string_views(out@).contains(q) ==> #[trigger] all_parents(gv).contains(q),
        decreases graph@.len() - i,
    {
        if str_eq(graph[i].0.as_str(), y) {
            let ps = &graph[i].1;
            let mut t: usize = 0;
            let ghost base = string_views(out@);
            while t < ps.len()
                invariant
                    forall|q: Seq<char>| #[trigger] base.contains(q) <==> exists|j: int|
                        0 <= j < i && gv[j].0 == y@ && #[trigger] gv[j].1.contains(q),
                    forall|q: Seq<char>| base.contains(q) ==> #[trigger] all_parents(gv).contains(q),
                    gv == graph_view(graph@),
                    i < graph@.len(),
                    ps@ == graph@[i as int].1@,
                    gv[i as int].1 == string_views(ps@),
                    t <= ps@.len(),
                    string_views(out@) == base + string_views(ps@).take(t as int),
                decreases ps@.len() - t,
            {
                let ghost o0 = string_views(out@);
                out.push(ps[t].clone());
                assert(string_views(out@) == o0.push(ps@[t as int]@));
                assert(string_views(ps@).take(t + 1) == string_views(ps@).take(t as int).push(ps@[t as int]@));
                t = t + 1;
            }
            proof {
                assert(string_views(ps@).take(ps@.len() as int) == string_views(ps@));
                let now = string_views(out@);
                assert(now == base + gv[i as int].1);
                assert forall|q: Seq<char>| #[trigger] now.contains(q) <==> exists|j: int|
                    0 <= j < i + 1 && gv[j].0 == y@ && #[trigger] gv[j].1.contains(q) by {
                    if now.contains(q) {
                        let k = choose|k: int| 0 <= k < now.len() && now[k] == q;
                        if k < base.len() {
                            assert(base[k] == q);
                            assert(base.contains(q));
                        } else {
                            assert(gv[i as int].1[k - base.len()] == q);
                            assert(gv[i as int].1.contains(q));
                        }
                    }
                    if exists|j: int| 0 <= j < i + 1 && gv[j].0 == y@ && #[trigger] gv[j].1.contains(q) {
                        let j = choose|j: int| 0 <= j < i + 1 && gv[j].0 == y@ && #[trigger] gv[j].1.contains(q);
                        if j < i {
                            assert(base.contains(q));
                            let k = choose|k: int| 0 <= k < base.len() && base[k] == q;
                            assert(now[k] == q);
                        } else {
                            let k = choose|k: int| 0 <= k < gv[i as int].1.len() && gv[i as int].1[k] == q;
                            assert(now[base.len() + k] == q);
                        }
                    }
                }
                assert forall|q: Seq<char>| now.contains(q) implies #[trigger] all_parents(gv).contains(q) by {
                    let k = choose|k: int| 0 <= k < now.len() && now[k] == q;
                    if k < base.len() {
                        assert(base[k] == q);
                    } else {
                        assert(gv[i as int].1[k - base.len()] == q);
                        lemma_all_parents(gv, i as int, q);
                    }
                }
            }
        } else {
            proof {
                assert(gv[i as int].0 != y@);
                assert forall|q: Seq<char>| #[trigger] string_views(out@).contains(q) <==> exists|j: int|
                    0 <= j < i + 1 && gv[j].0 == y@ && #[trigger] gv[j].1.contains(q) by {
                    if exists|j: int| 0 <= j < i + 1 && gv[j].0 == y@ && #[trigger] gv[j].1.contains(q) {
                        let j = choose|j: int| 0 <= j < i + 1 && gv[j].0 == y@ && #[trigger] gv[j].1.contains(q);
                        assert(j < i);
                    }
                }
            }
        }
        i = i + 1;
    }
    proof {
        assert forall|q: Seq<char>| #[trigger] string_views(out@).contains(q) <==> graph_links(gv).contains((y@, q)) by {
            if graph_links(gv).contains((y@, q)) {
                let j = choose|j: int| 0 <= j < gv.len() && #[trigger] gv[j].0 == y@ && gv[j].1.contains(q);
                assert(gv[j].1.contains(q));
            }
        }
    }
    out
}

/// Whether `target` is reached from `from` through the links of the history.
pub fn reaches_from(graph: &Vec<(String, Vec<String>)>, from: &str, target: &str) -> (out: bool)
    ensures
        out == reaches(graph_links(graph_view(graph@)), from@, target@),
{
    let ghost gv = graph_view(graph@);
    let ghost gl = graph_links(gv);
    let ghost u = seq![from@] + all_parents(gv);
    let mut walk = HistoryWalk::new(from);
    proof {
        assert(walk.pending()[0] == from@);
        assert(u[0] == from@);
        assert(walk.known_links() =~= Set::new(
            |l: (Seq<char>, Seq<char>)| walk.shown_commits().contains(l.0) && gl.contains(l),
        ));
    }
    loop
        invariant
            gv == graph_view(graph@),
            gl == graph_links(gv),
            u == seq![from@] + all_parents(gv),
            walk.inv(),
            walk.waiting_for() is None,
            walk.root_commit() == from@,
            walk.shown_commits().no_duplicates(),
            walk.known_links() == Set::new(
                |l: (Seq<char>, Seq<char>)| walk.shown_commits().contains(l.0) && gl.contains(l),
            ),
            forall|x: Seq<char>| walk.shown_commits().contains(x) ==> reaches(walk.known_links(), from@, x),
            !walk.shown_commits().contains(target@),
            forall|i: int| 0 <= i < walk.pending().len() ==> u.contains(#[trigger] walk.pending()[i]),
            forall|i: int| 0 <= i < walk.shown_commits().len() ==> u.contains(#[trigger] walk.shown_commits()[i]),
        decreases u.len() - walk.shown_commits().len(),
    {
        let ghost before = walk;
        match walk.next_commit() {
            None => {
                proof {
                    let sh = walk.shown_commits();
                    let inside = |x: Seq<char>| sh.contains(x);
                    assert forall|x: Seq<char>, y: Seq<char>| #[trigger] gl.contains((x, y)) && inside(x) implies inside(y) by {
                        assert(walk.known_links().contains((x, y)));
                        lemma_reaches_step(walk.known_links(), from@, x, y);
                    }
                    lemma_reaches_self(walk.known_links(), from@);
                    if reaches(gl, from@, target@) {
                        lemma_closed_reach(gl, inside, from@, target@);
                    }
                }
                return false;
            },
            Some(s) => {
                proof {
                    let k = choose|k: int|
                        0 <= k < before.pending().len() && before.pending()[k] == s@ && (forall|j: int|
                            0 <= j < k ==> before.shown_commits().contains(#[trigger] before.pending()[j]))
                            && walk.pending() == before.pending().skip(k + 1);
                    assert(u.contains(before.pending()[k]));
                    assert(walk.known_links().subset_of(gl));
                    lemma_reaches_more(walk.known_links(), gl, from@, s@);
                }
                if str_eq(s.as_str(), target) {
                    return true;
                }
                let ps = parents_of(graph, s.as_str());
                let ghost mid = walk;
                walk.add_parents(ps);
                proof {
                    let sh = walk.shown_commits();
                    assert(sh == before.shown_commits().push(s@));
                    assert(mid.known_links().subset_of(walk.known_links()));
                    assert forall|x: Seq<char>| sh.contains(x) implies reaches(walk.known_links(), from@, x) by {
                        let j = choose|j: int| 0 <= j < sh.len() && sh[j] == x;
                        if j < sh.len() - 1 {
                            assert(before.shown_commits()[j] == x);
                            assert(before.shown_commits().contains(x));
                        }
                        lemma_reaches_more(mid.known_links(), walk.known_links(), from@, x);
                    }
                    assert(!sh.contains(target@)) by {
                        if sh.contains(target@) {
                            let j = choose|j: int| 0 <= j < sh.len() && sh[j] == target@;
                            if j < sh.len() - 1 {
                                assert(before.shown_commits()[j] == target@);
                            }
                        }
                    }
                    let ek = Set::new(|l: (Seq<char>, Seq<char>)| l.0 == s@ && string_views(ps@).contains(l.1));
                    assert(walk.known_links() == mid.known_links().union(ek));
                    assert(mid.known_links() == before.known_links());
                    assert(!before.shown_commits().contains(s@));
                    assert forall|l: (Seq<char>, Seq<char>)| walk.known_links().contains(l) <==> sh.contains(l.0)
                        && gl.contains(l) by {
                        if l.0 == s@ {
                            assert(sh[sh.len() - 1] == s@);
                            assert(string_views(ps@).contains(l.1) <==> gl.contains((s@, l.1)));
                            assert(!before.known_links().contains(l));
                        } else {
                            assert(!ek.contains(l));
                            if sh.contains(l.0) {
                                let j = choose|j: int| 0 <= j < sh.len() && sh[j] == l.0;
                                assert(j < sh.len() - 1);
                                assert(before.shown_commits()[j] == l.0);
                                assert(before.shown_commits().contains(l.0));
                            }
                            if before.shown_commits().contains(l.0) {
                                let j = choose|j: int| 0 <= j < before.shown_commits().len() && before.shown_commits()[j] == l.0;
                                assert(sh[j] == l.0);
                            }
                        }
                    }
                    assert(walk.known_links() =~= Set::new(
                        |l: (Seq<char>, Seq<char>)| sh.contains(l.0) && gl.contains(l),
                    ));
                    let added = unshown(before.shown_commits().push(s@), string_views(ps@));
                    assert forall|i: int| 0 <= i < walk.pending().len() implies u.contains(#[trigger] walk.pending()[i]) by {
                        let pk = mid.pending();
                        if i < pk.len() {
                            assert(walk.pending()[i] == pk[i]);
                            let k = choose|k: int|
                                0 <= k < before.pending().len() && before.pending()[k] == s@ && (forall|j: int|
                                    0 <= j < k ==> before.shown_commits().contains(#[trigger] before.pending()[j]))
                                    && mid.pending() == before.pending().skip(k + 1);
                            assert(pk[i] == before.pending()[i + k + 1]);
                        } else {
                            let q = walk.pending()[i];
                            assert(added[i - pk.len()] == q);
                            assert(added.contains(q));
                            lemma_unshown(before.shown_commits().push(s@), string_views(ps@), q);
                            assert(all_parents(gv).contains(q));
                            let k = choose|k: int| 0 <= k < all_parents(gv).len() && all_parents(gv)[k] == q;
                            assert(u[k + 1] == q);
                        }
                    }
                    assert forall|i: int| 0 <= i < sh.len() implies u.contains(#[trigger] sh[i]) by {
                        if i < sh.len() - 1 {
                            assert(sh[i] == before.shown_commits()[i]);
                        }
                    }
                    lemma_distinct_within(before.shown_commits(), u);
                    lemma_distinct_within(sh, u);
                }
            },
        }
    }
}

/// Some commit of `cs` reaches `x` through at least one link.
pub open spec fn reached_by_some(links: Set<(Seq<char>, Seq<char>)>, cs: Seq<Seq<char>>, x: Seq<char>) -> bool {
    exists|i: int| 0 <= i < cs.len() && #[trigger] strictly(links, cs[i], x)
}

/// Each commit of `cs` is reached through at least one link from one of them.
pub open spec fn each_reached(links: Set<(Seq<char>, Seq<char>)>, cs: Seq<Seq<char>>) -> bool {
    forall|k: int| 0 <= k < cs.len() ==> #[trigger] reached_by_some(links, cs, cs[k])
}

/// Whether some commit of `commits` reaches `b` through at least one link.
fn strictly_reached(commits: &Vec<String>, graph: &Vec<(String, Vec<String>)>, b: &str) -> (out: bool)
    ensures
        out == exists|i: int|
            0 <= i < commits@.len() && #[trigger] strictly(graph_links(graph_view(graph@)), commits@[i]@, b@),
{
    let ghost gl = graph_links(graph_view(graph@));
    let mut i: usize = 0;
    while i < commits.len()
        invariant
            gl == graph_links(graph_view(graph@)),
            i <= commits@.len(),
            forall|j: int| 0 <= j < i ==> !#[trigger] strictly(gl, commits@[j]@, b@),
        decreases commits@.len() - i,
    {
        let f = commits[i].as_str();
        let ps = parents_of(graph, f);
        let mut t: usize = 0;
        while t < ps.len()
            invariant
                gl == graph_links(graph_view(graph@)),
                i < commits@.len(),
                f@ == commits@[i as int]@,
                forall|q: Seq<char>| #[trigger] string_views(ps@).contains(q) <==> gl.contains((f@, q)),
                t <= ps@.len(),
                forall|k: int| 0 <= k < t ==> !reaches(gl, #[trigger] ps@[k]@, b@),
            decreases ps@.len() - t,
        {
            if reaches_from(graph, ps[t].as_str(), b) {
                proof {
                    assert(string_views(ps@)[t as int] == ps@[t as int]@);
                    assert(string_views(ps@).contains(ps@[t as int]@));
                    assert(gl.contains((f@, ps@[t as int]@)));
                    assert(strictly(gl, commits@[i as int]@, b@));
                }
                return true;
            }
            t = t + 1;
        }
        proof {
            assert(!strictly(gl, commits@[i as int]@, b@)) by {
                if strictly(gl, commits@[i as int]@, b@) {
                    let p = choose|p: Seq<char>| #[trigger] gl.contains((f@, p)) && reaches(gl, p, b@);
                    assert(string_views(ps@).contains(p));
                    let k = choose|k: int| 0 <= k < string_views(ps@).len() && string_views(ps@)[k] == p;
                    assert(ps@[k]@ == p);
                }
            }
        }
        i = i + 1;
    }
    false
}

/// The position of the first of `cs`, from `k` on, that none of them
/// reaches through at least one link; 0 when there is none.
pub open spec fn first_unreached_from(links: Set<(Seq<char>, Seq<char>)>, cs: Seq<Seq<char>>, k: int) -> int
    decreases cs.len() - k,
{
    if k < 0 || k >= cs.len() {
        0
    } else if !reached_by_some(links, cs, cs[k]) {
        k
    } else {
        first_unreached_from(links, cs, k + 1)
    }
}

/// Picks, in order, the first of `commits` that none of them reaches
/// through at least one link; when each is so reached (a history with a
/// loop), the first of them. `None` when there are none.
pub fn pick_lowest(commits: &Vec<String>, graph: &Vec<(String, Vec<String>)>) -> (out: Option<String>)
    ensures
        out is None <==> commits@.len() == 0,
        out matches Some(b) ==> (exists|i: int| 0 <= i < commits@.len() && #[trigger] commits@[i]@ == b@) && (
            !reached_by_some(graph_links(graph_view(graph@)), string_views(commits@), b@) || each_reached(
                graph_links(graph_view(graph@)),
                string_views(commits@),
            )),
        out matches Some(b) ==> b@ == string_views(commits@)[first_unreached_from(
            graph_links(graph_view(graph@)),
            string_views(commits@),
            0,
        )],
{
    let ghost gl = graph_links(graph_view(graph@));
    if commits.len() == 0 {
        return None;
    }
    let mut j: usize = 0;
    while j < commits.len()
        invariant
            gl == graph_links(graph_view(graph@)),
            j <= commits@.len(),
            forall|k: int| 0 <= k < j ==> #[trigger] reached_by_some(gl, string_views(commits@), commits@[k]@),
            first_unreached_from(gl, string_views(commits@), 0) == first_unreached_from(gl, string_views(commits@), j as int),
        decreases commits@.len() - j,
    {
        let r = strictly_reached(commits, graph, commits[j].as_str());
        proof {
            let cs = string_views(commits@);
            if r {
                let i = choose|i: int| 0 <= i < commits@.len() && #[trigger] strictly(gl, commits@[i]@, commits@[j as int]@);
                assert(cs[i] == commits@[i]@);
                assert(reached_by_some(gl, cs, commits@[j as int]@));
                assert(cs[j as int] == commits@[j as int]@);
                assert(first_unreached_from(gl, cs, j as int) == first_unreached_from(gl, cs, j + 1));
            } else {
                assert(!reached_by_some(gl, cs, commits@[j as int]@)) by {
                    if reached_by_some(gl, cs, commits@[j as int]@) {
                        let i = choose|i: int| 0 <= i < cs.len() && #[trigger] strictly(gl, cs[i], commits@[j as int]@);
                        assert(cs[i] == commits@[i]@);
                    }
                }
                assert(cs[j as int] == commits@[j as int]@);
            }
        }
        if !r {
            let b = commits[j].clone();
            assert(commits@[j as int]@ == b@);
            return Some(b);
        }
        j = j + 1;
    }
    let b = commits[0].clone();
    assert(commits@[0]@ == b@);
    proof {
        let cs = string_views(commits@);
        assert forall|k: int| 0 <= k < cs.len() implies #[trigger] reached_by_some(gl, cs, cs[k]) by {
            assert(cs[k] == commits@[k]@);
        }
    }
    Some(b)
}

} // verus!
