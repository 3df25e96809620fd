//! The walk through the history behind `log`: it names the commits to read,
//! breadth first from a commit and each once, the caller hands back their
//! parents, and the commits are then shown each before all its ancestors.

use vstd::prelude::*;
use crate::merge::{
    reaches, string_views, lemma_closed_reach, lemma_reaches_more, lemma_reaches_self, lemma_reaches_step,
};
use crate::text::str_eq;
use crate::commit_graph::{
    graph_links, graph_view, lemma_graph_links_push, parents_of, strictly, reached_by_some, each_reached,
    lemma_some_unreached, lemma_last_link,
};
use crate::merge::{lemma_reaches_strictly, lemma_reaches_trans};

verus! {

broadcast use vstd::seq::group_seq_axioms;

/// The parents in `ps` that are not among `shown`, in their order.
pub open spec fn unshown(shown: Seq<Seq<char>>, ps: Seq<Seq<char>>) -> Seq<Seq<char>>
    decreases ps.len(),
{
    if ps.len() == 0 {
        Seq::empty()
    } else {
        let rest = unshown(shown, ps.drop_last());
        if shown.contains(ps.last()) {
            rest
        } else {
            rest.push(ps.last())
        }
    }
}

/// What `unshown` keeps: exactly the parents not shown.
pub(crate) proof fn lemma_unshown(shown: Seq<Seq<char>>, ps: Seq<Seq<char>>, p: Seq<char>)
    ensures
        unshown(shown, ps).contains(p) <==> ps.contains(p) && !shown.contains(p),
    decreases ps.len(),
{
    if ps.len() > 0 {
        let init = ps.drop_last();
        let l = ps.last();
        lemma_unshown(shown, init, p);
        let rest = unshown(shown, init);
        assert(ps == init.push(l));
        lemma_push_contains(init, l, p);
        if shown.contains(l) {
            assert(unshown(shown, ps) == rest);
        } else {
            assert(unshown(shown, ps) == rest.push(l));
            lemma_push_contains(rest, l, p);
        }
    }
}

/// A sequence with one more element holds what it held and that element.
proof fn lemma_push_contains(s: Seq<Seq<char>>, a: Seq<char>, p: Seq<char>)
    ensures
        s.push(a).contains(p) <==> s.contains(p) || a == p,
{
    if s.contains(p) {
        let k = choose|k: int| 0 <= k < s.len() && s[k] == p;
        assert(s.push(a)[k] == p);
    }
    if a == p {
        assert(s.push(a)[s.len() as int] == p);
    }
    if s.push(a).contains(p) {
        let k = choose|k: int| 0 <= k < s.push(a).len() && s.push(a)[k] == p;
        if k < s.len() {
            assert(s[k] == p);
        }
    }
}

/// `true` when `s` is one of the strings.
fn contains_view(v: &Vec<String>, s: &str) -> (out: bool)
    ensures
        out == string_views(v@).contains(s@),
{
    let mut i: usize = 0;
    while i < v.len()
        invariant
            i <= v@.len(),
            forall|k: int| 0 <= k < i ==> string_views(v@)[k] != s@,
        decreases v@.len() - i,
    {
        if str_eq(v[i].as_str(), s) {
            assert(string_views(v@)[i as int] == s@);
            return true;
        }
        i = i + 1;
    }
    false
}

/// The walk through the history from one commit.
pub struct HistoryWalk {
    root: String,
    queue: Vec<String>,
    head: usize,
    shown: Vec<String>,
    graph: Vec<(String, Vec<String>)>,
    links: Ghost<Set<(Seq<char>, Seq<char>)>>,
    asked: Ghost<Option<Seq<char>>>,
}

impl HistoryWalk {
    /// The commit the walk starts from.
    pub closed spec fn root_commit(&self) -> Seq<char> {
        self.root@
    }

    /// The commits shown so far, in their order.
    pub closed spec fn shown_commits(&self) -> Seq<Seq<char>> {
        string_views(self.shown@)
    }

    /// The commits that wait to be taken, in their order.
    pub closed spec fn pending(&self) -> Seq<Seq<char>> {
        string_views(self.queue@).skip(self.head as int)
    }

    /// The (child, parent) links handed to the walk so far.
    pub closed spec fn known_links(&self) -> Set<(Seq<char>, Seq<char>)> {
        self.links@
    }

    /// The commit whose parents the walk waits for.
    pub closed spec fn waiting_for(&self) -> Option<Seq<char>> {
        self.asked@
    }

    /// Every commit shown or pending is reached from the root.
    closed spec fn reached(&self) -> bool {
        let e = self.links@;
        let sh = self.shown_commits();
        let pq = self.pending();
        &&& forall|i: int| 0 <= i < sh.len() ==> reaches(e, self.root@, #[trigger] sh[i])
        &&& forall|i: int| 0 <= i < pq.len() ==> reaches(e, self.root@, #[trigger] pq[i])
    }

    /// Nothing is lost: the root is shown or pending, and each link leads
    /// from a shown commit to one shown or pending.
    closed spec fn closed_walk(&self) -> bool {
        let e = self.links@;
        let sh = self.shown_commits();
        let pq = self.pending();
        &&& sh.contains(self.root@) || pq.contains(self.root@)
        &&& forall|c: Seq<char>, p: Seq<char>| #[trigger] e.contains((c, p)) ==> sh.contains(c) && (sh.contains(p) || pq.contains(p))
    }

    /// What the walk keeps true; no commit is shown twice, and the one whose
    /// parents are awaited is the last shown.
    pub closed spec fn inv(&self) -> bool {
        &&& self.head <= self.queue@.len()
        &&& self.links@ == graph_links(graph_view(self.graph@))
        &&& self.shown_commits().no_duplicates()
        &&& (self.asked@ matches Some(x) ==> self.shown_commits().len() > 0 && self.shown_commits().last() == x)
        &&& self.reached()
        &&& self.closed_walk()
    }

    /// Starts the walk at `head`.
    pub fn new(head: &str) -> (out: HistoryWalk)
        ensures
            out.inv(),
            out.root_commit() == head@,
            out.shown_commits() == Seq::<Seq<char>>::empty(),
            out.pending() == seq![head@],
            out.known_links() == Set::<(Seq<char>, Seq<char>)>::empty(),
            out.waiting_for() is None,
    {
        let mut queue: Vec<String> = Vec::new();
        queue.push(String::from_str(head));
        let walk = HistoryWalk {
            root: String::from_str(head),
            queue,
            head: 0,
            shown: Vec::new(),
            graph: Vec::new(),
            links: Ghost(Set::empty()),
            asked: Ghost(None),
        };
        proof {
            lemma_reaches_self(walk.links@, walk.root@);
            assert(graph_links(graph_view(walk.graph@)) =~= Set::<(Seq<char>, Seq<char>)>::empty());
            assert(walk.pending() == seq![head@]);
            assert(walk.pending()[0] == walk.root@);
            assert(walk.shown_commits() == Seq::<Seq<char>>::empty());
        }
        walk
    }

    /// Taking the first pending commit, which was shown already, keeps what
    /// the walk keeps true.
    proof fn lemma_skip_shown(before: HistoryWalk, after: HistoryWalk)
        requires
            before.inv(),
            before.head < before.queue@.len(),
            after.head == before.head + 1,
            after.queue == before.queue,
            after.root == before.root,
            after.shown == before.shown,
            after.links == before.links,
            after.graph == before.graph,
            after.asked == before.asked,
            before.shown_commits().contains(before.pending()[0]),
        ensures
            after.inv(),
            after.pending() == before.pending().drop_first(),
    {
        let pq = before.pending();
        assert(after.pending() == pq.drop_first());
        assert forall|y: Seq<char>| pq.contains(y) && !before.shown_commits().contains(y) implies after.pending().contains(y) by {
            let k = choose|k: int| 0 <= k < pq.len() && pq[k] == y;
            assert(k > 0);
            assert(after.pending()[k - 1] == y);
        }
        assert forall|i: int| 0 <= i < after.pending().len() implies reaches(after.links@, after.root@, #[trigger] after.pending()[i]) by {
            assert(after.pending()[i] == pq[i + 1]);
        }
    }

    /// Showing the first pending commit, which is new, keeps what the walk
    /// keeps true.
    proof fn lemma_show(before: HistoryWalk, after: HistoryWalk, s: Seq<char>)
        requires
            before.inv(),
            before.asked@ is None,
            before.head < before.queue@.len(),
            s == before.pending()[0],
            !before.shown_commits().contains(s),
            after.head == before.head + 1,
            after.queue == before.queue,
            after.root == before.root,
            after.links == before.links,
            after.graph == before.graph,
            after.shown_commits() == before.shown_commits().push(s),
            after.asked@ == Some(s),
        ensures
            after.inv(),
            after.pending() == before.pending().drop_first(),
    {
        let pq = before.pending();
        let sh = before.shown_commits();
        let sh2 = after.shown_commits();
        assert(after.pending() == pq.drop_first());
        assert forall|y: Seq<char>| sh.contains(y) implies sh2.contains(y) by {
            let k = choose|k: int| 0 <= k < sh.len() && sh[k] == y;
            assert(sh2[k] == y);
        }
        assert(sh2[sh.len() as int] == s);
        assert forall|y: Seq<char>| pq.contains(y) implies sh2.contains(y) || after.pending().contains(y) by {
            let k = choose|k: int| 0 <= k < pq.len() && pq[k] == y;
            if k > 0 {
                assert(after.pending()[k - 1] == y);
            }
        }
        assert forall|i: int, j: int| 0 <= i < sh2.len() && 0 <= j < sh2.len() && i != j implies sh2[i] != sh2[j] by {
            if i < sh.len() && j < sh.len() {
                assert(sh[i] != sh[j]);
            } else if i < sh.len() {
                assert(sh.contains(sh[i]));
            } else if j < sh.len() {
                assert(sh.contains(sh[j]));
            }
        }
        assert forall|i: int| 0 <= i < sh2.len() implies reaches(after.links@, after.root@, #[trigger] sh2[i]) by {
            if i < sh.len() {
                assert(sh2[i] == sh[i]);
            } else {
                assert(pq[0] == s);
            }
        }
        assert forall|i: int| 0 <= i < after.pending().len() implies reaches(after.links@, after.root@, #[trigger] after.pending()[i]) by {
            assert(after.pending()[i] == pq[i + 1]);
        }
    }

    /// With nothing pending, every commit reached from the root through the
    /// known links has been shown.
    proof fn lemma_complete(&self)
        requires
            self.inv(),
            self.pending().len() == 0,
        ensures
            forall|x: Seq<char>| #[trigger] reaches(self.links@, self.root@, x) ==> self.shown_commits().contains(x),
    {
        let sh = self.shown_commits();
        let inside = |x: Seq<char>| sh.contains(x);
        assert forall|x: Seq<char>, y: Seq<char>| #[trigger] self.links@.contains((x, y)) && inside(x) implies inside(y) by {
            assert(!self.pending().contains(y));
        }
        assert(!self.pending().contains(self.root@));
        assert forall|x: Seq<char>| #[trigger] reaches(self.links@, self.root@, x) implies sh.contains(x) by {
            lemma_closed_reach(self.links@, inside, self.root@, x);
        }
    }

    /// Takes the next pending commit that was not shown yet, shows it and
    /// asks for its parents; `None` when nothing is left, and then every
    /// commit reached from the root through the links handed in is shown.
    pub fn next_commit(&mut self) -> (out: Option<String>)
        requires
            old(self).inv(),
            old(self).waiting_for() is None,
        ensures
            final(self).inv(),
            final(self).root_commit() == old(self).root_commit(),
            final(self).known_links() == old(self).known_links(),
            final(self).shown_commits().no_duplicates(),
            out is None ==> {
                &&& final(self).waiting_for() is None
                &&& final(self).shown_commits() == old(self).shown_commits()
                &&& final(self).pending().len() == 0
                &&& forall|i: int| 0 <= i < old(self).pending().len() ==> old(self).shown_commits().contains(
                    #[trigger] old(self).pending()[i],
                )
                &&& forall|x: Seq<char>| #[trigger] reaches(final(self).known_links(), final(self).root_commit(), x)
                    ==> final(self).shown_commits().contains(x)
            },
            out matches Some(s) ==> {
                &&& reaches(final(self).known_links(), final(self).root_commit(), s@)
                &&& final(self).waiting_for() == Some(s@)
                &&& !old(self).shown_commits().contains(s@)
                &&& final(self).shown_commits() == old(self).shown_commits().push(s@)
                &&& exists|k: int|
                    0 <= k < old(self).pending().len() && old(self).pending()[k] == s@ && (forall|j: int|
                        0 <= j < k ==> old(self).shown_commits().contains(#[trigger] old(self).pending()[j]))
                        && final(self).pending() == old(self).pending().skip(k + 1)
            },
    {
        let ghost start = self.head as int;
        let ghost pq0 = self.pending();
        let ghost sh0 = self.shown_commits();
        loop
            invariant
                self.inv(),
                self.asked@ is None,
                self.root == old(self).root,
                self.links == old(self).links,
                self.graph == old(self).graph,
                self.shown == old(self).shown,
                self.queue == old(self).queue,
                start == old(self).head,
                pq0 == old(self).pending(),
                sh0 == old(self).shown_commits(),
                start <= self.head,
                self.pending() == pq0.skip(self.head - start),
                forall|j: int| 0 <= j < self.head - start ==> sh0.contains(#[trigger] pq0[j]),
            decreases self.queue@.len() - self.head,
        {
            if self.head >= self.queue.len() {
                proof {
                    self.lemma_complete();
                    assert forall|i: int| 0 <= i < pq0.len() implies sh0.contains(#[trigger] pq0[i]) by {
                        assert(i < self.head - start);
                    }
                }
                return None;
            }
            let s = self.queue[self.head].clone();
            let ghost before = *self;
            let ghost k = self.head - start;
            proof {
                assert(before.pending()[0] == s@);
                assert(pq0[k] == s@);
            }
            self.head = self.head + 1;
            if contains_view(&self.shown, s.as_str()) {
                proof {
                    Self::lemma_skip_shown(before, *self);
                    assert(self.pending() == pq0.skip(self.head - start));
                }
                continue;
            }
            self.shown.push(s.clone());
            self.asked = Ghost(Some(s@));
            proof {
                assert(self.shown_commits() == sh0.push(s@));
                Self::lemma_show(before, *self, s@);
                assert(self.shown_commits()[sh0.len() as int] == s@);
                assert(self.pending() == pq0.skip(k + 1));
            }
            return Some(s);
        }
    }

    /// Hands the walk the parents of the commit it showed last: those not
    /// shown yet become pending, in their order, after what was pending.
    pub fn add_parents(&mut self, parents: Vec<String>)
        requires
            old(self).inv(),
            old(self).waiting_for() is Some,
        ensures
            final(self).inv(),
            final(self).waiting_for() is None,
            final(self).root_commit() == old(self).root_commit(),
            final(self).shown_commits() == old(self).shown_commits(),
            final(self).pending() == old(self).pending() + unshown(old(self).shown_commits(), string_views(parents@)),
            final(self).known_links() == old(self).known_links().union(
                Set::new(|l: (Seq<char>, Seq<char>)| l.0 == old(self).waiting_for()->0 && string_views(parents@).contains(l.1)),
            ),
    {
        let ghost sh = self.shown_commits();
        let ghost q0 = string_views(self.queue@);
        let mut i: usize = 0;
        while i < parents.len()
            invariant
                self.head == old(self).head,
                self.root == old(self).root,
                self.shown == old(self).shown,
                self.graph == old(self).graph,
                self.links == old(self).links,
                self.asked == old(self).asked,
                sh == old(self).shown_commits(),
                q0 == string_views(old(self).queue@),
                i <= parents@.len(),
                string_views(self.queue@) == q0 + unshown(sh, string_views(parents@.subrange(0, i as int))),
            decreases parents@.len() - i,
        {
            let p = &parents[i];
            let ghost ps = string_views(parents@.subrange(0, i + 1));
            let ghost q1 = self.queue@;
            proof {
                assert(ps.drop_last() == string_views(parents@.subrange(0, i as int)));
                assert(ps.last() == p@);
            }
            if !contains_view(&self.shown, p.as_str()) {
                self.queue.push(p.clone());
                proof {
                    assert(string_views(self.queue@) == string_views(q1).push(p@));
                    assert(unshown(sh, ps) == unshown(sh, ps.drop_last()).push(p@));
                }
            } else {
                assert(unshown(sh, ps) == unshown(sh, ps.drop_last()));
            }
            i = i + 1;
        }
        let last = self.shown[self.shown.len() - 1].clone();
        let ghost gv0 = graph_view(self.graph@);
        let ghost pv = string_views(parents@);
        let ghost pall = parents@;
        self.graph.push((last, parents));
        proof {
            assert(graph_view(self.graph@) == gv0.push((last@, pv)));
            lemma_graph_links_push(gv0, (last@, pv));
        }
        proof {
            assert(pall.subrange(0, pall.len() as int) == pall);
            let added = unshown(sh, string_views(pall));
            let x = self.asked@->0;
            let before = *old(self);
            let old_links = self.links@;
            let e = old_links.union(
                Set::new(|l: (Seq<char>, Seq<char>)| l.0 == x && string_views(pall).contains(l.1)),
            );
            assert(self.pending() == before.pending() + added);
            assert(e =~= before.links@.union(
                Set::new(|l: (Seq<char>, Seq<char>)| l.0 == before.asked@->0 && string_views(pall).contains(l.1)),
            ));
            assert(e =~= old(self).known_links().union(
                Set::new(|l: (Seq<char>, Seq<char>)| l.0 == old(self).waiting_for()->0 && string_views(pall).contains(l.1)),
            ));
            assert(self.shown_commits().last() == x);
            assert(self.shown@[self.shown@.len() - 1]@ == self.shown_commits().last());
            assert(e =~= graph_links(graph_view(self.graph@)));
            self.links = Ghost(e);
            self.asked = Ghost(None);
            Self::lemma_parents_added(before, *self, string_views(pall));
        }
    }

    /// The links to the parents, and the parents made pending, keep what
    /// the walk keeps true.
    proof fn lemma_parents_added(before: HistoryWalk, after: HistoryWalk, ps: Seq<Seq<char>>)
        requires
            before.inv(),
            before.asked@ is Some,
            after.head == before.head,
            after.root == before.root,
            after.shown == before.shown,
            after.asked@ is None,
            after.pending() == before.pending() + unshown(before.shown_commits(), ps),
            after.links@ == before.links@.union(
                Set::new(|l: (Seq<char>, Seq<char>)| l.0 == before.asked@->0 && ps.contains(l.1)),
            ),
            after.head <= after.queue@.len(),
            after.links@ == graph_links(graph_view(after.graph@)),
        ensures
            after.inv(),
    {
        let x = before.asked@->0;
        let sh = before.shown_commits();
        let pq = before.pending();
        let added = unshown(sh, ps);
        let pq2 = after.pending();
        let e = after.links@;
        assert(before.links@.subset_of(e));
        assert(sh.contains(x)) by {
            assert(sh[sh.len() - 1] == x);
        }
        assert forall|y: Seq<char>| pq.contains(y) implies pq2.contains(y) by {
            let k = choose|k: int| 0 <= k < pq.len() && pq[k] == y;
            assert(pq2[k] == y);
        }
        assert forall|p: Seq<char>| ps.contains(p) && !sh.contains(p) implies pq2.contains(p) by {
            lemma_unshown(sh, ps, p);
            let k = choose|k: int| 0 <= k < added.len() && added[k] == p;
            assert(pq2[pq.len() + k] == p);
        }
        lemma_reaches_more(before.links@, e, before.root@, x);
        assert forall|i: int| 0 <= i < sh.len() implies reaches(e, after.root@, #[trigger] sh[i]) by {
            lemma_reaches_more(before.links@, e, before.root@, sh[i]);
        }
        assert forall|i: int| 0 <= i < pq2.len() implies reaches(e, after.root@, #[trigger] pq2[i]) by {
            if i < pq.len() {
                assert(pq2[i] == pq[i]);
                lemma_reaches_more(before.links@, e, before.root@, pq[i]);
            } else {
                let p = pq2[i];
                assert(added[i - pq.len()] == p);
                assert(added.contains(p));
                lemma_unshown(sh, ps, p);
                assert(e.contains((x, p)));
                lemma_reaches_step(e, before.root@, x, p);
            }
        }
        assert(after.reached());
        assert forall|c: Seq<char>, p: Seq<char>| #[trigger] e.contains((c, p)) implies sh.contains(c) && (sh.contains(p)
            || pq2.contains(p)) by {
            if before.links@.contains((c, p)) {
                assert(sh.contains(p) || pq.contains(p));
            }
        }
        assert(after.closed_walk());
    }
}

/// No commit reached from `root` is its own ancestor, as in any history of
/// content-named commits.
pub open spec fn history_loop_free(links: Set<(Seq<char>, Seq<char>)>, root: Seq<char>) -> bool {
    forall|x: Seq<char>| #[trigger] reaches(links, root, x) ==> !strictly(links, x, x)
}

/// Some commit of `cs` has `c` among its parents.
pub open spec fn has_child(links: Set<(Seq<char>, Seq<char>)>, cs: Seq<String>, c: Seq<char>) -> bool {
    exists|i: int| 0 <= i < cs.len() && #[trigger] links.contains((cs[i]@, c))
}

/// Whether some commit of `commits` has `c` among its parents.
fn has_child_among(commits: &Vec<String>, graph: &Vec<(String, Vec<String>)>, c: &str) -> (out: bool)
    ensures
        out == exists|i: int| 0 <= i < commits@.len() && #[trigger] graph_links(graph_view(graph@)).contains((commits@[i]@, c@)),
{
    let ghost gl = graph_links(graph_view(graph@));
    let mut i: usize = 0;
    while i < commits.len()
        invariant
            gl == graph_links(graph_view(graph@)),
            i <= commits@.len(),
            forall|j: int| 0 <= j < i ==> !#[trigger] gl.contains((commits@[j]@, c@)),
        decreases commits@.len() - i,
    {
        let ps = parents_of(graph, commits[i].as_str());
        if contains_view(&ps, c) {
            return true;
        }
        i = i + 1;
    }
    false
}

/// The first of `commits` that is a parent of none of them.
fn first_ready(commits: &Vec<String>, graph: &Vec<(String, Vec<String>)>) -> (out: Option<usize>)
    ensures
        out matches Some(k) ==> k < commits@.len() && forall|i: int|
            0 <= i < commits@.len() ==> !#[trigger] graph_links(graph_view(graph@)).contains((commits@[i]@, commits@[k as int]@)),
        out is None ==> forall|k: int| 0 <= k < commits@.len() ==> #[trigger] has_child(graph_links(graph_view(graph@)), commits@, commits@[k]@),
{
    let mut k: usize = 0;
    while k < commits.len()
        invariant
            k <= commits@.len(),
            forall|j: int| 0 <= j < k ==> #[trigger] has_child(graph_links(graph_view(graph@)), commits@, commits@[j]@),
        decreases commits@.len() - k,
    {
        if !has_child_among(commits, graph, commits[k].as_str()) {
            return Some(k);
        }
        k = k + 1;
    }
    None
}

impl HistoryWalk {
    /// The commits read, in the order `log` shows them: every commit reached
    /// from the root once, each before all of its ancestors (when no commit
    /// is its own ancestor). Among the commits all of whose children are
    /// shown, the one read first comes first.
    pub fn log_order(&self) -> (out: Vec<String>)
        requires
            self.inv(),
            self.waiting_for() is None,
            self.pending().len() == 0,
        ensures
            string_views(out@).no_duplicates(),
            forall|x: Seq<char>| #[trigger] string_views(out@).contains(x) <==> reaches(self.known_links(), self.root_commit(), x),
            history_loop_free(self.known_links(), self.root_commit()) ==> forall|i: int, j: int|
                0 <= i < j < out@.len() ==> !strictly(self.known_links(), #[trigger] out@[j]@, #[trigger] out@[i]@),
    {
        proof {
            self.lemma_complete();
        }
        let ghost k = self.links@;
        let ghost root = self.root@;
        let ghost sh = self.shown_commits();
        proof {
            assert forall|x: Seq<char>, y: Seq<char>| #[trigger] k.contains((x, y)) && sh.contains(x) implies sh.contains(y) by {
                let i = choose|i: int| 0 <= i < sh.len() && sh[i] == x;
                assert(reaches(k, root, sh[i]));
                lemma_reaches_step(k, root, x, y);
            }
        }
        let mut rest: Vec<String> = Vec::new();
        let mut i: usize = 0;
        while i < self.shown.len()
            invariant
                i <= self.shown@.len(),
                sh == string_views(self.shown@),
                string_views(rest@) == sh.take(i as int),
            decreases self.shown@.len() - i,
        {
            rest.push(self.shown[i].clone());
            assert(sh.take(i + 1) == sh.take(i as int).push(sh[i as int]));
            i = i + 1;
        }
        assert(sh.take(sh.len() as int) == sh);
        let mut out: Vec<String> = Vec::new();
        let ghost mut clean = true;
        while rest.len() > 0
            invariant
                k == graph_links(graph_view(self.graph@)),
                sh == self.shown_commits(),
                forall|x: Seq<char>| #[trigger] reaches(k, root, x) <==> sh.contains(x),
                forall|x: Seq<char>, y: Seq<char>| #[trigger] k.contains((x, y)) && sh.contains(x) ==> sh.contains(y),
                string_views(out@).no_duplicates(),
                string_views(rest@).no_duplicates(),
                forall|x: Seq<char>| !(string_views(out@).contains(x) && #[trigger] string_views(rest@).contains(x)),
                forall|x: Seq<char>| #[trigger] sh.contains(x) <==> (string_views(out@).contains(x) || string_views(rest@).contains(x)),
                clean ==> forall|i: int, u: Seq<char>|
                    0 <= i < out@.len() && #[trigger] string_views(rest@).contains(u) ==> !strictly(k, u, #[trigger] out@[i]@),
                clean ==> forall|i: int, j: int| 0 <= i < j < out@.len() ==> !strictly(k, #[trigger] out@[j]@, #[trigger] out@[i]@),
                !clean ==> exists|x: Seq<char>| #[trigger] sh.contains(x) && strictly(k, x, x),
            decreases rest@.len(),
        {
            let ghost rv = string_views(rest@);
            let ghost ov = string_views(out@);
            let ghost r0 = rest@;
            let ghost o0 = out@;
            let pick = first_ready(&rest, &self.graph);
            let at: usize = match pick {
                Some(p) => p,
                None => {
                    proof {
                        if clean {
                            assert forall|m: int| 0 <= m < rv.len() implies #[trigger] reached_by_some(k, rv, rv[m]) by {
                                assert(has_child(k, r0, r0[m]@));
                                let i = choose|i: int| 0 <= i < r0.len() && #[trigger] k.contains((r0[i]@, r0[m]@));
                                lemma_reaches_self(k, rv[m]);
                                assert(strictly(k, rv[i], rv[m]));
                            }
                            assert(each_reached(k, rv));
                            if forall|m: int| 0 <= m < rv.len() ==> !strictly(k, #[trigger] rv[m], rv[m]) {
                                lemma_some_unreached(k, rv);
                            }
                            let m = choose|m: int| 0 <= m < rv.len() && strictly(k, #[trigger] rv[m], rv[m]);
                            assert(rv.contains(rv[m]));
                            assert(sh.contains(rv[m]));
                            clean = false;
                        }
                    }
                    0
                },
            };
            let c = rest.remove(at);
            let ghost cv = c@;
            proof {
                assert(rest@ == r0.remove(at as int));
                assert(string_views(rest@) =~= rv.remove(at as int));
                assert(rv[at as int] == cv);
            }
            out.push(c);
            proof {
                let rv2 = string_views(rest@);
                let ov2 = string_views(out@);
                assert(ov2 =~= ov.push(cv));
                assert forall|x: Seq<char>| #[trigger] rv2.contains(x) <==> (rv.contains(x) && x != cv) by {
                    if rv2.contains(x) {
                        let m = choose|m: int| 0 <= m < rv2.len() && rv2[m] == x;
                        if m < at {
                            assert(rv[m] == x);
                        } else {
                            assert(rv[m + 1] == x);
                        }
                    }
                    if rv.contains(x) && x != cv {
                        let m = choose|m: int| 0 <= m < rv.len() && rv[m] == x;
                        if m < at {
                            assert(rv2[m] == x);
                        } else {
                            assert(m != at);
                            assert(rv2[m - 1] == x);
                        }
                    }
                }
                assert forall|x: Seq<char>| #[trigger] ov2.contains(x) <==> (ov.contains(x) || x == cv) by {
                    if ov2.contains(x) {
                        let m = choose|m: int| 0 <= m < ov2.len() && ov2[m] == x;
                        if m < ov.len() {
                            assert(ov[m] == x);
                        }
                    }
                    if ov.contains(x) {
                        let m = choose|m: int| 0 <= m < ov.len() && ov[m] == x;
                        assert(ov2[m] == x);
                    }
                    if x == cv {
                        assert(ov2[ov.len() as int] == x);
                    }
                }
                assert(rv.contains(cv));
                assert(!ov.contains(cv));
                assert forall|a: int, b: int| 0 <= a < ov2.len() && 0 <= b < ov2.len() && a != b implies ov2[a] != ov2[b] by {
                    if a < ov.len() && b < ov.len() {
                    } else if a < ov.len() {
                        assert(ov.contains(ov2[a]));
                    } else if b < ov.len() {
                        assert(ov.contains(ov2[b]));
                    }
                }
                assert forall|a: int, b: int| 0 <= a < rv2.len() && 0 <= b < rv2.len() && a != b implies rv2[a] != rv2[b] by {
                    let a1 = if a < at { a } else { a + 1 };
                    let b1 = if b < at { b } else { b + 1 };
                    assert(rv2[a] == rv[a1]);
                    assert(rv2[b] == rv[b1]);
                }
                if clean {
                    assert forall|i: int, u: Seq<char>| 0 <= i < out@.len() && #[trigger] rv2.contains(u) implies !strictly(
                        k,
                        u,
                        #[trigger] out@[i]@,
                    ) by {
                        if i < o0.len() {
                            assert(out@[i] == o0[i]);
                            assert(rv.contains(u));
                        } else {
                            assert(out@[i]@ == cv);
                            if strictly(k, u, cv) {
                                lemma_last_link(k, u, cv);
                                let y = choose|y: Seq<char>| #[trigger] k.contains((y, cv)) && reaches(k, u, y);
                                assert(sh.contains(u));
                                let inside = |z: Seq<char>| sh.contains(z);
                                lemma_closed_reach(k, inside, u, y);
                                if rv.contains(y) {
                                    let m = choose|m: int| 0 <= m < rv.len() && rv[m] == y;
                                    assert(r0[m]@ == y);
                                    assert(k.contains((r0[m]@, r0[at as int]@)));
                                } else {
                                    assert(ov.contains(y));
                                    let m = choose|m: int| 0 <= m < ov.len() && ov[m] == y;
                                    assert(o0[m]@ == y);
                                    if u == y {
                                        assert(rv.contains(u));
                                    } else {
                                        lemma_reaches_strictly(k, u, y);
                                        assert(rv.contains(u));
                                    }
                                }
                            }
                        }
                    }
                    assert forall|i: int, j: int| 0 <= i < j < out@.len() implies !strictly(k, #[trigger] out@[j]@, #[trigger] out@[i]@) by {
                        assert(out@[i] == o0[i]);
                        if j < o0.len() {
                            assert(out@[j] == o0[j]);
                        } else {
                            assert(out@[j]@ == cv);
                            assert(rv.contains(cv));
                        }
                    }
                }
            }
        }
        proof {
            let ov = string_views(out@);
            assert forall|x: Seq<char>| #[trigger] ov.contains(x) <==> reaches(k, root, x) by {
                assert(!string_views(rest@).contains(x));
            }
            if history_loop_free(k, root) && !clean {
                let x = choose|x: Seq<char>| #[trigger] sh.contains(x) && strictly(k, x, x);
                assert(reaches(k, root, x));
            }
        }
        out
    }
}

} // verus!
