//! Line diffs: Myers' shortest-edit-script search, grouping of the edits
//! into hunks with context, and unified-format output.

use vstd::prelude::*;
use colored::Colorize;
use crate::edit_graph::{diag_ok, lemma_no_cheaper, lemma_reach_band, reach, diag_step, front, in_round, lemma_first_stop, lemma_front_reached, lemma_snake,
    lemma_stops_in_time, round_stops, snake, start_of, stops};
use crate::text::{str_eq, string_push, usize_to_decimal, decimal, contains_seq, starts_with, ends_with,
    utf8, lines_from, next_line, chars_of, string_from_chars, copy_bytes, string_from_utf8};
use vstd::utf8::{valid_utf8, decode_utf8};

verus! {

broadcast use vstd::seq::group_seq_axioms;

/// One step of an edit script between two lists of lines.
#[derive(Debug, PartialEq)]
pub enum Edit {
    Equal(String),
    Insert(String),
    Delete(String),
}

/// Mathematical view of an edit.
pub enum EditModel {
    Equal(Seq<char>),
    Insert(Seq<char>),
    Delete(Seq<char>),
}

impl View for Edit {
    type V = EditModel;

    open spec fn view(&self) -> EditModel {
        match self {
            Edit::Equal(s) => EditModel::Equal(s@),
            Edit::Insert(s) => EditModel::Insert(s@),
            Edit::Delete(s) => EditModel::Delete(s@),
        }
    }
}

/// The views of a list of edits.
pub open spec fn edit_models(v: Seq<Edit>) -> Seq<EditModel> {
    v.map_values(|e: Edit| e@)
}

/// The text of each line of a list of string slices.
pub open spec fn texts(v: Seq<&str>) -> Seq<Seq<char>> {
    v.map_values(|s: &str| s@)
}

/// The lines an edit script reads from the old side: its kept and deleted lines.
pub open spec fn old_lines(es: Seq<EditModel>) -> Seq<Seq<char>>
    decreases es.len(),
{
    if es.len() == 0 {
        Seq::empty()
    } else {
        match es[0] {
            EditModel::Insert(_) => old_lines(es.drop_first()),
            EditModel::Equal(s) => seq![s] + old_lines(es.drop_first()),
            EditModel::Delete(s) => seq![s] + old_lines(es.drop_first()),
        }
    }
}

/// The lines an edit script writes on the new side: its kept and inserted lines.
pub open spec fn new_lines(es: Seq<EditModel>) -> Seq<Seq<char>>
    decreases es.len(),
{
    if es.len() == 0 {
        Seq::empty()
    } else {
        match es[0] {
            EditModel::Delete(_) => new_lines(es.drop_first()),
            EditModel::Equal(s) => seq![s] + new_lines(es.drop_first()),
            EditModel::Insert(s) => seq![s] + new_lines(es.drop_first()),
        }
    }
}

/// The sides of a concatenated script are the concatenated sides.
pub proof fn lemma_lines_concat(a: Seq<EditModel>, b: Seq<EditModel>)
    ensures
        old_lines(a + b) == old_lines(a) + old_lines(b),
        new_lines(a + b) == new_lines(a) + new_lines(b),
    decreases a.len(),
{
    if a.len() == 0 {
        assert(a + b == b);
    } else {
        assert((a + b).drop_first() == a.drop_first() + b);
        assert((a + b)[0] == a[0]);
        lemma_lines_concat(a.drop_first(), b);
        match a[0] {
            EditModel::Insert(s) => {
                assert(seq![s] + new_lines(a.drop_first()) + new_lines(b) == seq![s] + (new_lines(a.drop_first())
                    + new_lines(b)));
            },
            EditModel::Equal(s) => {
                assert(seq![s] + old_lines(a.drop_first()) + old_lines(b) == seq![s] + (old_lines(a.drop_first())
                    + old_lines(b)));
                assert(seq![s] + new_lines(a.drop_first()) + new_lines(b) == seq![s] + (new_lines(a.drop_first())
                    + new_lines(b)));
            },
            EditModel::Delete(s) => {
                assert(seq![s] + old_lines(a.drop_first()) + old_lines(b) == seq![s] + (old_lines(a.drop_first())
                    + old_lines(b)));
            },
        }
    }
}

/// The script that deletes every old line and then inserts every new line.
pub open spec fn plain_script(old: Seq<Seq<char>>, new: Seq<Seq<char>>) -> Seq<EditModel> {
    old.map_values(|s: Seq<char>| EditModel::Delete(s)) + new.map_values(|s: Seq<char>| EditModel::Insert(s))
}

/// The plain script reads the old lines and writes the new ones.
proof fn lemma_plain_script(old: Seq<Seq<char>>, new: Seq<Seq<char>>)
    ensures
        old_lines(plain_script(old, new)) == old,
        new_lines(plain_script(old, new)) == new,
    decreases old.len() + new.len(),
{
    let ds = old.map_values(|s: Seq<char>| EditModel::Delete(s));
    let is = new.map_values(|s: Seq<char>| EditModel::Insert(s));
    lemma_lines_concat(ds, is);
    lemma_deletes(old);
    lemma_inserts(new);
}

proof fn lemma_deletes(old: Seq<Seq<char>>)
    ensures
        old_lines(old.map_values(|s: Seq<char>| EditModel::Delete(s))) == old,
        new_lines(old.map_values(|s: Seq<char>| EditModel::Delete(s))) == Seq::<Seq<char>>::empty(),
    decreases old.len(),
{
    let ds = old.map_values(|s: Seq<char>| EditModel::Delete(s));
    if old.len() > 0 {
        assert(ds.drop_first() == old.drop_first().map_values(|s: Seq<char>| EditModel::Delete(s)));
        lemma_deletes(old.drop_first());
        assert(old == seq![old[0]] + old.drop_first());
    } else {
        assert(old == Seq::<Seq<char>>::empty());
    }
}

proof fn lemma_inserts(new: Seq<Seq<char>>)
    ensures
        new_lines(new.map_values(|s: Seq<char>| EditModel::Insert(s))) == new,
        old_lines(new.map_values(|s: Seq<char>| EditModel::Insert(s))) == Seq::<Seq<char>>::empty(),
    decreases new.len(),
{
    let is = new.map_values(|s: Seq<char>| EditModel::Insert(s));
    if new.len() > 0 {
        assert(is.drop_first() == new.drop_first().map_values(|s: Seq<char>| EditModel::Insert(s)));
        lemma_inserts(new.drop_first());
        assert(new == seq![new[0]] + new.drop_first());
    } else {
        assert(new == Seq::<Seq<char>>::empty());
    }
}

/// Past this many lines in total the search is skipped and the plain
/// script is returned, which keeps the search's memory bounded.
pub const MAX_EDIT_DISTANCE: usize = 10000;

/// Deletes every old line, then inserts every new line.
fn plain_edits(old: &[&str], new: &[&str]) -> (out: Vec<Edit>)
    ensures
        edit_models(out@) == plain_script(texts(old@), texts(new@)),
{
    let mut out: Vec<Edit> = Vec::new();
    let mut i: usize = 0;
    while i < old.len()
        invariant
            i <= old@.len(),
            edit_models(out@) == texts(old@).take(i as int).map_values(|s: Seq<char>| EditModel::Delete(s)),
        decreases old@.len() - i,
    {
        let ghost prev = edit_models(out@);
        out.push(Edit::Delete(String::from_str(old[i])));
        assert(edit_models(out@) == prev.push(EditModel::Delete(old@[i as int]@)));
        i = i + 1;
        assert(edit_models(out@) =~= texts(old@).take(i as int).map_values(
            |s: Seq<char>| EditModel::Delete(s),
        )) by {
            assert forall|k: int| 0 <= k < i implies edit_models(out@)[k] == texts(old@).take(i as int).map_values(
                |s: Seq<char>| EditModel::Delete(s),
            )[k] by {
                if k < i - 1 {
                    assert(prev[k] == texts(old@).take(i - 1).map_values(|s: Seq<char>| EditModel::Delete(s))[k]);
                }
            }
        }
    }
    assert(texts(old@).take(old@.len() as int) == texts(old@));
    let ghost deletes = edit_models(out@);
    let mut j: usize = 0;
    while j < new.len()
        invariant
            j <= new@.len(),
            edit_models(out@) == deletes + texts(new@).take(j as int).map_values(
                |s: Seq<char>| EditModel::Insert(s),
            ),
        decreases new@.len() - j,
    {
        let ghost prev = edit_models(out@);
        out.push(Edit::Insert(String::from_str(new[j])));
        assert(edit_models(out@) == prev.push(EditModel::Insert(new@[j as int]@)));
        j = j + 1;
        assert(edit_models(out@) =~= deletes + texts(new@).take(j as int).map_values(
            |s: Seq<char>| EditModel::Insert(s),
        )) by {
            let dl = deletes.len() as int;
            assert forall|k: int| 0 <= k < dl + j implies edit_models(out@)[k] == (deletes + texts(new@).take(
                j as int,
            ).map_values(|s: Seq<char>| EditModel::Insert(s)))[k] by {
                if k < dl + j - 1 {
                    assert(prev[k] == (deletes + texts(new@).take(j - 1).map_values(
                        |s: Seq<char>| EditModel::Insert(s),
                    ))[k]);
                }
            }
        }
    }
    assert(texts(new@).take(new@.len() as int) == texts(new@));
    out
}

/// A copy of a frontier.
fn copy_frontier(v: &Vec<usize>) -> (out: Vec<usize>)
    ensures
        out@ == v@,
{
    let mut out: Vec<usize> = Vec::new();
    let mut i: usize = 0;
    while i < v.len()
        invariant
            i <= v@.len(),
            out@ == v@.take(i as int),
        decreases v@.len() - i,
    {
        out.push(v[i]);
        i = i + 1;
    }
    assert(v@.take(v@.len() as int) == v@);
    out
}

/// The forward search. Round `d` finds, on each diagonal `k` (stored at
/// `k + max`), the furthest point reachable with `d` edits; the frontier
/// before each round, and the last one, are recorded. Row `r` of the trace
/// holds what round `r - 1` found, and the search ends with the first round
/// that reaches the end of both sides.
#[verifier::rlimit(60)]
#[verifier::spinoff_prover]
fn forward_search(old: &[&str], new: &[&str], max: usize) -> (trace: Vec<Vec<usize>>)
    requires
        old@.len() + new@.len() == max,
        1 <= max <= MAX_EDIT_DISTANCE,
    ensures
        2 <= trace@.len() <= max + 2,
        forall|r: int| 0 <= r < trace@.len() ==> (#[trigger] trace@[r])@.len() == 2 * max + 1,
        forall|r: int, j: int|
            0 <= r < trace@.len() && 0 <= j < 2 * max + 1 ==> #[trigger] trace@[r]@[j] <= 2 * max + 1,
        forall|r: int, j: int|
            1 <= r < trace@.len() - 1 && 0 <= j < 2 * max + 1 && in_round(r - 1, j - max) ==> #[trigger] trace@[r]@[j]
                == front(texts(old@), texts(new@), (r - 1) as nat, j - max),
        round_stops(texts(old@), texts(new@), (trace@.len() - 2) as nat),
        forall|d2: nat, k: int|
            d2 < trace@.len() - 2 && in_round(d2 as int, k) ==> !#[trigger] stops(texts(old@), texts(new@), d2, k),
{
    let ghost a = texts(old@);
    let ghost b = texts(new@);
    let n = old.len();
    let m = new.len();
    let w = 2 * max + 1;
    let mut v: Vec<usize> = Vec::new();
    while v.len() < w
        invariant
            v@.len() <= w,
            forall|j: int| 0 <= j < v@.len() ==> v@[j] == 0,
        decreases w - v@.len(),
    {
        v.push(0);
    }
    let mut trace: Vec<Vec<usize>> = Vec::new();
    let mut d: usize = 0;
    let mut done = false;
    while d <= max && !done
        invariant
            a == texts(old@),
            b == texts(new@),
            n == old@.len(),
            m == new@.len(),
            n + m == max,
            1 <= max <= MAX_EDIT_DISTANCE,
            w == 2 * max + 1,
            v@.len() == w,
            d <= max + 1,
            done ==> trace@.len() >= 1,
            trace@.len() == d + if done { 1int } else { 0int },
            d == 0 ==> !done,
            forall|r: int| 0 <= r < trace@.len() ==> (#[trigger] trace@[r])@.len() == w,
            forall|r: int, j: int| 0 <= r < trace@.len() && 0 <= j < w ==> #[trigger] trace@[r]@[j] <= 2 * max + 1,
            forall|j: int| 0 <= j < w ==> #[trigger] v@[j] <= n + d,
            !done ==> forall|j: int| 0 <= j < w && j + 1 <= max + d ==> #[trigger] v@[j] + max >= j,
            forall|r: int, j: int|
                1 <= r < d && 0 <= j < w && in_round(r - 1, j - max) ==> #[trigger] trace@[r]@[j] == front(
                    a,
                    b,
                    (r - 1) as nat,
                    j - max,
                ),
            !done && d >= 1 ==> forall|j: int|
                0 <= j < w && in_round(d - 1, j - max) ==> #[trigger] v@[j] == front(a, b, (d - 1) as nat, j - max),
            !done && d == 0 ==> forall|j: int| 0 <= j < w ==> #[trigger] v@[j] == 0,
            forall|d2: nat, k: int|
                d2 + (if done { 1int } else { 0int }) < d && in_round(d2 as int, k) ==> !#[trigger] stops(a, b, d2, k),
            done ==> round_stops(a, b, (d - 1) as nat),
        decreases max + 1 - d,
    {
        let ghost prev_trace = trace@;
        trace.push(copy_frontier(&v));
        let mut nv = copy_frontier(&v);
        let mut idx: usize = max - d;
        let mut stop = false;
        proof {
            assert forall|r: int, j: int|
                1 <= r < d + 1 && 0 <= j < w && in_round(r - 1, j - max) implies #[trigger] trace@[r]@[j] == front(
                a,
                b,
                (r - 1) as nat,
                j - max,
            ) by {
                if r < d {
                    assert(trace@[r] == prev_trace[r]);
                }
            }
        }
        while idx <= max + d && !stop
            invariant
                a == texts(old@),
                b == texts(new@),
                n == old@.len(),
                m == new@.len(),
                n + m == max,
                1 <= max <= MAX_EDIT_DISTANCE,
                w == 2 * max + 1,
                d <= max,
                !done,
                v@.len() == w,
                nv@.len() == w,
                max - d <= idx <= max + d + 2,
                (idx + d - max) % 2 == 0,
                forall|j: int| 0 <= j < w ==> #[trigger] v@[j] <= n + d,
                forall|j: int| 0 <= j < w && j + 1 <= max + d ==> #[trigger] v@[j] + max >= j,
                forall|j: int| 0 <= j < w ==> #[trigger] nv@[j] <= n + d + 1,
                forall|j: int|
                    0 <= j < w && (j + 1 <= max + d || (max - d <= j < idx && (j + d - max) % 2 == 0))
                        ==> #[trigger] nv@[j] + max >= j,
                stop ==> idx <= max + d,
                d >= 1 ==> forall|j: int|
                    0 <= j < w && in_round(d - 1, j - max) ==> #[trigger] v@[j] == front(a, b, (d - 1) as nat, j - max),
                d == 0 ==> forall|j: int| 0 <= j < w ==> #[trigger] v@[j] == 0,
                forall|j: int|
                    0 <= j < w && in_round(d as int, j - max) && j < idx ==> #[trigger] nv@[j] == front(a, b, d as nat, j - max),
                forall|j: int|
                    0 <= j < w && in_round(d as int, j - max) && j < idx ==> !#[trigger] stops(a, b, d as nat, j - max),
                forall|j: int|
                    0 <= j < w && !(in_round(d as int, j - max) && j < idx) && !(stop && j == idx) ==> #[trigger] nv@[j]
                        == v@[j],
                stop ==> idx < w && in_round(d as int, idx - max) && nv@[idx as int] == front(a, b, d as nat, idx - max)
                    && stops(a, b, d as nat, idx - max),
            decreases (max + d + 2 - idx) * 2 + if stop { 0int } else { 1int },
        {
            let ghost k = idx - max;
            let down = idx == max - d || (idx != max + d && v[idx - 1] < v[idx + 1]);
            let mut x: usize = if down {
                v[idx + 1]
            } else {
                v[idx - 1] + 1
            };
            proof {
                assert(in_round(d as int, k));
                if d >= 1 {
                    if k != -d {
                        assert(in_round(d - 1, k - 1));
                        assert(v@[idx - 1] == front(a, b, (d - 1) as nat, k - 1));
                    }
                    if k != d {
                        assert(in_round(d - 1, k + 1));
                        assert(v@[idx + 1] == front(a, b, (d - 1) as nat, k + 1));
                    }
                } else {
                    assert(v@[idx + 1] == 0);
                }
                assert(x == start_of(a, b, d as nat, k));
                lemma_front_reached(a, b, d as nat, k);
            }
            let mut y: usize = x + max - idx;
            while x < n && y < m && str_eq(old[x], new[y])
                invariant
                    a == texts(old@),
                    b == texts(new@),
                    n == old@.len(),
                    m == new@.len(),
                    n + m == max,
                    x <= n + d + 1,
                    x + max >= idx,
                    y == x + max - idx,
                    k == idx - max,
                    snake(a, b, x as int, k) == front(a, b, d as nat, k),
                decreases n - x,
            {
                assert(diag_step(a, b, x as int, k));
                x = x + 1;
                y = y + 1;
            }
            assert(!diag_step(a, b, x as int, k));
            let ghost nv0 = nv@;
            let ghost idx0 = idx as int;
            nv.set(idx, x);
            if x >= n && y >= m {
                stop = true;
                proof {
                    assert forall|j: int|
                        0 <= j < w && in_round(d as int, j - max) && j < idx implies #[trigger] nv@[j] == front(
                        a,
                        b,
                        d as nat,
                        j - max,
                    ) && !stops(a, b, d as nat, j - max) by {
                        assert(nv@[j] == nv0[j]);
                    }
                }
            } else {
                idx = idx + 2;
                proof {
                    assert forall|j: int|
                        0 <= j < w && in_round(d as int, j - max) && j < idx implies #[trigger] nv@[j] == front(
                        a,
                        b,
                        d as nat,
                        j - max,
                    ) && !stops(a, b, d as nat, j - max) by {
                        if j != idx0 {
                            assert(j < idx0);
                            assert(nv@[j] == nv0[j]);
                        }
                    }
                }
            }
        }
        let ghost last = d as nat;
        v = nv;
        if stop {
            trace.push(copy_frontier(&v));
            done = true;
        }
        d = d + 1;
        proof {
            if !done {
                assert forall|j: int| 0 <= j < w && in_round(d - 1, j - max) implies #[trigger] v@[j] == front(
                    a,
                    b,
                    (d - 1) as nat,
                    j - max,
                ) by {
                    assert(j < idx);
                }
                assert forall|d2: nat, k: int| d2 < d && in_round(d2 as int, k) implies !#[trigger] stops(a, b, d2, k) by {
                    if d2 == last {
                        let j = k + max;
                        assert(0 <= j < w && j < idx);
                        assert(v@[j] == front(a, b, d2, j - max));
                    }
                }
            }
        }
    }
    proof {
        if !done {
            lemma_stops_in_time(a, b);
            assert(!stops(a, b, max as nat, a.len() - b.len()));
        }
    }
    trace
}

/// The number of insertions and deletions in an edit script.
pub open spec fn changes(es: Seq<EditModel>) -> nat
    decreases es.len(),
{
    if es.len() == 0 {
        0
    } else {
        (if es[0] is Equal { 0nat } else { 1nat }) + changes(es.drop_first())
    }
}

/// An edit script read from point `(x, y)` of the edit graph, where the old
/// and new lines from there on begin with the lines the script reads and
/// writes, leads to the point past those lines, with one more step for each
/// insertion and deletion.
proof fn lemma_script_path(es: Seq<EditModel>, a: Seq<Seq<char>>, b: Seq<Seq<char>>, c: nat, x: int, y: int)
    requires
        reach(a, b, c, x, y),
        x + old_lines(es).len() <= a.len(),
        y + new_lines(es).len() <= b.len(),
        a.subrange(x, x + old_lines(es).len()) == old_lines(es),
        b.subrange(y, y + new_lines(es).len()) == new_lines(es),
    ensures
        reach(a, b, c + changes(es), x + old_lines(es).len(), y + new_lines(es).len()),
    decreases es.len(),
{
    lemma_reach_band(a, b, c, x, y);
    if es.len() > 0 {
        let rest = es.drop_first();
        let ol = old_lines(rest);
        let nl = new_lines(rest);
        match es[0] {
            EditModel::Equal(s) => {
                assert((seq![s] + ol).drop_first() == ol);
                assert((seq![s] + nl).drop_first() == nl);
                assert(a.subrange(x, x + 1 + ol.len())[0] == s);
                assert(b.subrange(y, y + 1 + nl.len())[0] == s);
                assert(a.subrange(x + 1, x + 1 + ol.len()) == a.subrange(x, x + 1 + ol.len()).drop_first());
                assert(b.subrange(y + 1, y + 1 + nl.len()) == b.subrange(y, y + 1 + nl.len()).drop_first());
                assert(diag_ok(a, b, x, y));
                assert(reach(a, b, c, x + 1, y + 1));
                lemma_script_path(rest, a, b, c, x + 1, y + 1);
            },
            EditModel::Delete(s) => {
                assert((seq![s] + ol).drop_first() == ol);
                assert(a.subrange(x + 1, x + 1 + ol.len()) == a.subrange(x, x + 1 + ol.len()).drop_first());
                assert(reach(a, b, c + 1, x + 1, y));
                lemma_script_path(rest, a, b, c + 1, x + 1, y);
            },
            EditModel::Insert(s) => {
                assert((seq![s] + nl).drop_first() == nl);
                assert(b.subrange(y + 1, y + 1 + nl.len()) == b.subrange(y, y + 1 + nl.len()).drop_first());
                assert(reach(a, b, c + 1, x, y + 1));
                lemma_script_path(rest, a, b, c + 1, x, y + 1);
            },
        }
    }
}

/// Every edit script of two lists of lines is a path through their edit
/// graph, with one step for each insertion and deletion.
proof fn lemma_script_reaches(es: Seq<EditModel>, a: Seq<Seq<char>>, b: Seq<Seq<char>>)
    requires
        old_lines(es) == a,
        new_lines(es) == b,
    ensures
        reach(a, b, changes(es), a.len() as int, b.len() as int),
{
    assert(a.subrange(0, a.len() as int) == a);
    assert(b.subrange(0, b.len() as int) == b);
    lemma_script_path(es, a, b, 0, 0, 0);
}

/// Walks the recorded frontiers back from the end of both sides to their
/// start, collecting the edits on the way: the unchanged lines of each
/// round's free steps and the one insertion or deletion that led into them.
/// On the trace of a forward search this always succeeds, with one
/// insertion or deletion per round before the last; each step is still
/// checked against the lines, and `None` would come of a trace that does not
/// describe a path.
#[verifier::rlimit(100)]
#[verifier::spinoff_prover]
fn backtrack(old: &[&str], new: &[&str], trace: &Vec<Vec<usize>>, max: usize) -> (out: Option<Vec<Edit>>)
    requires
        old@.len() + new@.len() == max,
        1 <= max <= MAX_EDIT_DISTANCE,
        2 <= trace@.len() <= max + 2,
        forall|r: int| 0 <= r < trace@.len() ==> (#[trigger] trace@[r])@.len() == 2 * max + 1,
        forall|r: int, j: int|
            0 <= r < trace@.len() && 0 <= j < 2 * max + 1 ==> #[trigger] trace@[r]@[j] <= 2 * max + 1,
        forall|r: int, j: int|
            1 <= r < trace@.len() - 1 && 0 <= j < 2 * max + 1 && in_round(r - 1, j - max) ==> #[trigger] trace@[r]@[j]
                == front(texts(old@), texts(new@), (r - 1) as nat, j - max),
        round_stops(texts(old@), texts(new@), (trace@.len() - 2) as nat),
        forall|d2: nat, k: int|
            d2 < trace@.len() - 2 && in_round(d2 as int, k) ==> !#[trigger] stops(texts(old@), texts(new@), d2, k),
    ensures
        out is Some,
        out matches Some(es) ==> old_lines(edit_models(es@)) == texts(old@) && new_lines(edit_models(es@))
            == texts(new@) && changes(edit_models(es@)) == trace@.len() - 2,
{
    let n = old.len();
    let m = new.len();
    let w = 2 * max + 1;
    let ghost to = texts(old@);
    let ghost tn = texts(new@);
    let ghost dd = (trace@.len() - 2) as nat;
    let mut x: usize = n;
    let mut y: usize = m;
    // the edits found so far, last one first
    let mut rev: Vec<Edit> = Vec::new();
    let ghost mut script: Seq<EditModel> = Seq::empty();
    assert(to.subrange(n as int, n as int) == Seq::<Seq<char>>::empty());
    assert(tn.subrange(m as int, m as int) == Seq::<Seq<char>>::empty());
    proof {
        let ks = choose|ks: int| in_round(dd as int, ks) && #[trigger] stops(to, tn, dd, ks);
        lemma_first_stop(to, tn, dd, ks);
    }
    let mut d: usize = trace.len() - 1;
    while d > 0
        invariant
            n == old@.len(),
            m == new@.len(),
            to == texts(old@),
            tn == texts(new@),
            n + m == max,
            1 <= max <= MAX_EDIT_DISTANCE,
            w == 2 * max + 1,
            d < trace@.len() <= max + 2,
            dd == trace@.len() - 2,
            forall|r: int| 0 <= r < trace@.len() ==> (#[trigger] trace@[r])@.len() == w,
            forall|r: int, j: int| 0 <= r < trace@.len() && 0 <= j < w ==> #[trigger] trace@[r]@[j] <= w,
            forall|r: int, j: int|
                1 <= r < trace@.len() - 1 && 0 <= j < w && in_round(r - 1, j - max) ==> #[trigger] trace@[r]@[j]
                    == front(to, tn, (r - 1) as nat, j - max),
            x <= n,
            y <= m,
            d >= 1 ==> in_round(d - 1, x - y) && start_of(to, tn, (d - 1) as nat, x - y) <= x <= front(
                to,
                tn,
                (d - 1) as nat,
                x - y,
            ),
            d == 0 ==> x == 0 && y == 0,
            old_lines(script) == to.subrange(x as int, n as int),
            new_lines(script) == tn.subrange(y as int, m as int),
            changes(script) == if d == 0 { dd as int } else { dd + 1 - d },
            rev@.len() == script.len(),
            forall|i: int| 0 <= i < rev@.len() ==> (#[trigger] rev@[i])@ == script[script.len() - 1 - i],
        decreases d,
    {
        d = d - 1;
        let ghost k = x - y;
        let ghost st = start_of(to, tn, d as nat, k);
        let ghost fr = front(to, tn, d as nat, k);
        proof {
            lemma_front_reached(to, tn, d as nat, k);
            lemma_snake(to, tn, st, k);
        }
        let px: usize;
        let py: usize;
        let ghost pk: int;
        if d == 0 {
            px = 0;
            py = 0;
            proof {
                pk = 0;
            }
        } else {
            let idx = x + max - y;
            let row = &trace[d];
            assert(row@.len() == w);
            let pidx: usize;
            if idx + d == max {
                pidx = idx + 1;
            } else if idx == max + d {
                if idx == 0 {
                    return None;
                }
                pidx = idx - 1;
            } else {
                if idx == 0 || idx + 1 >= w {
                    return None;
                }
                proof {
                    assert(in_round(d - 1, k - 1));
                    assert(in_round(d - 1, k + 1));
                    assert(row@[idx - 1] == front(to, tn, (d - 1) as nat, k - 1));
                    assert(row@[idx + 1] == front(to, tn, (d - 1) as nat, k + 1));
                }
                pidx = if row[idx - 1] < row[idx + 1] {
                    idx + 1
                } else {
                    idx - 1
                };
            }
            if pidx >= w {
                return None;
            }
            proof {
                pk = pidx - max;
                assert(in_round(d - 1, pk));
                assert(row@[pidx as int] == front(to, tn, (d - 1) as nat, pk));
                lemma_front_reached(to, tn, (d - 1) as nat, pk);
                if pk == k + 1 {
                    assert(st == front(to, tn, (d - 1) as nat, pk));
                } else {
                    assert(st == front(to, tn, (d - 1) as nat, pk) + 1);
                }
            }
            let p = row[pidx];
            assert(p <= w);
            if p + max < pidx {
                return None;
            }
            px = p;
            py = p + max - pidx;
        }
        // the lines kept unchanged, back to the edit point
        while x > px && y > py
            invariant
                n == old@.len(),
                m == new@.len(),
                to == texts(old@),
                tn == texts(new@),
                x <= n,
                y <= m,
                x - y == k,
                st <= x <= fr,
                forall|i: int| st <= i < fr ==> #[trigger] diag_step(to, tn, i, k),
                d == 0 ==> px == 0 && py == 0 && st == 0 && k == 0,
                d > 0 ==> py == px - pk && (pk == k + 1 && st == px || pk == k - 1 && st == px + 1),
                old_lines(script) == to.subrange(x as int, n as int),
                new_lines(script) == tn.subrange(y as int, m as int),
                changes(script) == dd - d,
                rev@.len() == script.len(),
                forall|i: int| 0 <= i < rev@.len() ==> (#[trigger] rev@[i])@ == script[script.len() - 1 - i],
            decreases x,
        {
            x = x - 1;
            y = y - 1;
            assert(diag_step(to, tn, x as int, k));
            if !str_eq(old[x], new[y]) {
                return None;
            }
            let e = Edit::Equal(String::from_str(old[x]));
            proof {
                let s0 = script;
                script = seq![e@] + s0;
                assert(script.drop_first() == s0);
                assert(to.subrange(x as int, n as int) == seq![to[x as int]] + to.subrange(x + 1, n as int));
                assert(tn.subrange(y as int, m as int) == seq![tn[y as int]] + tn.subrange(y + 1, m as int));
            }
            rev.push(e);
        }
        assert(x == st);
        // the one insertion or deletion of this round
        if d > 0 {
            if x == px {
                if y == 0 {
                    return None;
                }
                y = y - 1;
                let e = Edit::Insert(String::from_str(new[y]));
                proof {
                    let s0 = script;
                    script = seq![e@] + s0;
                    assert(script.drop_first() == s0);
                    assert(tn.subrange(y as int, m as int) == seq![tn[y as int]] + tn.subrange(y + 1, m as int));
                }
                rev.push(e);
            } else {
                if x == 0 {
                    return None;
                }
                x = x - 1;
                let e = Edit::Delete(String::from_str(old[x]));
                proof {
                    let s0 = script;
                    script = seq![e@] + s0;
                    assert(script.drop_first() == s0);
                    assert(to.subrange(x as int, n as int) == seq![to[x as int]] + to.subrange(x + 1, n as int));
                }
                rev.push(e);
            }
        }
    }
    if x != 0 || y != 0 {
        return None;
    }
    assert(to.subrange(0, n as int) == to);
    assert(tn.subrange(0, m as int) == tn);
    let mut out: Vec<Edit> = Vec::new();
    while rev.len() > 0
        invariant
            out@.len() + rev@.len() == script.len(),
            edit_models(out@) == script.take(out@.len() as int),
            forall|i: int| 0 <= i < rev@.len() ==> (#[trigger] rev@[i])@ == script[script.len() - 1 - i],
        decreases rev@.len(),
    {
        let ghost prev = edit_models(out@);
        match rev.pop() {
            Some(e) => {
                out.push(e);
                assert(edit_models(out@) == prev.push(e@));
                assert(script.take(out@.len() as int) == script.take(out@.len() - 1).push(
                    script[out@.len() - 1],
                ));
            },
            None => {},
        }
    }
    assert(script.take(script.len() as int) == script);
    Some(out)
}

/// The edit script between two lists of lines: every old line is kept or
/// deleted and every new line is kept or inserted, in order, with as few
/// insertions and deletions as any such script (a shortest edit script).
/// When the two lists hold more than `MAX_EDIT_DISTANCE` lines together,
/// the plain script (all deletions, then all insertions) is returned.
pub fn myers_diff(old: &[&str], new: &[&str]) -> (out: Vec<Edit>)
    ensures
        old_lines(edit_models(out@)) == texts(old@),
        new_lines(edit_models(out@)) == texts(new@),
        old@.len() + new@.len() <= MAX_EDIT_DISTANCE ==> forall|es: Seq<EditModel>|
            old_lines(es) == texts(old@) && new_lines(es) == texts(new@) ==> changes(edit_models(out@)) <= #[trigger] changes(es),
        out@.len() <= old@.len() + new@.len(),
        old@.len() + new@.len() > MAX_EDIT_DISTANCE ==> edit_models(out@) == plain_script(
            texts(old@),
            texts(new@),
        ),
{
    let n = old.len();
    let m = new.len();
    proof {
        lemma_plain_script(texts(old@), texts(new@));
    }
    let out = myers_script(old, new);
    proof {
        lemma_script_len(edit_models(out@));
    }
    out
}

/// Every edit reads or writes a line, so a script is no longer than its two sides.
proof fn lemma_script_len(es: Seq<EditModel>)
    ensures
        es.len() <= old_lines(es).len() + new_lines(es).len(),
    decreases es.len(),
{
    if es.len() > 0 {
        lemma_script_len(es.drop_first());
    }
}

/// The search itself, with the plain script past the size limit.
fn myers_script(old: &[&str], new: &[&str]) -> (out: Vec<Edit>)
    ensures
        old_lines(edit_models(out@)) == texts(old@),
        new_lines(edit_models(out@)) == texts(new@),
        old@.len() + new@.len() <= MAX_EDIT_DISTANCE ==> forall|es: Seq<EditModel>|
            old_lines(es) == texts(old@) && new_lines(es) == texts(new@) ==> changes(edit_models(out@)) <= #[trigger] changes(es),
        old@.len() + new@.len() > MAX_EDIT_DISTANCE ==> edit_models(out@) == plain_script(
            texts(old@),
            texts(new@),
        ),
{
    let n = old.len();
    let m = new.len();
    proof {
        lemma_plain_script(texts(old@), texts(new@));
    }
    if n == 0 && m == 0 {
        let out: Vec<Edit> = Vec::new();
        assert(texts(old@) == Seq::<Seq<char>>::empty());
        assert(texts(new@) == Seq::<Seq<char>>::empty());
        assert(changes(edit_models(out@)) == 0);
        return out;
    }
    if n > MAX_EDIT_DISTANCE || m > MAX_EDIT_DISTANCE - n {
        return plain_edits(old, new);
    }
    let max = n + m;
    let trace = forward_search(old, new, max);
    match backtrack(old, new, &trace, max) {
        Some(edits) => {
            proof {
                let dd = (trace@.len() - 2) as nat;
                assert forall|es: Seq<EditModel>|
                    old_lines(es) == texts(old@) && new_lines(es) == texts(new@) implies changes(edit_models(edits@))
                    <= #[trigger] changes(es) by {
                    lemma_script_reaches(es, texts(old@), texts(new@));
                    lemma_no_cheaper(texts(old@), texts(new@), dd, changes(es));
                }
            }
            edits
        },
        None => plain_edits(old, new),
    }
}

// ---------------------------------------------------------------------------
// Hunks
// ---------------------------------------------------------------------------

/// A run of edits with its position on both sides, as unified diffs show it.
pub struct Hunk {
    pub old_start: usize,
    pub old_count: usize,
    pub new_start: usize,
    pub new_count: usize,
    pub lines: Vec<Edit>,
}

/// Mathematical view of a hunk.
pub struct HunkModel {
    pub old_start: int,
    pub old_count: int,
    pub new_start: int,
    pub new_count: int,
    pub lines: Seq<EditModel>,
}

impl View for Hunk {
    type V = HunkModel;

    open spec fn view(&self) -> HunkModel {
        HunkModel {
            old_start: self.old_start as int,
            old_count: self.old_count as int,
            new_start: self.new_start as int,
            new_count: self.new_count as int,
            lines: edit_models(self.lines@),
        }
    }
}

/// The views of a list of hunks.
pub open spec fn hunk_models(v: Seq<Hunk>) -> Seq<HunkModel> {
    v.map_values(|h: Hunk| h@)
}

/// Where the run of changes (edits other than `Equal`) that starts at `i` ends.
pub open spec fn run_end(es: Seq<EditModel>, i: int) -> int
    decreases es.len() - i,
{
    if i < 0 || i >= es.len() || es[i] is Equal {
        i
    } else {
        run_end(es, i + 1)
    }
}

/// A run of changes reaches at least one past its start and stops at an
/// `Equal` edit or at the end.
pub proof fn lemma_run_end(es: Seq<EditModel>, i: int)
    requires
        0 <= i <= es.len(),
    ensures
        i <= run_end(es, i) <= es.len(),
        i < es.len() && !(es[i] is Equal) ==> run_end(es, i) > i,
    decreases es.len() - i,
{
    if i < es.len() && !(es[i] is Equal) {
        lemma_run_end(es, i + 1);
    }
}

/// The maximal runs of changes from position `i` on, as (start, end) pairs.
pub open spec fn runs_from(es: Seq<EditModel>, i: int) -> Seq<(int, int)>
    decreases es.len() - i,
{
    if i < 0 || i >= es.len() {
        Seq::empty()
    } else if es[i] is Equal {
        runs_from(es, i + 1)
    } else {
        proof {
            lemma_run_end(es, i);
        }
        seq![(i, run_end(es, i))] + runs_from(es, run_end(es, i))
    }
}

/// Joins consecutive runs whose gap is at most `2 * context`, so that their
/// context lines would meet.
pub open spec fn merge_runs(runs: Seq<(int, int)>, context: int) -> Seq<(int, int)>
    decreases runs.len(),
{
    if runs.len() == 0 {
        Seq::empty()
    } else {
        let g = merge_runs(runs.drop_last(), context);
        let r = runs.last();
        if g.len() > 0 && r.0 <= g.last().1 + 2 * context {
            g.drop_last().push((g.last().0, r.1))
        } else {
            g.push(r)
        }
    }
}

/// The number of old-side lines of a script.
pub open spec fn old_count(es: Seq<EditModel>) -> int {
    old_lines(es).len() as int
}

/// The number of new-side lines of a script.
pub open spec fn new_count(es: Seq<EditModel>) -> int {
    new_lines(es).len() as int
}

/// The hunk around a group of changes `[g.0, g.1)`: `context` edits more on
/// each side where there are, and the 1-based line numbers where it starts.
pub open spec fn hunk_of(es: Seq<EditModel>, g: (int, int), context: int) -> HunkModel {
    let hs = if g.0 >= context { g.0 - context } else { 0 };
    let he = if g.1 + context <= es.len() { g.1 + context } else { es.len() as int };
    HunkModel {
        old_start: old_count(es.take(hs)) + 1,
        old_count: old_count(es.subrange(hs, he)),
        new_start: new_count(es.take(hs)) + 1,
        new_count: new_count(es.subrange(hs, he)),
        lines: es.subrange(hs, he),
    }
}

/// The hunks of an edit script.
pub open spec fn hunks_of(es: Seq<EditModel>, context: int) -> Seq<HunkModel> {
    merge_runs(runs_from(es, 0), context).map_values(|g: (int, int)| hunk_of(es, g, context))
}

/// One more edit adds its line to each side it belongs to.
proof fn lemma_count_push(a: Seq<EditModel>, e: EditModel)
    ensures
        old_count(a.push(e)) == old_count(a) + if e is Insert { 0int } else { 1int },
        new_count(a.push(e)) == new_count(a) + if e is Delete { 0int } else { 1int },
{
    let one = seq![e];
    lemma_lines_concat(a, one);
    assert(a.push(e) == a + one);
    assert(one.drop_first() =~= Seq::<EditModel>::empty());
    assert(one[0] == e);
    assert(old_lines(one.drop_first()) == Seq::<Seq<char>>::empty());
    assert(new_lines(one.drop_first()) == Seq::<Seq<char>>::empty());
    match e {
        EditModel::Insert(t) => {
            assert(old_lines(one) == old_lines(one.drop_first()));
            assert(new_lines(one) == seq![t] + new_lines(one.drop_first()));
        },
        EditModel::Delete(t) => {
            assert(old_lines(one) == seq![t] + old_lines(one.drop_first()));
            assert(new_lines(one) == new_lines(one.drop_first()));
        },
        EditModel::Equal(t) => {
            assert(old_lines(one) == seq![t] + old_lines(one.drop_first()));
            assert(new_lines(one) == seq![t] + new_lines(one.drop_first()));
        },
    }
}

/// A copy of an edit.
fn copy_edit(e: &Edit) -> (out: Edit)
    ensures
        out@ == e@,
{
    match e {
        Edit::Equal(s) => Edit::Equal(s.clone()),
        Edit::Insert(s) => Edit::Insert(s.clone()),
        Edit::Delete(s) => Edit::Delete(s.clone()),
    }
}

/// `true` for an `Equal` edit.
fn is_equal(e: &Edit) -> (out: bool)
    ensures
        out == (e@ is Equal),
{
    match e {
        Edit::Equal(_) => true,
        _ => false,
    }
}

/// The numbers of old-side and new-side lines among `edits[from..to]`.
fn count_sides(edits: &[Edit], from: usize, to: usize) -> (out: (usize, usize))
    requires
        from <= to <= edits@.len(),
    ensures
        out.0 == old_count(edit_models(edits@).subrange(from as int, to as int)),
        out.1 == new_count(edit_models(edits@).subrange(from as int, to as int)),
        out.0 <= to - from,
        out.1 <= to - from,
{
    let ghost es = edit_models(edits@);
    let mut o: usize = 0;
    let mut n: usize = 0;
    let mut i: usize = from;
    assert(es.subrange(from as int, from as int) == Seq::<EditModel>::empty());
    while i < to
        invariant
            es == edit_models(edits@),
            from <= i <= to <= edits@.len(),
            o == old_count(es.subrange(from as int, i as int)),
            n == new_count(es.subrange(from as int, i as int)),
            o <= i - from,
            n <= i - from,
        decreases to - i,
    {
        proof {
            lemma_count_push(es.subrange(from as int, i as int), es[i as int]);
            assert(es.subrange(from as int, i + 1) == es.subrange(from as int, i as int).push(es[i as int]));
        }
        match &edits[i] {
            Edit::Equal(_) => {
                o = o + 1;
                n = n + 1;
            },
            Edit::Delete(_) => {
                o = o + 1;
            },
            Edit::Insert(_) => {
                n = n + 1;
            },
        }
        i = i + 1;
    }
    (o, n)
}

/// The hunk for the changes `edits[change_start..change_end]`, with
/// `context` edits around them.
fn build_hunk(edits: &[Edit], change_start: usize, change_end: usize, context: usize) -> (out: Hunk)
    requires
        change_start <= change_end <= edits@.len(),
        edits@.len() + context < usize::MAX,
    ensures
        out@ == hunk_of(edit_models(edits@), (change_start as int, change_end as int), context as int),
{
    let ghost es = edit_models(edits@);
    let hunk_start = if change_start >= context {
        change_start - context
    } else {
        0
    };
    let hunk_end = if change_end + context <= edits.len() {
        change_end + context
    } else {
        edits.len()
    };
    let mut lines: Vec<Edit> = Vec::new();
    let mut i: usize = hunk_start;
    while i < hunk_end
        invariant
            es == edit_models(edits@),
            hunk_start <= i <= hunk_end <= edits@.len(),
            edit_models(lines@) == es.subrange(hunk_start as int, i as int),
        decreases hunk_end - i,
    {
        let ghost prev = edit_models(lines@);
        lines.push(copy_edit(&edits[i]));
        assert(edit_models(lines@) == prev.push(es[i as int]));
        assert(es.subrange(hunk_start as int, i + 1) == es.subrange(hunk_start as int, i as int).push(
            es[i as int],
        ));
        i = i + 1;
    }
    let (old_line, new_line) = count_sides(edits, 0, hunk_start);
    let (old_count, new_count) = count_sides(edits, hunk_start, hunk_end);
    assert(es.subrange(0, hunk_start as int) == es.take(hunk_start as int));
    Hunk {
        old_start: old_line + 1,
        old_count,
        new_start: new_line + 1,
        new_count,
        lines,
    }
}

/// The (start, end) pairs of a list, as integers.
pub open spec fn int_pairs(v: Seq<(usize, usize)>) -> Seq<(int, int)> {
    v.map_values(|p: (usize, usize)| (p.0 as int, p.1 as int))
}

/// Groups the edits into hunks: each run of changes with `context` edits
/// around it, runs whose context would overlap joined into one hunk.
pub fn make_hunks(edits: &[Edit], context: usize) -> (out: Vec<Hunk>)
    requires
        edits@.len() + 2 * context < usize::MAX,
    ensures
        hunk_models(out@) == hunks_of(edit_models(edits@), context as int),
{
    let ghost es = edit_models(edits@);
    let ghost c = context as int;
    if edits.len() == 0 {
        assert(runs_from(es, 0) == Seq::<(int, int)>::empty());
        assert(merge_runs(Seq::<(int, int)>::empty(), c) == Seq::<(int, int)>::empty());
        return Vec::new();
    }
    // the runs of changes
    let mut changes: Vec<(usize, usize)> = Vec::new();
    let mut i: usize = 0;
    while i < edits.len()
        invariant
            es == edit_models(edits@),
            i <= edits@.len(),
            int_pairs(changes@) + runs_from(es, i as int) == runs_from(es, 0),
            forall|k: int| 0 <= k < changes@.len() ==> (#[trigger] changes@[k]).0 < changes@[k].1 <= i,
            forall|k: int, l: int| 0 <= k < l < changes@.len() ==> (#[trigger] changes@[k]).1 <= (#[trigger] changes@[l]).0,
        decreases edits@.len() - i,
    {
        if !is_equal(&edits[i]) {
            let start = i;
            proof {
                lemma_run_end(es, start as int);
            }
            while i < edits.len() && !is_equal(&edits[i])
                invariant
                    es == edit_models(edits@),
                    start <= i <= edits@.len(),
                    start < edits@.len(),
                    run_end(es, start as int) == run_end(es, i as int),
                    i == start || i > start,
                decreases edits@.len() - i,
            {
                i = i + 1;
            }
            assert(run_end(es, i as int) == i);
            assert(i > start) by {
                assert(!(es[start as int] is Equal));
                lemma_run_end(es, start as int);
            }
            let ghost before = int_pairs(changes@);
            changes.push((start, i));
            proof {
                assert(int_pairs(changes@) == before.push((start as int, i as int)));
                assert(runs_from(es, start as int) == seq![(start as int, i as int)] + runs_from(es, i as int));
                assert(before + runs_from(es, start as int) == before.push((start as int, i as int)) + runs_from(
                    es,
                    i as int,
                ));
            }
        } else {
            i = i + 1;
        }
    }
    assert(int_pairs(changes@) + Seq::<(int, int)>::empty() == int_pairs(changes@));
    let ghost runs = int_pairs(changes@);
    if changes.len() == 0 {
        assert(merge_runs(runs, c) == Seq::<(int, int)>::empty());
        return Vec::new();
    }
    let mut hunks: Vec<Hunk> = Vec::new();
    let mut group_start = changes[0].0;
    let mut group_end = changes[0].1;
    let ghost mut done: Seq<(int, int)> = Seq::empty();
    assert(runs.take(1).drop_last() == Seq::<(int, int)>::empty());
    assert(merge_runs(runs.take(1).drop_last(), c) == Seq::<(int, int)>::empty());
    assert(runs.take(1).last() == runs[0]);
    assert(runs[0] == (group_start as int, group_end as int));
    assert(merge_runs(runs.take(1), c) == done.push((group_start as int, group_end as int)));
    let mut j: usize = 1;
    while j < changes.len()
        invariant
            es == edit_models(edits@),
            edits@.len() + 2 * context < usize::MAX,
            c == context as int,
            runs == int_pairs(changes@),
            1 <= j <= changes@.len(),
            forall|k: int| 0 <= k < changes@.len() ==> (#[trigger] changes@[k]).0 < changes@[k].1 <= edits@.len(),
            forall|k: int, l: int| 0 <= k < l < changes@.len() ==> (#[trigger] changes@[k]).1 <= (#[trigger] changes@[l]).0,
            group_start <= group_end <= edits@.len(),
            group_end == changes@[j - 1].1,
            merge_runs(runs.take(j as int), c) == done.push((group_start as int, group_end as int)),
            hunk_models(hunks@) == done.map_values(|g: (int, int)| hunk_of(es, g, c)),
        decreases changes@.len() - j,
    {
        let (start, end) = changes[j];
        proof {
            assert(runs.take(j + 1).drop_last() == runs.take(j as int));
            assert(runs.take(j + 1).last() == (start as int, end as int));
        }
        if start <= group_end + 2 * context {
            group_end = end;
        } else {
            let ghost hs_before = hunk_models(hunks@);
            hunks.push(build_hunk(edits, group_start, group_end, context));
            proof {
                let g = (group_start as int, group_end as int);
                assert(hunk_models(hunks@) == hs_before.push(hunk_of(es, g, c)));
                done = done.push(g);
                assert(hunk_models(hunks@) =~= done.map_values(|g: (int, int)| hunk_of(es, g, c)));
            }
            group_start = start;
            group_end = end;
        }
        j = j + 1;
    }
    let ghost hs_before = hunk_models(hunks@);
    hunks.push(build_hunk(edits, group_start, group_end, context));
    proof {
        let g = (group_start as int, group_end as int);
        assert(hunk_models(hunks@) == hs_before.push(hunk_of(es, g, c)));
        assert(runs.take(j as int) == runs);
        assert(runs_from(es, 0) == runs);
        let all = done.push(g);
        assert(merge_runs(runs, c) == all);
        assert(hunk_models(hunks@) =~= all.map_values(|g: (int, int)| hunk_of(es, g, c)));
    }
    hunks
}

/// No runs of changes from `i` on exactly when every edit from `i` on is `Equal`.
proof fn lemma_runs_empty(es: Seq<EditModel>, i: int)
    requires
        0 <= i <= es.len(),
    ensures
        runs_from(es, i).len() == 0 <==> forall|k: int| i <= k < es.len() ==> #[trigger] es[k] is Equal,
    decreases es.len() - i,
{
    if i < es.len() {
        if es[i] is Equal {
            lemma_runs_empty(es, i + 1);
            assert forall|k: int| i <= k < es.len() && (forall|m: int| i + 1 <= m < es.len() ==> #[trigger] es[m] is Equal) implies #[trigger] es[k] is Equal by {
                if k > i {
                    assert(es[k] is Equal);
                }
            }
        } else {
            lemma_run_end(es, i);
        }
    }
}

/// Joining runs loses none of them: there are groups exactly when there are runs.
proof fn lemma_merge_runs_empty(runs: Seq<(int, int)>, context: int)
    ensures
        merge_runs(runs, context).len() == 0 <==> runs.len() == 0,
    decreases runs.len(),
{
    if runs.len() > 0 {
        lemma_merge_runs_empty(runs.drop_last(), context);
    }
}

/// An edit script has hunks exactly when it changes something.
pub proof fn law_hunks_iff_changes(es: Seq<EditModel>, context: int)
    ensures
        hunks_of(es, context).len() == 0 <==> forall|k: int| 0 <= k < es.len() ==> #[trigger] es[k] is Equal,
{
    lemma_runs_empty(es, 0);
    lemma_merge_runs_empty(runs_from(es, 0), context);
}

/// No edit in `es[a..b]` is `Equal`.
pub open spec fn all_changes(es: Seq<EditModel>, a: int, b: int) -> bool {
    forall|m: int| a <= m < b ==> !(#[trigger] es[m] is Equal)
}

/// Every edit in `es[a..b]` is `Equal`.
pub open spec fn all_equal(es: Seq<EditModel>, a: int, b: int) -> bool {
    forall|m: int| a <= m < b ==> #[trigger] es[m] is Equal
}

/// Runs of changes as `runs_from` finds them: maximal, in order, from `lo`
/// on, with nothing but `Equal` edits between neighbours.
spec fn runs_ok(es: Seq<EditModel>, rs: Seq<(int, int)>, lo: int) -> bool {
    &&& forall|j: int|
        0 <= j < rs.len() ==> lo <= (#[trigger] rs[j]).0 < rs[j].1 <= es.len() && all_changes(es, rs[j].0, rs[j].1)
            && (rs[j].1 == es.len() || es[rs[j].1] is Equal)
    &&& forall|j: int, k: int|
        #![trigger rs[j], rs[k]]
        0 <= j && k == j + 1 && k < rs.len() ==> rs[j].1 < rs[k].0 && all_equal(es, rs[j].1, rs[k].0)
}

/// A run of changes holds only changes and stops at an `Equal` edit or at
/// the end.
proof fn lemma_run_end_changes(es: Seq<EditModel>, i: int)
    requires
        0 <= i < es.len(),
        !(es[i] is Equal),
    ensures
        all_changes(es, i, run_end(es, i)),
        run_end(es, i) == es.len() || es[run_end(es, i)] is Equal,
    decreases es.len() - i,
{
    lemma_run_end(es, i);
    if i + 1 < es.len() && !(es[i + 1] is Equal) {
        lemma_run_end_changes(es, i + 1);
    } else {
        lemma_run_end(es, i + 1);
    }
}

/// What `runs_from` finds: well-formed runs that cover every change.
proof fn lemma_runs_ok(es: Seq<EditModel>, i: int)
    requires
        0 <= i <= es.len(),
    ensures
        runs_ok(es, runs_from(es, i), i),
        forall|k: int|
            i <= k < es.len() && !(#[trigger] es[k] is Equal) ==> exists|j: int|
                0 <= j < runs_from(es, i).len() && (#[trigger] runs_from(es, i)[j]).0 <= k < runs_from(es, i)[j].1,
        runs_from(es, i).len() > 0 ==> all_equal(es, i, runs_from(es, i)[0].0),
    decreases es.len() - i,
{
    let rs = runs_from(es, i);
    if i < es.len() {
        if es[i] is Equal {
            lemma_runs_ok(es, i + 1);
            assert forall|k: int| i <= k < es.len() && !(#[trigger] es[k] is Equal) implies exists|j: int|
                0 <= j < rs.len() && (#[trigger] rs[j]).0 <= k < rs[j].1 by {
                assert(k >= i + 1);
            }
        } else {
            let e = run_end(es, i);
            lemma_run_end(es, i);
            lemma_run_end_changes(es, i);
            lemma_runs_ok(es, e);
            let rest = runs_from(es, e);
            assert(rs == seq![(i, e)] + rest);
            assert forall|j: int| 0 <= j < rs.len() implies i <= (#[trigger] rs[j]).0 < rs[j].1 <= es.len()
                && all_changes(es, rs[j].0, rs[j].1) && (rs[j].1 == es.len() || es[rs[j].1] is Equal) by {
                if j > 0 {
                    assert(rs[j] == rest[j - 1]);
                }
            }
            assert forall|j: int, k: int|
                #![trigger rs[j], rs[k]]
                0 <= j && k == j + 1 && k < rs.len() implies rs[j].1 < rs[k].0 && all_equal(es, rs[j].1, rs[k].0) by {
                if j == 0 {
                    assert(rs[k] == rest[0]);
                    assert(rest[0].0 < rest[0].1);
                    assert(!(es[rest[0].0] is Equal));
                } else {
                    assert(rs[j] == rest[j - 1]);
                    assert(rs[k] == rest[k - 1]);
                }
            }
            assert forall|k: int| i <= k < es.len() && !(#[trigger] es[k] is Equal) implies exists|j: int|
                0 <= j < rs.len() && (#[trigger] rs[j]).0 <= k < rs[j].1 by {
                if k < e {
                    assert(rs[0] == (i, e));
                } else {
                    let j = choose|j: int| 0 <= j < rest.len() && (#[trigger] rest[j]).0 <= k < rest[j].1;
                    assert(rs[j + 1] == rest[j]);
                }
            }
        }
    }
}

/// What joining runs gives: groups that start and end at a change, lie more
/// than `2 * context` edits apart, cover every run, and hold no stretch of
/// more than `2 * context` unchanged edits.
proof fn lemma_merge_ok(es: Seq<EditModel>, rs: Seq<(int, int)>, c: int)
    requires
        runs_ok(es, rs, 0),
        c >= 0,
    ensures
        ({
            let gs = merge_runs(rs, c);
            &&& gs.len() == 0 <==> rs.len() == 0
            &&& rs.len() > 0 ==> gs.last().1 == rs.last().1
            &&& forall|j: int|
                0 <= j < gs.len() ==> 0 <= (#[trigger] gs[j]).0 < gs[j].1 <= es.len() && !(es[gs[j].0] is Equal)
                    && !(es[gs[j].1 - 1] is Equal)
            &&& forall|j: int, k: int| 0 <= j < k < gs.len() ==> (#[trigger] gs[j]).1 + 2 * c < (#[trigger] gs[k]).0
            &&& forall|r: int|
                0 <= r < rs.len() ==> exists|j: int|
                    0 <= j < gs.len() && (#[trigger] gs[j]).0 <= (#[trigger] rs[r]).0 && rs[r].1 <= gs[j].1
            &&& forall|j: int, a: int, b: int|
                0 <= j < gs.len() && (#[trigger] gs[j]).0 <= a <= b < gs[j].1 && #[trigger] all_equal(es, a, b + 1)
                    ==> b - a + 1 <= 2 * c
        }),
    decreases rs.len(),
{
    lemma_merge_runs_empty(rs, c);
    if rs.len() > 0 {
        let rs0 = rs.drop_last();
        let r = rs.last();
        assert(runs_ok(es, rs0, 0)) by {
            assert forall|j: int, k: int|
                #![trigger rs0[j], rs0[k]]
                0 <= j && k == j + 1 && k < rs0.len() implies rs0[j].1 < rs0[k].0 && all_equal(es, rs0[j].1, rs0[k].0) by {
                assert(rs0[j] == rs[j] && rs0[k] == rs[k]);
            }
        }
        lemma_merge_ok(es, rs0, c);
        lemma_merge_runs_empty(rs0, c);
        let g = merge_runs(rs0, c);
        let gs = merge_runs(rs, c);
        let n = rs.len() - 1;
        assert(rs[n] == r);
        assert(r.0 < r.1 && all_changes(es, r.0, r.1));
        if g.len() > 0 {
            assert(rs[n - 1] == rs0.last());
            assert(g.last().1 < r.0 && all_equal(es, g.last().1, r.0));
        }
        if g.len() > 0 && r.0 <= g.last().1 + 2 * c {
            let last = (g.last().0, r.1);
            assert(gs == g.drop_last().push(last));
            let m = g.len() - 1;
            assert(g[m] == g.last());
            assert forall|j: int| 0 <= j < gs.len() implies 0 <= (#[trigger] gs[j]).0 < gs[j].1 <= es.len()
                && !(es[gs[j].0] is Equal) && !(es[gs[j].1 - 1] is Equal) by {
                if j < m {
                    assert(gs[j] == g[j]);
                } else {
                    assert(gs[j] == last);
                    assert(!(es[r.1 - 1] is Equal));
                }
            }
            assert forall|j: int, k: int| 0 <= j < k < gs.len() implies (#[trigger] gs[j]).1 + 2 * c < (#[trigger] gs[k]).0 by {
                assert(gs[j] == g[j]);
                if k < m {
                    assert(gs[k] == g[k]);
                } else {
                    assert(gs[k].0 == g[m].0);
                }
            }
            assert forall|q: int| 0 <= q < rs.len() implies exists|j: int|
                0 <= j < gs.len() && (#[trigger] gs[j]).0 <= (#[trigger] rs[q]).0 && rs[q].1 <= gs[j].1 by {
                if q == n {
                    assert(gs[m] == last);
                } else {
                    assert(rs[q] == rs0[q]);
                    let j = choose|j: int| 0 <= j < g.len() && (#[trigger] g[j]).0 <= (#[trigger] rs0[q]).0 && rs0[q].1 <= g[j].1;
                    if j < m {
                        assert(gs[j] == g[j]);
                    } else {
                        assert(gs[m] == last);
                        assert(g[m].1 < r.1);
                    }
                }
            }
            assert forall|j: int, a: int, b: int|
                0 <= j < gs.len() && (#[trigger] gs[j]).0 <= a <= b < gs[j].1 && #[trigger] all_equal(es, a, b + 1)
                    implies b - a + 1 <= 2 * c by {
                if j < m {
                    assert(gs[j] == g[j]);
                } else {
                    assert(gs[j] == last);
                    let e0 = g[m].1;
                    assert(!(es[e0 - 1] is Equal));
                    assert(!(es[r.0] is Equal));
                    if b < e0 {
                        assert(all_equal(es, a, b + 1));
                    } else {
                        if a < e0 {
                            assert(es[e0 - 1] is Equal);
                        }
                        if b >= r.0 {
                            assert(es[b] is Equal);
                            assert(!(es[b] is Equal));
                        }
                    }
                }
            }
        } else {
            assert(gs == g.push(r));
            let m = g.len() as int;
            assert(gs[m] == r);
            assert(!(es[r.0] is Equal));
            assert(!(es[r.1 - 1] is Equal));
            assert forall|j: int| 0 <= j < gs.len() implies 0 <= (#[trigger] gs[j]).0 < gs[j].1 <= es.len()
                && !(es[gs[j].0] is Equal) && !(es[gs[j].1 - 1] is Equal) by {
                if j < m {
                    assert(gs[j] == g[j]);
                }
            }
            assert forall|j: int, k: int| 0 <= j < k < gs.len() implies (#[trigger] gs[j]).1 + 2 * c < (#[trigger] gs[k]).0 by {
                assert(gs[j] == g[j]);
                if k < m {
                    assert(gs[k] == g[k]);
                } else {
                    if j < m - 1 {
                        assert(g[j].1 + 2 * c < g[m - 1].0);
                    }
                    assert(g[m - 1] == g.last());
                }
            }
            assert forall|q: int| 0 <= q < rs.len() implies exists|j: int|
                0 <= j < gs.len() && (#[trigger] gs[j]).0 <= (#[trigger] rs[q]).0 && rs[q].1 <= gs[j].1 by {
                if q == n {
                    assert(gs[m] == r);
                } else {
                    assert(rs[q] == rs0[q]);
                    let j = choose|j: int| 0 <= j < g.len() && (#[trigger] g[j]).0 <= (#[trigger] rs0[q]).0 && rs0[q].1 <= g[j].1;
                    assert(gs[j] == g[j]);
                }
            }
            assert forall|j: int, a: int, b: int|
                0 <= j < gs.len() && (#[trigger] gs[j]).0 <= a <= b < gs[j].1 && #[trigger] all_equal(es, a, b + 1)
                    implies b - a + 1 <= 2 * c by {
                if j < m {
                    assert(gs[j] == g[j]);
                } else {
                    assert(es[a] is Equal);
                }
            }
        }
    }
}

/// How changes fall into hunks: every change lies in exactly one group
/// (the hunk's lines are the group with `context` edits on each side);
/// groups start and end with a change and lie in order, more than
/// `2 * context` edits apart; and within a group no stretch of unchanged
/// edits is longer than `2 * context`. So two neighbouring changes share a
/// hunk exactly when at most `2 * context` unchanged edits separate them.
pub proof fn law_hunk_groups(es: Seq<EditModel>, context: int)
    requires
        context >= 0,
    ensures
        hunks_of(es, context) == merge_runs(runs_from(es, 0), context).map_values(
            |g: (int, int)| hunk_of(es, g, context),
        ),
        ({
            let gs = merge_runs(runs_from(es, 0), context);
            &&& forall|j: int|
                0 <= j < gs.len() ==> 0 <= (#[trigger] gs[j]).0 < gs[j].1 <= es.len() && !(es[gs[j].0] is Equal)
                    && !(es[gs[j].1 - 1] is Equal)
            &&& forall|j: int, k: int| 0 <= j < k < gs.len() ==> (#[trigger] gs[j]).1 + 2 * context < (#[trigger] gs[k]).0
            &&& forall|k: int|
                0 <= k < es.len() && !(#[trigger] es[k] is Equal) ==> exists|j: int|
                    0 <= j < gs.len() && (#[trigger] gs[j]).0 <= k < gs[j].1
            &&& forall|j: int, a: int, b: int|
                0 <= j < gs.len() && (#[trigger] gs[j]).0 <= a <= b < gs[j].1 && #[trigger] all_equal(es, a, b + 1)
                    ==> b - a + 1 <= 2 * context
        }),
{
    let rs = runs_from(es, 0);
    lemma_runs_ok(es, 0);
    lemma_merge_ok(es, rs, context);
    let gs = merge_runs(rs, context);
    assert forall|k: int| 0 <= k < es.len() && !(#[trigger] es[k] is Equal) implies exists|j: int|
        0 <= j < gs.len() && (#[trigger] gs[j]).0 <= k < gs[j].1 by {
        let q = choose|q: int| 0 <= q < rs.len() && (#[trigger] rs[q]).0 <= k < rs[q].1;
        let j = choose|j: int| 0 <= j < gs.len() && (#[trigger] gs[j]).0 <= (#[trigger] rs[q]).0 && rs[q].1 <= gs[j].1;
    }
}

// ---------------------------------------------------------------------------
// Unified output
// ---------------------------------------------------------------------------

/// How a line of output is colored.
pub enum Paint {
    Plain,
    Bold,
    Cyan,
    Red,
    Green,
}

/// The terminal escape sequence that starts a style.
pub open spec fn esc_code(p: Paint) -> Seq<char> {
    match p {
        Paint::Plain => Seq::empty(),
        Paint::Bold => seq!['\x1b', '[', '1', 'm'],
        Paint::Cyan => seq!['\x1b', '[', '3', '6', 'm'],
        Paint::Red => seq!['\x1b', '[', '3', '1', 'm'],
        Paint::Green => seq!['\x1b', '[', '3', '2', 'm'],
    }
}

/// The escape sequence that ends a style.
pub open spec fn esc_reset() -> Seq<char> {
    seq!['\x1b', '[', '0', 'm']
}

/// What the `colored` crate prints for `text` in a style: the text alone
/// when coloring is off, else the text between the style's code and the
/// reset code (a reset inside the text gets the style's code repeated after
/// it, so such a text is only known to be framed by the two codes).
pub open spec fn painted(out: Seq<char>, text: Seq<char>, code: Seq<char>) -> bool {
    ||| out == text
    ||| if contains_seq(text, esc_reset()) {
        starts_with(out, code) && ends_with(out, esc_reset())
    } else {
        out == code + text + esc_reset()
    }
}

/// `Colorize::bold` from `colored`, displayed.
#[verifier::external_body]
fn colored_bold(text: &str) -> (out: String)
    ensures
        painted(out@, text@, esc_code(Paint::Bold)),
{
    text.bold().to_string()
}

/// `Colorize::cyan` from `colored`, displayed.
#[verifier::external_body]
fn colored_cyan(text: &str) -> (out: String)
    ensures
        painted(out@, text@, esc_code(Paint::Cyan)),
{
    text.cyan().to_string()
}

/// `Colorize::red` from `colored`, displayed.
#[verifier::external_body]
fn colored_red(text: &str) -> (out: String)
    ensures
        painted(out@, text@, esc_code(Paint::Red)),
{
    text.red().to_string()
}

/// `Colorize::green` from `colored`, displayed.
#[verifier::external_body]
fn colored_green(text: &str) -> (out: String)
    ensures
        painted(out@, text@, esc_code(Paint::Green)),
{
    text.green().to_string()
}

/// A line of output: its text and how it is colored.
pub type StyledLine = (Seq<char>, Paint);

/// Decimal digits of a number, as text.
pub open spec fn dec_chars(n: int) -> Seq<char> {
    decimal(n as nat).map_values(|b: u8| b as char)
}

/// `@@ -<old_start>,<old_count> +<new_start>,<new_count> @@`
pub open spec fn hunk_header(h: HunkModel) -> Seq<char> {
    seq!['@', '@', ' ', '-'] + dec_chars(h.old_start) + seq![','] + dec_chars(h.old_count) + seq![' ', '+']
        + dec_chars(h.new_start) + seq![','] + dec_chars(h.new_count) + seq![' ', '@', '@']
}

/// The output line of one edit: ` `, `-` or `+` before its text.
pub open spec fn edit_line(e: EditModel) -> StyledLine {
    match e {
        EditModel::Equal(s) => (seq![' '] + s, Paint::Plain),
        EditModel::Delete(s) => (seq!['-'] + s, Paint::Red),
        EditModel::Insert(s) => (seq!['+'] + s, Paint::Green),
    }
}

/// The output lines of a hunk: its header, then its edits.
pub open spec fn hunk_lines(h: HunkModel) -> Seq<StyledLine> {
    seq![(hunk_header(h), Paint::Cyan)] + h.lines.map_values(|e: EditModel| edit_line(e))
}

/// The output lines of a list of hunks.
pub open spec fn all_hunk_lines(hs: Seq<HunkModel>) -> Seq<StyledLine>
    decreases hs.len(),
{
    if hs.len() == 0 {
        Seq::empty()
    } else {
        all_hunk_lines(hs.drop_last()) + hunk_lines(hs.last())
    }
}

/// The lines of a unified diff: nothing when there are no hunks, else the
/// `--- a/` and `+++ b/` headers and the hunks.
pub open spec fn unified_lines(old_name: Seq<char>, new_name: Seq<char>, hs: Seq<HunkModel>) -> Seq<StyledLine> {
    if hs.len() == 0 {
        Seq::empty()
    } else {
        seq![
            (seq!['-', '-', '-', ' ', 'a', '/'] + old_name, Paint::Bold),
            (seq!['+', '+', '+', ' ', 'b', '/'] + new_name, Paint::Bold),
        ] + all_hunk_lines(hs)
    }
}

/// `true` when `piece` is how a line may be printed.
pub open spec fn piece_ok(piece: Seq<char>, line: StyledLine, colored: bool) -> bool {
    if !colored || line.1 is Plain {
        piece == line.0
    } else {
        painted(piece, line.0, esc_code(line.1))
    }
}

/// The pieces, each followed by a newline.
pub open spec fn joined(ps: Seq<Seq<char>>) -> Seq<char>
    decreases ps.len(),
{
    if ps.len() == 0 {
        Seq::empty()
    } else {
        joined(ps.drop_last()) + ps.last() + seq!['\n']
    }
}

/// The text of lines printed without color.
pub open spec fn plain_text(ls: Seq<StyledLine>) -> Seq<char> {
    joined(ls.map_values(|l: StyledLine| l.0))
}

/// `true` when `out` prints the lines, each in a way its style allows.
pub open spec fn renders(out: Seq<char>, ls: Seq<StyledLine>, colored: bool) -> bool {
    exists|ps: Seq<Seq<char>>|
        ps.len() == ls.len() && (forall|i: int| 0 <= i < ls.len() ==> #[trigger] piece_ok(ps[i], ls[i], colored))
            && out == joined(ps)
}

/// Appends a line, colored when asked; gives back the piece printed.
fn push_line(out: &mut String, text: String, how: Paint, colored: bool) -> (piece: Ghost<Seq<char>>)
    ensures
        final(out)@ == old(out)@ + piece@ + seq!['\n'],
        piece_ok(piece@, (text@, how), colored),
{
    let p = if !colored {
        text
    } else {
        match how {
            Paint::Plain => text,
            Paint::Bold => colored_bold(text.as_str()),
            Paint::Cyan => colored_cyan(text.as_str()),
            Paint::Red => colored_red(text.as_str()),
            Paint::Green => colored_green(text.as_str()),
        }
    };
    let ghost piece = p@;
    out.append(p.as_str());
    string_push(out, '\n');
    Ghost(piece)
}

/// Appends the decimal digits of `n`.
pub(crate) fn push_decimal(s: &mut String, n: usize)
    ensures
        final(s)@ == old(s)@ + dec_chars(n as int),
{
    let digits = usize_to_decimal(n);
    let mut i: usize = 0;
    while i < digits.len()
        invariant
            i <= digits@.len(),
            digits@ == decimal(n as nat),
            s@ == old(s)@ + digits@.take(i as int).map_values(|b: u8| b as char),
        decreases digits@.len() - i,
    {
        string_push(s, digits[i] as char);
        i = i + 1;
        assert(digits@.take(i as int).map_values(|b: u8| b as char) == digits@.take(i - 1).map_values(
            |b: u8| b as char,
        ).push(digits@[i - 1] as char));
    }
    assert(digits@.take(digits@.len() as int) == digits@);
}

/// The header line of a hunk.
fn header_text(h: &Hunk) -> (out: String)
    ensures
        out@ == hunk_header(h@),
{
    let mut s = String::from_str("@@ -");
    push_decimal(&mut s, h.old_start);
    string_push(&mut s, ',');
    push_decimal(&mut s, h.old_count);
    string_push(&mut s, ' ');
    string_push(&mut s, '+');
    push_decimal(&mut s, h.new_start);
    string_push(&mut s, ',');
    push_decimal(&mut s, h.new_count);
    s.append(" @@");
    proof {
        reveal_strlit("@@ -");
        reveal_strlit(" @@");
    }
    s
}

/// The output line of an edit.
fn edit_text(e: &Edit) -> (out: (String, Paint))
    ensures
        (out.0@, out.1) == edit_line(e@),
{
    match e {
        Edit::Equal(t) => {
            let mut s = String::new();
            string_push(&mut s, ' ');
            s.append(t.as_str());
            (s, Paint::Plain)
        },
        Edit::Delete(t) => {
            let mut s = String::new();
            string_push(&mut s, '-');
            s.append(t.as_str());
            (s, Paint::Red)
        },
        Edit::Insert(t) => {
            let mut s = String::new();
            string_push(&mut s, '+');
            s.append(t.as_str());
            (s, Paint::Green)
        },
    }
}

/// A string made of a literal followed by a string slice.
fn text_after(prefix: &str, rest: &str) -> (out: String)
    ensures
        out@ == prefix@ + rest@,
{
    let mut s = String::from_str(prefix);
    s.append(rest);
    s
}

/// Appending one more printed line keeps the output rendering the lines so far.
proof fn lemma_renders_push(
    ps: Seq<Seq<char>>,
    ls: Seq<StyledLine>,
    p: Seq<char>,
    l: StyledLine,
    colored: bool,
)
    requires
        ps.len() == ls.len(),
        forall|i: int| 0 <= i < ls.len() ==> #[trigger] piece_ok(ps[i], ls[i], colored),
        piece_ok(p, l, colored),
    ensures
        forall|i: int| 0 <= i < ls.len() + 1 ==> #[trigger] piece_ok(ps.push(p)[i], ls.push(l)[i], colored),
        joined(ps.push(p)) == joined(ps) + p + seq!['\n'],
{
    assert(ps.push(p).drop_last() == ps);
    assert forall|i: int| 0 <= i < ls.len() + 1 implies #[trigger] piece_ok(ps.push(p)[i], ls.push(l)[i], colored) by {
        if i < ls.len() {
            assert(piece_ok(ps[i], ls[i], colored));
        }
    }
}

/// Printed without color, each line's piece is its text.
proof fn lemma_plain_pieces(ps: Seq<Seq<char>>, ls: Seq<StyledLine>)
    requires
        ps.len() == ls.len(),
        forall|i: int| 0 <= i < ls.len() ==> #[trigger] piece_ok(ps[i], ls[i], false),
    ensures
        joined(ps) == plain_text(ls),
{
    assert(ps =~= ls.map_values(|l: StyledLine| l.0)) by {
        assert forall|i: int| 0 <= i < ls.len() implies ps[i] == ls.map_values(|l: StyledLine| l.0)[i] by {
            assert(piece_ok(ps[i], ls[i], false));
        }
    }
}

/// The diff in unified format: `--- a/<old>` and `+++ b/<new>`, then each
/// hunk (three lines of context) under its `@@` header, with ` `, `-` or `+`
/// before each line. Headers are bold, hunk headers cyan, deletions red and
/// insertions green when `colored` is set. Empty when nothing changed.
pub fn format_unified(old_name: &str, new_name: &str, edits: &[Edit], colored: bool) -> (out: String)
    requires
        edits@.len() + 6 < usize::MAX,
    ensures
        renders(out@, unified_lines(old_name@, new_name@, hunks_of(edit_models(edits@), 3)), colored),
        !colored ==> out@ == plain_text(unified_lines(old_name@, new_name@, hunks_of(edit_models(edits@), 3))),
{
    let hunks = make_hunks(edits, 3);
    let ghost hs = hunk_models(hunks@);
    let ghost all = unified_lines(old_name@, new_name@, hs);
    if hunks.len() == 0 {
        let empty = String::new();
        proof {
            assert(joined(Seq::<Seq<char>>::empty()) == Seq::<char>::empty());
            assert(all == Seq::<StyledLine>::empty());
            let ps = Seq::<Seq<char>>::empty();
            assert(ps.len() == all.len() && (forall|i: int| 0 <= i < all.len() ==> #[trigger] piece_ok(ps[i], all[i], colored)) && empty@ == joined(ps));
            lemma_plain_pieces(ps, all);
        }
        return empty;
    }
    let mut out = String::new();
    let ghost mut ps: Seq<Seq<char>> = Seq::empty();
    let ghost mut ls: Seq<StyledLine> = Seq::empty();
    proof {
        reveal_strlit("--- a/");
        reveal_strlit("+++ b/");
    }
    let a = text_after("--- a/", old_name);
    let Ghost(p) = push_line(&mut out, a, Paint::Bold, colored);
    proof {
        lemma_renders_push(ps, ls, p, (a@, Paint::Bold), colored);
        ps = ps.push(p);
        ls = ls.push((a@, Paint::Bold));
    }
    let b = text_after("+++ b/", new_name);
    let Ghost(p) = push_line(&mut out, b, Paint::Bold, colored);
    proof {
        lemma_renders_push(ps, ls, p, (b@, Paint::Bold), colored);
        ps = ps.push(p);
        ls = ls.push((b@, Paint::Bold));
        assert("--- a/"@ == seq!['-', '-', '-', ' ', 'a', '/']);
        assert("+++ b/"@ == seq!['+', '+', '+', ' ', 'b', '/']);
        assert(ls == seq![
            (seq!['-', '-', '-', ' ', 'a', '/'] + old_name@, Paint::Bold),
            (seq!['+', '+', '+', ' ', 'b', '/'] + new_name@, Paint::Bold),
        ]);
        assert(hs.take(0) == Seq::<HunkModel>::empty());
        assert(ls == ls.take(2) + all_hunk_lines(hs.take(0)));
    }
    let ghost head = ls;
    let mut h: usize = 0;
    while h < hunks.len()
        invariant
            hs == hunk_models(hunks@),
            h <= hunks@.len(),
            ps.len() == ls.len(),
            forall|i: int| 0 <= i < ls.len() ==> #[trigger] piece_ok(ps[i], ls[i], colored),
            out@ == joined(ps),
            ls == head + all_hunk_lines(hs.take(h as int)),
        decreases hunks@.len() - h,
    {
        let hunk = &hunks[h];
        assert(hunk@ == hs[h as int]);
        let ghost before = ls;
        let t = header_text(hunk);
        let Ghost(p) = push_line(&mut out, t, Paint::Cyan, colored);
        proof {
            lemma_renders_push(ps, ls, p, (t@, Paint::Cyan), colored);
            ps = ps.push(p);
            ls = ls.push((t@, Paint::Cyan));
        }
        let mut k: usize = 0;
        while k < hunk.lines.len()
            invariant
                hunk@ == hs[h as int],
                k <= hunk.lines@.len(),
                ps.len() == ls.len(),
                forall|i: int| 0 <= i < ls.len() ==> #[trigger] piece_ok(ps[i], ls[i], colored),
                out@ == joined(ps),
                ls == before + seq![(hunk_header(hunk@), Paint::Cyan)] + hunk@.lines.take(k as int).map_values(
                    |e: EditModel| edit_line(e),
                ),
            decreases hunk.lines@.len() - k,
        {
            let (t, how) = edit_text(&hunk.lines[k]);
            let ghost line = (t@, how);
            assert(line == edit_line(hunk@.lines[k as int]));
            let Ghost(p) = push_line(&mut out, t, how, colored);
            proof {
                lemma_renders_push(ps, ls, p, line, colored);
                ps = ps.push(p);
                ls = ls.push(line);
                assert(hunk@.lines.take(k + 1).map_values(|e: EditModel| edit_line(e)) == hunk@.lines.take(
                    k as int,
                ).map_values(|e: EditModel| edit_line(e)).push(line));
            }
            k = k + 1;
        }
        proof {
            assert(hunk@.lines.take(k as int) == hunk@.lines);
            assert(hs.take(h + 1).drop_last() == hs.take(h as int));
            assert(hs.take(h + 1).last() == hs[h as int]);
            assert(all_hunk_lines(hs.take(h + 1)) == all_hunk_lines(hs.take(h as int)) + hunk_lines(hs[h as int]));
        }
        h = h + 1;
    }
    proof {
        assert(hs.take(h as int) == hs);
        assert(ls == all);
        assert(ps.len() == all.len() && (forall|i: int| 0 <= i < all.len() ==> #[trigger] piece_ok(ps[i], all[i], colored)) && out@ == joined(ps));
        if !colored {
            lemma_plain_pieces(ps, all);
        }
    }
    out
}

/// `true` when a zero byte occurs among the first 8192 bytes.
pub fn is_binary(data: &[u8]) -> (out: bool)
    ensures
        out == data@.take(if data@.len() < 8192 { data@.len() as int } else { 8192 }).contains(0u8),
{
    let check_len = if data.len() < 8192 {
        data.len()
    } else {
        8192
    };
    let ghost head = data@.take(check_len as int);
    let mut i: usize = 0;
    while i < check_len
        invariant
            check_len == (if data@.len() < 8192 { data@.len() as int } else { 8192 }),
            head == data@.take(check_len as int),
            i <= check_len,
            forall|k: int| 0 <= k < i ==> data@[k] != 0u8,
        decreases check_len - i,
    {
        if data[i] == 0u8 {
            assert(head[i as int] == data@[i as int]);
            assert(head.contains(0u8));
            return true;
        }
        i = i + 1;
    }
    assert(!head.contains(0u8)) by {
        if head.contains(0u8) {
            let k = choose|k: int| 0 <= k < head.len() && head[k] == 0u8;
            assert(data@[k] == 0u8);
        }
    }
    false
}

// ---------------------------------------------------------------------------
// The diff of one file
// ---------------------------------------------------------------------------

/// The text of an optional string, nothing for `None`.
pub open spec fn opt_text(x: Option<&str>) -> Seq<char> {
    match x {
        Some(s) => s@,
        None => Seq::empty(),
    }
}

/// `true` when the bytes of the text look binary: a zero byte among the
/// first 8192.
pub open spec fn binary_text(t: Seq<char>) -> bool {
    let b = utf8(t);
    b.take(if b.len() < 8192 { b.len() as int } else { 8192 }).contains(0u8)
}

/// The line printed for a binary file.
pub open spec fn binary_notice(path: Seq<char>) -> Seq<char> {
    "Binary files a/"@ + path + " and b/"@ + path + " differ\n"@
}

/// The views of a list of strings.
pub open spec fn line_views(v: Seq<String>) -> Seq<Seq<char>> {
    v.map_values(|s: String| s@)
}

/// The lines of a text, as `str::lines` yields them.
fn lines_of(text: &str) -> (out: Vec<String>)
    ensures
        line_views(out@) == lines_from(text@, 0),
        out@.len() <= text@.len(),
{
    let cs = chars_of(text);
    let mut out: Vec<String> = Vec::new();
    let mut pos: usize = 0;
    while pos < cs.len()
        invariant
            cs@ == text@,
            pos <= cs@.len(),
            out@.len() <= pos,
            line_views(out@) + lines_from(cs@, pos as int) == lines_from(cs@, 0),
        decreases cs@.len() - pos,
    {
        let (end, next) = next_line(cs.as_slice(), pos);
        let ghost before = line_views(out@);
        out.push(string_from_chars(cs.as_slice(), pos, end));
        proof {
            assert(line_views(out@) == before.push(cs@.subrange(pos as int, end as int)));
            assert(before + lines_from(cs@, pos as int) == before.push(cs@.subrange(pos as int, end as int))
                + lines_from(cs@, next as int));
        }
        pos = next;
    }
    assert(lines_from(cs@, pos as int) == Seq::<Seq<char>>::empty());
    assert(line_views(out@) + Seq::<Seq<char>>::empty() == line_views(out@));
    out
}

/// Borrowed slices of a list of strings.
fn str_refs(v: &Vec<String>) -> (out: Vec<&str>)
    ensures
        texts(out@) == line_views(v@),
{
    let mut out: Vec<&str> = Vec::new();
    let mut i: usize = 0;
    while i < v.len()
        invariant
            i <= v@.len(),
            texts(out@) == line_views(v@).take(i as int),
        decreases v@.len() - i,
    {
        let r = v[i].as_str();
        let ghost prev = texts(out@);
        out.push(r);
        assert(texts(out@) == prev.push(r@));
        assert(line_views(v@).take(i + 1) == line_views(v@).take(i as int).push(v@[i as int]@));
        i = i + 1;
    }
    assert(line_views(v@).take(v@.len() as int) == line_views(v@));
    out
}

/// The script that `myers_diff` gives between two lists of lines: a
/// shortest one while they hold at most `MAX_EDIT_DISTANCE` lines together,
/// else the plain script.
pub open spec fn shortest_within_limit(es: Seq<EditModel>, a: Seq<Seq<char>>, b: Seq<Seq<char>>) -> bool {
    &&& a.len() + b.len() <= MAX_EDIT_DISTANCE ==> forall|other: Seq<EditModel>|
        old_lines(other) == a && new_lines(other) == b ==> changes(es) <= #[trigger] changes(other)
    &&& a.len() + b.len() > MAX_EDIT_DISTANCE ==> es == plain_script(a, b)
}

/// What `diff` shows for one file, given its old and new text (`None` for
/// a side where the file is missing or not text): a notice for binary
/// content, else the unified diff of their lines.
pub fn file_diff(path: &str, old: Option<&str>, new: Option<&str>, colored: bool) -> (out: String)
    requires
        opt_text(old).len() + opt_text(new).len() + 7 < usize::MAX,
    ensures
        binary_text(opt_text(old)) || binary_text(opt_text(new)) ==> out@ == binary_notice(path@),
        !(binary_text(opt_text(old)) || binary_text(opt_text(new))) ==> exists|es: Seq<EditModel>|
            old_lines(es) == lines_from(opt_text(old), 0) && new_lines(es) == lines_from(opt_text(new), 0)
                && shortest_within_limit(es, lines_from(opt_text(old), 0), lines_from(opt_text(new), 0))
                && #[trigger] renders(out@, unified_lines(path@, path@, hunks_of(es, 3)), colored),
{
    let old_text: &str = match old {
        Some(t) => t,
        None => "",
    };
    let new_text: &str = match new {
        Some(t) => t,
        None => "",
    };
    proof {
        reveal_strlit("");
    }
    assert(old_text@ == opt_text(old));
    assert(new_text@ == opt_text(new));
    if is_binary(old_text.as_bytes()) || is_binary(new_text.as_bytes()) {
        let mut s = String::from_str("Binary files a/");
        s.append(path);
        s.append(" and b/");
        s.append(path);
        s.append(" differ\n");
        return s;
    }
    let old_lines_v = lines_of(old_text);
    let new_lines_v = lines_of(new_text);
    let old_refs = str_refs(&old_lines_v);
    let new_refs = str_refs(&new_lines_v);
    let edits = myers_diff(old_refs.as_slice(), new_refs.as_slice());
    assert(shortest_within_limit(edit_models(edits@), texts(old_refs@), texts(new_refs@)));
    let out = format_unified(path, path, edits.as_slice(), colored);
    assert(renders(out@, unified_lines(path@, path@, hunks_of(edit_models(edits@), 3)), colored));
    out
}

/// The bytes of a file side, empty when the file is missing.
pub open spec fn opt_bytes(x: Option<&[u8]>) -> Seq<u8> {
    match x {
        Some(b) => b@,
        None => Seq::empty(),
    }
}

/// `true` when bytes look binary: a zero byte among the first 8192.
pub open spec fn binary_bytes(b: Seq<u8>) -> bool {
    b.take(if b.len() < 8192 { b.len() as int } else { 8192 }).contains(0u8)
}

/// The text of a file side that is compared line by line: its characters
/// when it is UTF-8, else nothing (as for a missing file).
pub open spec fn side_text(x: Option<&[u8]>) -> Seq<char> {
    match x {
        Some(b) => if valid_utf8(b@) {
            decode_utf8(b@)
        } else {
            Seq::empty()
        },
        None => Seq::empty(),
    }
}

/// What `diff` shows for one file given the bytes of each side (`None` for
/// a missing file): a notice when either side holds a zero byte among its
/// first 8192, else the unified diff of the lines of the two texts, a side
/// that is not UTF-8 read as empty.
pub fn file_diff_bytes(path: &str, old: Option<&[u8]>, new: Option<&[u8]>, colored: bool) -> (out: String)
    requires
        opt_bytes(old).len() + opt_bytes(new).len() + 7 < usize::MAX,
    ensures
        binary_bytes(opt_bytes(old)) || binary_bytes(opt_bytes(new)) ==> out@ == binary_notice(path@),
        !(binary_bytes(opt_bytes(old)) || binary_bytes(opt_bytes(new))) ==> exists|es: Seq<EditModel>|
            old_lines(es) == lines_from(side_text(old), 0) && new_lines(es) == lines_from(side_text(new), 0)
                && shortest_within_limit(es, lines_from(side_text(old), 0), lines_from(side_text(new), 0))
                && #[trigger] renders(out@, unified_lines(path@, path@, hunks_of(es, 3)), colored),
{
    let empty: &[u8] = &[];
    let ob: &[u8] = match old {
        Some(b) => b,
        None => empty,
    };
    let nb: &[u8] = match new {
        Some(b) => b,
        None => empty,
    };
    assert(ob@ == opt_bytes(old));
    assert(nb@ == opt_bytes(new));
    if is_binary(ob) || is_binary(nb) {
        let mut s = String::from_str("Binary files a/");
        s.append(path);
        s.append(" and b/");
        s.append(path);
        s.append(" differ\n");
        return s;
    }
    let os = side_string(old);
    let ns = side_string(new);
    let ot: Option<&str> = match &os {
        Some(t) => Some(t.as_str()),
        None => None,
    };
    let nt: Option<&str> = match &ns {
        Some(t) => Some(t.as_str()),
        None => None,
    };
    proof {
        assert(opt_text(ot) == side_text(old));
        assert(opt_text(nt) == side_text(new));
        if let Some(b) = old {
            if valid_utf8(b@) {
                vstd::utf8::decode_utf8_encode_utf8(b@);
            }
        }
        if let Some(b) = new {
            if valid_utf8(b@) {
                vstd::utf8::decode_utf8_encode_utf8(b@);
            }
        }
        assert(utf8(Seq::<char>::empty()) =~= Seq::<u8>::empty());
        assert(!binary_text(opt_text(ot)));
        assert(!binary_text(opt_text(nt)));
        assert(utf8(opt_text(ot)).len() <= ob@.len());
        assert(utf8(opt_text(nt)).len() <= nb@.len());
        lemma_utf8_len(opt_text(ot));
        lemma_utf8_len(opt_text(nt));
    }
    file_diff(path, ot, nt, colored)
}

/// A text has at least as many bytes as characters.
proof fn lemma_utf8_len(c: Seq<char>)
    ensures
        utf8(c).len() >= c.len(),
    decreases c.len(),
{
    if c.len() > 0 {
        lemma_utf8_len(c.drop_first());
    }
}

/// The text of a file side that is UTF-8.
fn side_string(x: Option<&[u8]>) -> (out: Option<String>)
    ensures
        match out {
            Some(t) => x is Some && valid_utf8(x->0@) && t@ == decode_utf8(x->0@),
            None => x is None || !valid_utf8(x->0@),
        },
{
    match x {
        Some(b) => {
            let v = copy_bytes(b, 0, b.len());
            assert(b@.subrange(0, b@.len() as int) == b@);
            string_from_utf8(v)
        },
        None => None,
    }
}

} // verus!
