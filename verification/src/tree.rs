//! Trees from the index: one level at a time, the files that sit directly
//! in a directory and the subdirectories with the entries under them, and
//! the sorted tree object of a level.

use vstd::prelude::*;
use crate::index::{Index, IndexEntry, IndexEntryModel, path_lt};
use crate::object::{Object, ObjectModel, TreeEntry, TreeEntryModel, entry_views};
use crate::text::{bytes_of, utf8, bytes_lt, bytes_less, bytes_eq, chars_of, find_char, find_from, lemma_find_from, str_eq, string_from_chars, string_push, lemma_bytes_lt_trans, lemma_bytes_lt_total, lemma_utf8_injective, lemma_bytes_lt_asym};

verus! {

broadcast use vstd::seq::group_seq_axioms;

// ---------------------------------------------------------------------------
// Modes as text
// ---------------------------------------------------------------------------

/// Octal digits of a number, most significant first, without leading zeros.
pub open spec fn octal_text(v: nat) -> Seq<char>
    decreases v,
{
    if v < 8 {
        seq![(48 + v) as char]
    } else {
        octal_text(v / 8).push((48 + v % 8) as char)
    }
}

/// The octal text of a mode, as `format!("{:o}")` writes it.
pub fn mode_text(mode: u32) -> (out: String)
    ensures
        out@ == octal_text(mode as nat),
    decreases mode,
{
    if mode < 8 {
        let mut s = String::new();
        string_push(&mut s, ((48 + mode) as u8) as char);
        s
    } else {
        let mut s = mode_text(mode / 8);
        string_push(&mut s, ((48 + mode % 8) as u8) as char);
        s
    }
}

// ---------------------------------------------------------------------------
// One level of the index
// ---------------------------------------------------------------------------

/// The directory an index path starts with, if it has a `/`.
pub open spec fn top_dir(p: Seq<char>) -> Option<Seq<char>> {
    match find_from(p, '/', 0) {
        Some(j) => Some(p.take(j)),
        None => None,
    }
}

/// The path below the top directory.
pub open spec fn below_top(p: Seq<char>) -> Seq<char> {
    match find_from(p, '/', 0) {
        Some(j) => p.skip(j + 1),
        None => p,
    }
}

/// The tree entries of the files that sit at this level, in index order.
pub open spec fn level_files(es: Seq<IndexEntryModel>) -> Seq<TreeEntryModel>
    decreases es.len(),
{
    if es.len() == 0 {
        Seq::empty()
    } else {
        let r = level_files(es.drop_last());
        let e = es.last();
        if top_dir(e.path) is None {
            r.push(TreeEntryModel { mode: octal_text(e.mode as nat), name: e.path, sha: e.sha })
        } else {
            r
        }
    }
}

/// The entries under directory `d`, with `d/` taken off their paths, in
/// index order.
pub open spec fn entries_under(es: Seq<IndexEntryModel>, d: Seq<char>) -> Seq<IndexEntryModel>
    decreases es.len(),
{
    if es.len() == 0 {
        Seq::empty()
    } else {
        let r = entries_under(es.drop_last(), d);
        let e = es.last();
        if top_dir(e.path) == Some(d) {
            r.push(IndexEntryModel { mode: e.mode, sha: e.sha, path: below_top(e.path) })
        } else {
            r
        }
    }
}

/// The directories at this level.
pub open spec fn level_dirs(es: Seq<IndexEntryModel>) -> Set<Seq<char>> {
    Set::new(|d: Seq<char>| exists|i: int| 0 <= i < es.len() && #[trigger] top_dir(es[i].path) == Some(d))
}

/// No entry under a directory that no path starts with.
proof fn lemma_entries_under_empty(es: Seq<IndexEntryModel>, d: Seq<char>)
    requires
        !level_dirs(es).contains(d),
    ensures
        entries_under(es, d) == Seq::<IndexEntryModel>::empty(),
    decreases es.len(),
{
    if es.len() > 0 {
        assert(!level_dirs(es.drop_last()).contains(d)) by {
            if level_dirs(es.drop_last()).contains(d) {
                let i = choose|i: int| 0 <= i < es.drop_last().len() && #[trigger] top_dir(es.drop_last()[i].path) == Some(d);
                assert(top_dir(es[i].path) == Some(d));
            }
        }
        lemma_entries_under_empty(es.drop_last(), d);
        assert(top_dir(es.last().path) != Some(d)) by {
            if top_dir(es.last().path) == Some(d) {
                assert(top_dir(es[es.len() - 1].path) == Some(d));
            }
        }
    }
}

/// Strictly increasing in byte order.
pub open spec fn names_sorted(ns: Seq<Seq<char>>) -> bool {
    forall|i: int, j: int| 0 <= i < j < ns.len() ==> path_lt(#[trigger] ns[i], #[trigger] ns[j])
}

/// Inserting a new name at its place keeps the names sorted.
proof fn lemma_insert_name(old: Seq<Seq<char>>, k: int, d: Seq<char>)
    requires
        names_sorted(old),
        0 <= k <= old.len(),
        forall|m: int| 0 <= m < k ==> path_lt(#[trigger] old[m], d),
        k < old.len() ==> !bytes_lt(utf8(old[k]), utf8(d)),
        !old.to_set().contains(d),
    ensures
        names_sorted(old.insert(k, d)),
        old.insert(k, d).to_set() == old.to_set().insert(d),
{
    assert forall|m: int| k <= m < old.len() implies path_lt(d, #[trigger] old[m]) by {
        assert(old[k] != d) by {
            if old[k] == d {
                assert(old.to_set().contains(d));
            }
        }
        if utf8(old[k]) == utf8(d) {
            lemma_utf8_injective(old[k], d);
        }
        lemma_bytes_lt_total(utf8(old[k]), utf8(d));
        if m > k {
            assert(path_lt(old[k], old[m]));
            lemma_bytes_lt_trans(utf8(d), utf8(old[k]), utf8(old[m]));
        }
    }
    let names = old.insert(k, d);
    assert forall|a: int, b: int| 0 <= a < b < names.len() implies path_lt(#[trigger] names[a], #[trigger] names[b]) by {
        if b < k {
            assert(path_lt(old[a], old[b]));
        } else if b == k {
            assert(path_lt(old[a], d));
        } else if a < k {
            assert(path_lt(old[a], d));
            assert(path_lt(d, old[b - 1]));
            lemma_bytes_lt_trans(utf8(old[a]), utf8(d), utf8(old[b - 1]));
        } else if a == k {
            assert(path_lt(d, old[b - 1]));
        } else {
            assert(path_lt(old[a - 1], old[b - 1]));
        }
    }
    assert(names.to_set() =~= old.to_set().insert(d)) by {
        assert forall|x: Seq<char>| names.to_set().contains(x) <==> old.to_set().insert(d).contains(x) by {
            if names.to_set().contains(x) {
                let m = choose|m: int| 0 <= m < names.len() && names[m] == x;
                if m < k {
                    assert(old[m] == x);
                } else if m > k {
                    assert(old[m - 1] == x);
                }
            }
            if old.to_set().contains(x) {
                let m = choose|m: int| 0 <= m < old.len() && old[m] == x;
                if m < k {
                    assert(names[m] == x);
                } else {
                    assert(names[m + 1] == x);
                }
            }
            if x == d {
                assert(names[k] == x);
            }
        }
    }
}

/// The directories after one more entry.
proof fn lemma_level_step(pre: Seq<IndexEntryModel>, e: IndexEntryModel)
    ensures
        level_dirs(pre.push(e)) == match top_dir(e.path) {
            Some(d) => level_dirs(pre).insert(d),
            None => level_dirs(pre),
        },
{
    let post = pre.push(e);
    let target = match top_dir(e.path) {
        Some(d) => level_dirs(pre).insert(d),
        None => level_dirs(pre),
    };
    assert(level_dirs(post) =~= target) by {
        assert forall|x: Seq<char>| level_dirs(post).contains(x) implies target.contains(x) by {
            let j = choose|j: int| 0 <= j < post.len() && #[trigger] top_dir(post[j].path) == Some(x);
            if j < pre.len() {
                assert(top_dir(pre[j].path) == Some(x));
            }
        }
        assert forall|x: Seq<char>| target.contains(x) implies level_dirs(post).contains(x) by {
            if top_dir(e.path) == Some(x) {
                assert(top_dir(post[pre.len() as int].path) == Some(x));
            } else {
                let j = choose|j: int| 0 <= j < pre.len() && #[trigger] top_dir(pre[j].path) == Some(x);
                assert(top_dir(post[j].path) == Some(x));
            }
        }
    }
}

/// The directory path of `p` split at its first `/`: (dir, rest) or `None`.
fn split_top(p: &str) -> (out: Option<(String, String)>)
    ensures
        match out {
            Some((d, r)) => top_dir(p@) == Some(d@) && below_top(p@) == r@,
            None => top_dir(p@) is None,
        },
{
    let cs = chars_of(p);
    proof {
        lemma_find_from(cs@, '/', 0);
    }
    let n = cs.len();
    match find_char(cs.as_slice(), '/', 0) {
        Some(j) => {
            let d = string_from_chars(cs.as_slice(), 0, j);
            let r = string_from_chars(cs.as_slice(), j + 1, n);
            assert(cs@.subrange(0, j as int) == cs@.take(j as int));
            assert(cs@.subrange(j + 1, cs@.len() as int) == cs@.skip(j + 1));
            Some((d, r))
        },
        None => None,
    }
}

/// The names of the groups of one level.
spec fn group_names(g: Seq<(String, Index)>) -> Seq<Seq<char>> {
    g.map_values(|x: (String, Index)| x.0@)
}

/// Splits one level of the index: the files directly at this level (as
/// tree entries, mode in octal), and each directory, in byte order, with
/// the entries under it (paths below the directory).
#[verifier::rlimit(40)]
pub fn split_level(index: &Index) -> (out: (Vec<TreeEntry>, Vec<(String, Index)>))
    ensures
        entry_views(out.0@) == level_files(index@),
        names_sorted(out.1@.map_values(|x: (String, Index)| x.0@)),
        out.1@.map_values(|x: (String, Index)| x.0@).to_set() == level_dirs(index@),
        forall|k: int| 0 <= k < out.1@.len() ==> (#[trigger] out.1@[k]).1@ == entries_under(index@, out.1@[k].0@),
{
    let ghost es = index@;
    let mut files: Vec<TreeEntry> = Vec::new();
    let mut groups: Vec<(String, Index)> = Vec::new();
    let mut i: usize = 0;
    assert(group_names(groups@).to_set() =~= level_dirs(es.take(0)));
    while i < index.entries.len()
        invariant
            es == index@,
            i <= es.len(),
            entry_views(files@) == level_files(es.take(i as int)),
            names_sorted(group_names(groups@)),
            group_names(groups@).to_set() == level_dirs(es.take(i as int)),
            forall|k: int| 0 <= k < groups@.len() ==> (#[trigger] groups@[k]).1@ == entries_under(es.take(i as int), groups@[k].0@),
        decreases es.len() - i,
    {
        let e = &index.entries[i];
        let ghost em = es[i as int];
        assert(e@ == em);
        let ghost pre = es.take(i as int);
        let ghost post = es.take(i + 1);
        assert(post == pre.push(em));
        assert(post.drop_last() == pre);
        assert(post.last() == em);
        proof {
            lemma_level_step(pre, em);
        }
        let ghost old_names = group_names(groups@);
        match split_top(e.path.as_str()) {
            None => {
                files.push(TreeEntry { mode: mode_text(e.mode), name: e.path.clone(), sha: e.sha.clone() });
                assert forall|k: int| 0 <= k < groups@.len() implies (#[trigger] groups@[k]).1@ == entries_under(post, groups@[k].0@) by {
                    assert(entries_under(post, groups@[k].0@) == entries_under(pre, groups@[k].0@));
                }
            },
            Some((d, rest)) => {
                let sub = IndexEntry { mode: e.mode, sha: e.sha.clone(), path: rest };
                let ghost dv = d@;
                assert(entries_under(post, dv) == entries_under(pre, dv).push(sub@));
                let mut k: usize = 0;
                while k < groups.len() && bytes_less(groups[k].0.as_str().as_bytes(), d.as_str().as_bytes())
                    invariant
                        dv == d@,
                        k <= groups@.len(),
                        old_names == group_names(groups@),
                        forall|m: int| 0 <= m < k ==> path_lt(#[trigger] old_names[m], dv),
                    decreases groups@.len() - k,
                {
                    assert(old_names[k as int] == groups@[k as int].0@);
                    k = k + 1;
                }
                assert(k < groups@.len() ==> !bytes_lt(utf8(old_names[k as int]), utf8(dv)));
                let found = k < groups.len() && str_eq(groups[k].0.as_str(), d.as_str());
                if found {
                    let ghost before = groups@;
                    groups[k].1.entries.push(sub);
                    proof {
                        assert(group_names(groups@) =~= old_names);
                        assert(old_names[k as int] == dv);
                        assert(old_names.to_set().insert(dv) =~= old_names.to_set());
                        assert forall|m: int| 0 <= m < groups@.len() implies (#[trigger] groups@[m]).1@ == entries_under(post, groups@[m].0@) by {
                            if m != k {
                                assert(groups@[m] == before[m]);
                                if old_names[m] == dv {
                                    crate::text::lemma_bytes_lt_asym(utf8(dv), utf8(dv));
                                    if m < k {
                                        assert(path_lt(old_names[m], old_names[k as int]));
                                    } else {
                                        assert(path_lt(old_names[k as int], old_names[m]));
                                    }
                                }
                            }
                        }
                    }
                } else {
                    let ghost before = groups@;
                    proof {
                        assert(!old_names.to_set().contains(dv)) by {
                            if old_names.to_set().contains(dv) {
                                let m = choose|m: int| 0 <= m < old_names.len() && old_names[m] == dv;
                                crate::text::lemma_bytes_lt_asym(utf8(dv), utf8(dv));
                                if m < k {
                                    assert(path_lt(old_names[m], dv));
                                } else if m > k {
                                    assert(path_lt(old_names[k as int], old_names[m]));
                                    lemma_bytes_lt_total(utf8(old_names[k as int]), utf8(dv));
                                    if utf8(old_names[k as int]) == utf8(dv) {
                                        lemma_utf8_injective(old_names[k as int], dv);
                                    }
                                    lemma_bytes_lt_trans(utf8(dv), utf8(old_names[k as int]), utf8(dv));
                                }
                            }
                        }
                        lemma_entries_under_empty(pre, dv);
                        lemma_insert_name(old_names, k as int, dv);
                    }
                    let mut v: Vec<IndexEntry> = Vec::new();
                    v.push(sub);
                    groups.insert(k, (d, Index { entries: v }));
                    proof {
                        assert(group_names(groups@) =~= old_names.insert(k as int, dv));
                        assert forall|m: int| 0 <= m < groups@.len() implies (#[trigger] groups@[m]).1@ == entries_under(post, groups@[m].0@) by {
                            if m < k {
                                assert(groups@[m] == before[m]);
                                assert(old_names[m] != dv);
                            } else if m > k {
                                assert(groups@[m] == before[m - 1]);
                                assert(old_names[m - 1] != dv) by {
                                    if old_names[m - 1] == dv {
                                        assert(old_names.to_set().contains(dv));
                                    }
                                }
                            } else {
                                assert(groups@[m].1@ =~= seq![sub@]);
                            }
                        }
                    }
                }
            },
        }
        i = i + 1;
    }
    assert(es.take(es.len() as int) == es);
    (files, groups)
}

// ---------------------------------------------------------------------------
// A level as a tree object
// ---------------------------------------------------------------------------

/// `true` when a tree entry is a subtree.
pub open spec fn is_subtree(e: TreeEntryModel) -> bool {
    e.mode == seq!['4', '0', '0', '0', '0']
}

/// What tree entries are ordered by: the bytes of the name, with `/`
/// appended for a subtree (Git's order).
pub open spec fn sort_key(e: TreeEntryModel) -> Seq<u8> {
    utf8(e.name) + if is_subtree(e) {
        seq![47u8]
    } else {
        Seq::<u8>::empty()
    }
}

/// The order of tree entries: by their sort keys in byte order.
pub open spec fn entry_lt(a: TreeEntryModel, b: TreeEntryModel) -> bool {
    bytes_lt(sort_key(a), sort_key(b))
}

/// Where a stable insertion puts `x` into `t`: after every entry that does
/// not sort after it.
pub open spec fn insert_at(t: Seq<TreeEntryModel>, x: TreeEntryModel) -> int
    decreases t.len(),
{
    if t.len() == 0 {
        0
    } else if entry_lt(x, t.last()) {
        insert_at(t.drop_last(), x)
    } else {
        t.len() as int
    }
}

/// The entries in a stable sort by `entry_lt`.
pub open spec fn sorted_entries(s: Seq<TreeEntryModel>) -> Seq<TreeEntryModel>
    decreases s.len(),
{
    if s.len() == 0 {
        Seq::empty()
    } else {
        let t = sorted_entries(s.drop_last());
        t.insert(insert_at(t, s.last()), s.last())
    }
}

/// The tree entry of an index entry that lies at this level.
pub open spec fn file_model(e: IndexEntryModel) -> TreeEntryModel {
    TreeEntryModel { mode: octal_text(e.mode as nat), name: e.path, sha: e.sha }
}

/// An index entry seen from inside its top directory.
pub open spec fn under_model(e: IndexEntryModel) -> IndexEntryModel {
    IndexEntryModel { mode: e.mode, sha: e.sha, path: below_top(e.path) }
}

/// Splitting a level loses and invents nothing: each index entry is a file
/// of the level or lies, seen from inside, under its top directory; and
/// each file and each entry under a directory comes from an index entry.
pub proof fn law_split_keeps_entries(es: Seq<IndexEntryModel>)
    ensures
        forall|i: int| 0 <= i < es.len() && top_dir(es[i].path) is None ==> level_files(es).contains(file_model(#[trigger] es[i])),
        forall|i: int| 0 <= i < es.len() && top_dir(es[i].path) is Some ==> level_dirs(es).contains(top_dir(es[i].path)->0)
            && entries_under(es, top_dir(es[i].path)->0).contains(under_model(#[trigger] es[i])),
        forall|t: TreeEntryModel| #[trigger] level_files(es).contains(t) ==> exists|i: int|
            0 <= i < es.len() && top_dir(es[i].path) is None && t == file_model(#[trigger] es[i]),
        forall|d: Seq<char>, u: IndexEntryModel| #[trigger] entries_under(es, d).contains(u) ==> exists|i: int|
            0 <= i < es.len() && top_dir(es[i].path) == Some(d) && u == under_model(#[trigger] es[i]),
    decreases es.len(),
{
    if es.len() > 0 {
        let init = es.drop_last();
        let e = es.last();
        let n = es.len() - 1;
        law_split_keeps_entries(init);
        assert(es[n] == e);
        let lf0 = level_files(init);
        let lf = level_files(es);
        assert forall|i: int| 0 <= i < es.len() && top_dir(es[i].path) is None implies lf.contains(file_model(#[trigger] es[i])) by {
            if i < n {
                assert(init[i] == es[i]);
                let k = choose|k: int| 0 <= k < lf0.len() && lf0[k] == file_model(init[i]);
                assert(lf[k] == lf0[k]);
            } else {
                assert(lf[lf0.len() as int] == file_model(e));
            }
        }
        assert forall|i: int| 0 <= i < es.len() && top_dir(es[i].path) is Some implies level_dirs(es).contains(top_dir(es[i].path)->0)
            && entries_under(es, top_dir(es[i].path)->0).contains(under_model(#[trigger] es[i])) by {
            let d = top_dir(es[i].path)->0;
            let u0 = entries_under(init, d);
            let u1 = entries_under(es, d);
            if i < n {
                assert(init[i] == es[i]);
                let k = choose|k: int| 0 <= k < u0.len() && u0[k] == under_model(init[i]);
                assert(u1[k] == u0[k]);
            } else {
                assert(u1[u0.len() as int] == under_model(e));
            }
        }
        assert forall|t: TreeEntryModel| #[trigger] lf.contains(t) implies exists|i: int|
            0 <= i < es.len() && top_dir(es[i].path) is None && t == file_model(#[trigger] es[i]) by {
            let k = choose|k: int| 0 <= k < lf.len() && lf[k] == t;
            if k < lf0.len() {
                assert(lf0[k] == t);
                assert(lf0.contains(t));
                let i = choose|i: int| 0 <= i < init.len() && top_dir(init[i].path) is None && t == file_model(#[trigger] init[i]);
                assert(es[i] == init[i]);
            } else {
                assert(t == file_model(es[n]));
            }
        }
        assert forall|d: Seq<char>, u: IndexEntryModel| #[trigger] entries_under(es, d).contains(u) implies exists|i: int|
            0 <= i < es.len() && top_dir(es[i].path) == Some(d) && u == under_model(#[trigger] es[i]) by {
            let u0 = entries_under(init, d);
            let u1 = entries_under(es, d);
            let k = choose|k: int| 0 <= k < u1.len() && u1[k] == u;
            if k < u0.len() {
                assert(u0[k] == u);
                assert(u0.contains(u));
                let i = choose|i: int| 0 <= i < init.len() && top_dir(init[i].path) == Some(d) && u == under_model(#[trigger] init[i]);
                assert(es[i] == init[i]);
            } else {
                assert(u == under_model(es[n]));
            }
        }
    }
}

/// Entries in Git's order: none sorts before one that comes earlier.
pub open spec fn entries_in_order(t: Seq<TreeEntryModel>) -> bool {
    forall|i: int, j: int| 0 <= i < j < t.len() ==> !entry_lt(#[trigger] t[j], #[trigger] t[i])
}

/// Where the insertion goes: every entry before it does not sort after the
/// new one, and every entry from it on does.
proof fn lemma_insert_at(t: Seq<TreeEntryModel>, x: TreeEntryModel)
    ensures
        0 <= insert_at(t, x) <= t.len(),
        forall|k: int| insert_at(t, x) <= k < t.len() ==> entry_lt(x, #[trigger] t[k]),
        insert_at(t, x) > 0 ==> !entry_lt(x, t[insert_at(t, x) - 1]),
    decreases t.len(),
{
    if t.len() > 0 && entry_lt(x, t.last()) {
        let init = t.drop_last();
        lemma_insert_at(init, x);
        assert forall|k: int| insert_at(t, x) <= k < t.len() implies entry_lt(x, #[trigger] t[k]) by {
            if k < t.len() - 1 {
                assert(t[k] == init[k]);
            }
        }
        if insert_at(t, x) > 0 {
            assert(t[insert_at(t, x) - 1] == init[insert_at(t, x) - 1]);
        }
    }
}

/// Not sorting after `b`, which does not sort after `c`, means not sorting
/// after `c`.
proof fn lemma_not_after_trans(a: TreeEntryModel, b: TreeEntryModel, c: TreeEntryModel)
    requires
        !entry_lt(a, b),
        !entry_lt(b, c),
    ensures
        !entry_lt(a, c),
{
    if entry_lt(a, c) {
        if sort_key(a) != sort_key(b) {
            lemma_bytes_lt_total(sort_key(a), sort_key(b));
            lemma_bytes_lt_trans(sort_key(b), sort_key(a), sort_key(c));
        }
    }
}

/// Tree entries come out in Git's order, and the sort keeps every entry
/// (as often as it was given): `tree_object` lists each entry of the level
/// once, by the bytes of its name with `/` after a subtree's name.
pub proof fn law_tree_order(s: Seq<TreeEntryModel>)
    ensures
        sorted_entries(s).to_multiset() == s.to_multiset(),
        entries_in_order(sorted_entries(s)),
    decreases s.len(),
{
    broadcast use vstd::seq_lib::to_multiset_insert, vstd::seq_lib::to_multiset_build;
    if s.len() == 0 {
        assert(sorted_entries(s) =~= s);
    } else {
        let init = s.drop_last();
        let x = s.last();
        law_tree_order(init);
        let t = sorted_entries(init);
        let p = insert_at(t, x);
        lemma_insert_at(t, x);
        let r = t.insert(p, x);
        assert(sorted_entries(s) == r);
        assert(init.push(x) == s);
        assert forall|i: int, j: int| 0 <= i < j < r.len() implies !entry_lt(#[trigger] r[j], #[trigger] r[i]) by {
            if j < p {
                assert(r[i] == t[i] && r[j] == t[j]);
            } else if j == p {
                assert(r[i] == t[i] && r[j] == x);
                if i < p - 1 {
                    lemma_not_after_trans(x, t[p - 1], t[i]);
                }
            } else if i > p {
                assert(r[i] == t[i - 1] && r[j] == t[j - 1]);
            } else if i == p {
                assert(r[i] == x && r[j] == t[j - 1]);
                assert(entry_lt(x, t[j - 1]));
                lemma_bytes_lt_asym(sort_key(x), sort_key(t[j - 1]));
            } else {
                assert(r[i] == t[i] && r[j] == t[j - 1]);
            }
        }
    }
}

/// The tree entry of a subdirectory.
pub open spec fn dir_entry(d: (Seq<char>, Seq<char>)) -> TreeEntryModel {
    TreeEntryModel { mode: seq!['4', '0', '0', '0', '0'], name: d.0, sha: d.1 }
}

/// The views of (name, tree) pairs.
pub open spec fn dir_views(v: Seq<(String, String)>) -> Seq<(Seq<char>, Seq<char>)> {
    v.map_values(|d: (String, String)| (d.0@, d.1@))
}

/// The sort key of an entry.
fn entry_key(e: &TreeEntry) -> (out: Vec<u8>)
    ensures
        out@ == sort_key(e@),
{
    let mut k = bytes_of(e.name.as_str());
    let dir = str_eq(e.mode.as_str(), "40000");
    proof {
        reveal_strlit("40000");
        assert("40000"@ == seq!['4', '0', '0', '0', '0']);
    }
    if dir {
        k.push(47u8);
    } else {
        assert(k@ + Seq::<u8>::empty() == k@);
    }
    k
}

/// `true` when entry `a` sorts before `b`.
fn entry_less(a: &TreeEntry, b: &TreeEntry) -> (out: bool)
    ensures
        out == entry_lt(a@, b@),
{
    let ka = entry_key(a);
    let kb = entry_key(b);
    bytes_less(ka.as_slice(), kb.as_slice())
}

/// The tree object of a level: its files and its subdirectories (mode
/// 40000), sorted in Git's order (a subdirectory's name read with `/`
/// appended, so `a.txt` comes before the directory `a`).
pub fn tree_object(files: Vec<TreeEntry>, dirs: Vec<(String, String)>) -> (out: Object)
    ensures
        out@ == ObjectModel::Tree(sorted_entries(entry_views(files@) + dir_views(dirs@).map_values(
            |d: (Seq<char>, Seq<char>)| dir_entry(d),
        ))),
{
    let ghost fv = entry_views(files@);
    let ghost all = fv + dir_views(dirs@).map_values(|d: (Seq<char>, Seq<char>)| dir_entry(d));
    proof {
        reveal_strlit("40000");
        assert("40000"@ =~= seq!['4', '0', '0', '0', '0']);
    }
    let mut items: Vec<TreeEntry> = files;
    let ghost nfiles = items@.len();
    let mut j: usize = 0;
    while j < dirs.len()
        invariant
            "40000"@ == seq!['4', '0', '0', '0', '0'],
            items@.len() == nfiles + j,
            nfiles == fv.len(),
            all == fv + dir_views(dirs@).map_values(|d: (Seq<char>, Seq<char>)| dir_entry(d)),
            j <= dirs@.len(),
            entry_views(items@) == all.take(nfiles + j),
            all.len() == nfiles + dirs@.len(),
        decreases dirs@.len() - j,
    {
        let ghost before = entry_views(items@);
        items.push(TreeEntry { mode: String::from_str("40000"), name: dirs[j].0.clone(), sha: dirs[j].1.clone() });
        proof {
            assert(entry_views(items@) == before.push(dir_entry(dir_views(dirs@)[j as int])));
            assert(all[nfiles + j] == dir_entry(dir_views(dirs@)[j as int]));
            assert(all.take(nfiles + j + 1) == all.take(nfiles + j).push(all[nfiles + j]));
        }
        j = j + 1;
    }
    assert(all.take(all.len() as int) == all);
    let ghost iv = entry_views(items@);
    let mut sorted: Vec<TreeEntry> = Vec::new();
    let mut n: usize = 0;
    let total = items.len();
    assert(iv.take(0) == Seq::<TreeEntryModel>::empty());
    while items.len() > 0
        invariant
            iv.len() == total,
            total == n + items@.len(),
            forall|m: int| 0 <= m < items@.len() ==> (#[trigger] items@[m])@ == iv[n + m],
            entry_views(sorted@) == sorted_entries(iv.take(n as int)),
        decreases items@.len(),
    {
        let x = items.remove(0);
        let ghost t = entry_views(sorted@);
        let mut p: usize = sorted.len();
        assert(t.take(p as int) == t);
        while p > 0 && entry_less(&x, &sorted[p - 1])
            invariant
                p <= sorted@.len(),
                t == entry_views(sorted@),
                insert_at(t, x@) == insert_at(t.take(p as int), x@),
            decreases p,
        {
            let ghost tp = t.take(p as int);
            assert(tp.drop_last() == t.take(p - 1));
            assert(tp.last() == sorted@[p - 1]@);
            p = p - 1;
        }
        proof {
            let tp = t.take(p as int);
            if p > 0 {
                assert(tp.last() == sorted@[p - 1]@);
            }
            assert(insert_at(tp, x@) == p);
            assert(iv.take(n + 1).drop_last() == iv.take(n as int));
            assert(iv.take(n + 1).last() == x@);
        }
        sorted.insert(p, x);
        assert(entry_views(sorted@) == t.insert(p as int, iv[n as int]));
        n = n + 1;
    }
    assert(iv.take(iv.len() as int) == iv);
    Object::Tree(sorted)
}

} // verus!
