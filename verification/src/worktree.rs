//! Decisions about the working tree and the staging area: what is staged
//! against HEAD, which files leave on a switch, and the texts of commits.

use vstd::prelude::*;
use crate::index::{Index, IndexEntryModel};
use crate::diff::{dec_chars, push_decimal};
use crate::merge::{sha_for, pair_views, find_sha, string_views};
use crate::text::{decimal, lines_from, next_line, chars_of, string_from_chars, string_push, str_eq, starts_with, strip_prefix};

verus! {

broadcast use vstd::seq::group_seq_axioms;

// ---------------------------------------------------------------------------
// Staged changes
// ---------------------------------------------------------------------------

/// The paths of the index that HEAD does not have, in index order.
pub open spec fn staged_new(es: Seq<IndexEntryModel>, head: Seq<(Seq<char>, Seq<char>)>) -> Seq<Seq<char>>
    decreases es.len(),
{
    if es.len() == 0 {
        Seq::empty()
    } else {
        let r = staged_new(es.drop_last(), head);
        if sha_for(head, es.last().path) is None {
            r.push(es.last().path)
        } else {
            r
        }
    }
}

/// The paths of the index whose blob differs from HEAD's, in index order.
pub open spec fn staged_modified(es: Seq<IndexEntryModel>, head: Seq<(Seq<char>, Seq<char>)>) -> Seq<Seq<char>>
    decreases es.len(),
{
    if es.len() == 0 {
        Seq::empty()
    } else {
        let r = staged_modified(es.drop_last(), head);
        match sha_for(head, es.last().path) {
            Some(s) => if s != es.last().sha {
                r.push(es.last().path)
            } else {
                r
            },
            None => r,
        }
    }
}

/// `true` when some index entry has path `p`.
pub open spec fn in_index(es: Seq<IndexEntryModel>, p: Seq<char>) -> bool {
    exists|i: int| 0 <= i < es.len() && #[trigger] es[i].path == p
}

/// The paths of HEAD that the index does not have, in HEAD's order.
pub open spec fn staged_deleted(es: Seq<IndexEntryModel>, head: Seq<(Seq<char>, Seq<char>)>) -> Seq<Seq<char>>
    decreases head.len(),
{
    if head.len() == 0 {
        Seq::empty()
    } else {
        let r = staged_deleted(es, head.drop_last());
        if !in_index(es, head.last().0) {
            r.push(head.last().0)
        } else {
            r
        }
    }
}

/// The views of a list of strings.
pub open spec fn texts_of(v: Seq<String>) -> Seq<Seq<char>> {
    v.map_values(|s: String| s@)
}

/// `true` when some index entry has the path.
fn index_has(index: &Index, p: &str) -> (out: bool)
    ensures
        out == in_index(index@, p@),
{
    let mut i: usize = 0;
    while i < index.entries.len()
        invariant
            i <= index@.len(),
            forall|k: int| 0 <= k < i ==> index@[k].path != p@,
        decreases index@.len() - i,
    {
        assert(index@[i as int] == index.entries@[i as int]@);
        if str_eq(index.entries[i].path.as_str(), p) {
            assert(index@[i as int].path == p@);
            return true;
        }
        i = i + 1;
    }
    false
}

/// What the index changes against HEAD's files: new paths, paths with
/// another blob, and paths no longer in the index.
pub fn staged_changes(index: &Index, head: &[(String, String)]) -> (out: (Vec<String>, Vec<String>, Vec<String>))
    ensures
        texts_of(out.0@) == staged_new(index@, pair_views(head@)),
        texts_of(out.1@) == staged_modified(index@, pair_views(head@)),
        texts_of(out.2@) == staged_deleted(index@, pair_views(head@)),
{
    let ghost es = index@;
    let ghost hv = pair_views(head@);
    let mut new_paths: Vec<String> = Vec::new();
    let mut modified: Vec<String> = Vec::new();
    let mut i: usize = 0;
    while i < index.entries.len()
        invariant
            es == index@,
            hv == pair_views(head@),
            i <= es.len(),
            texts_of(new_paths@) == staged_new(es.take(i as int), hv),
            texts_of(modified@) == staged_modified(es.take(i as int), hv),
        decreases es.len() - i,
    {
        let e = &index.entries[i];
        assert(e@ == es[i as int]);
        assert(es.take(i + 1).drop_last() == es.take(i as int));
        assert(es.take(i + 1).last() == es[i as int]);
        match find_sha(head, e.path.as_str()) {
            Some(s) => {
                if !str_eq(s, e.sha.as_str()) {
                    modified.push(e.path.clone());
                }
            },
            None => {
                new_paths.push(e.path.clone());
            },
        }
        i = i + 1;
    }
    assert(es.take(es.len() as int) == es);
    let mut deleted: Vec<String> = Vec::new();
    let mut j: usize = 0;
    while j < head.len()
        invariant
            es == index@,
            hv == pair_views(head@),
            j <= hv.len(),
            texts_of(deleted@) == staged_deleted(es, hv.take(j as int)),
        decreases hv.len() - j,
    {
        assert(hv.take(j + 1).drop_last() == hv.take(j as int));
        assert(hv.take(j + 1).last() == hv[j as int]);
        if !index_has(index, head[j].0.as_str()) {
            deleted.push(head[j].0.clone());
        }
        j = j + 1;
    }
    assert(hv.take(hv.len() as int) == hv);
    (new_paths, modified, deleted)
}

/// The paths of a list of (path, blob) pairs, in order.
pub open spec fn pair_paths(head: Seq<(Seq<char>, Seq<char>)>) -> Seq<Seq<char>> {
    head.map_values(|e: (Seq<char>, Seq<char>)| e.0)
}

/// `true` when the index agrees with HEAD's files: it has as many entries
/// as HEAD has distinct paths, and each entry has HEAD's blob for its path.
pub open spec fn index_matches(es: Seq<IndexEntryModel>, head: Seq<(Seq<char>, Seq<char>)>) -> bool {
    &&& es.len() == pair_paths(head).to_set().len()
    &&& forall|i: int| 0 <= i < es.len() ==> sha_for(head, #[trigger] es[i].path) == Some(es[i].sha)
}

/// The number of distinct paths among the pairs.
fn distinct_paths(head: &[(String, String)]) -> (out: usize)
    ensures
        out == pair_paths(pair_views(head@)).to_set().len(),
{
    broadcast use vstd::set::group_set_axioms, vstd::seq_lib::seq_to_set_is_finite;

    let ghost ks = pair_paths(pair_views(head@));
    let mut count: usize = 0;
    let mut i: usize = 0;
    assert(ks.take(0).to_set() =~= Set::<Seq<char>>::empty());
    while i < head.len()
        invariant
            ks == pair_paths(pair_views(head@)),
            ks.len() == head@.len(),
            i <= head@.len(),
            count <= i,
            count == ks.take(i as int).to_set().len(),
        decreases head@.len() - i,
    {
        let mut seen = false;
        let mut j: usize = 0;
        while j < i
            invariant
                ks == pair_paths(pair_views(head@)),
                ks.len() == head@.len(),
                i < head@.len(),
                j <= i,
                seen <==> ks.take(j as int).contains(ks[i as int]),
            decreases i - j,
        {
            assert(ks.take(j + 1) == ks.take(j as int).push(ks[j as int]));
            if str_eq(head[j].0.as_str(), head[i].0.as_str()) {
                assert(ks.take(j + 1)[j as int] == ks[i as int]);
                seen = true;
            } else if seen {
                let ghost t0 = ks.take(j as int);
                let ghost k = choose|k: int| 0 <= k < t0.len() && t0[k] == ks[i as int];
                assert(ks.take(j + 1)[k] == ks[i as int]);
            } else {
                let ghost t = ks.take(j + 1);
                assert(!t.contains(ks[i as int])) by {
                    if t.contains(ks[i as int]) {
                        let k = choose|k: int| 0 <= k < t.len() && t[k] == ks[i as int];
                        assert(ks.take(j as int)[k] == ks[i as int]);
                    }
                }
            }
            j = j + 1;
        }
        let ghost before = ks.take(i as int).to_set();
        let ghost t0 = ks.take(i as int);
        let ghost t1 = ks.take(i + 1);
        assert(t1.to_set() =~= before.insert(ks[i as int])) by {
            assert(t1 == t0.push(ks[i as int]));
            assert forall|x: Seq<char>| t1.contains(x) implies before.insert(ks[i as int]).contains(x) by {
                let k = choose|k: int| 0 <= k < t1.len() && t1[k] == x;
                if k < i {
                    assert(t0[k] == x);
                }
            }
            assert forall|x: Seq<char>| before.insert(ks[i as int]).contains(x) implies t1.contains(x) by {
                if x == ks[i as int] {
                    assert(t1[i as int] == x);
                } else {
                    let k = choose|k: int| 0 <= k < t0.len() && t0[k] == x;
                    assert(t1[k] == x);
                }
            }
        }
        if !seen {
            count = count + 1;
        }
        i = i + 1;
    }
    assert(ks.take(head@.len() as int) == ks);
    count
}

/// A text that may be missing, by its view.
pub open spec fn opt_text(o: Option<String>) -> Option<Seq<char>> {
    match o {
        Some(s) => Some(s@),
        None => None,
    }
}

/// Checking out `target` would overwrite the local changes to an index
/// entry's file: the file exists (`disk` holds its blob name) with content
/// other than the staged blob, and the target tree does not hold the staged
/// blob at that path.
pub open spec fn blocks_checkout(e: IndexEntryModel, disk: Option<Seq<char>>, target: Seq<(Seq<char>, Seq<char>)>) -> bool {
    &&& disk matches Some(d) && d != e.sha
    &&& sha_for(target, e.path) != Some(e.sha)
}

/// The first index entry whose local changes a checkout of `target` would
/// overwrite, or `None` when the checkout is safe. `disk[k]` is the blob
/// name of entry `k`'s file, `None` when the file is missing.
pub fn first_blocking_entry(index: &Index, disk: &[Option<String>], target: &[(String, String)]) -> (out: Option<usize>)
    requires
        disk@.len() == index@.len(),
    ensures
        match out {
            Some(k) => k < index@.len() && blocks_checkout(index@[k as int], opt_text(disk@[k as int]), pair_views(target@))
                && forall|j: int| 0 <= j < k ==> !blocks_checkout(#[trigger] index@[j], opt_text(disk@[j]), pair_views(target@)),
            None => forall|j: int| 0 <= j < index@.len() ==> !blocks_checkout(#[trigger] index@[j], opt_text(disk@[j]), pair_views(target@)),
        },
{
    let mut k: usize = 0;
    while k < index.entries.len()
        invariant
            k <= index@.len(),
            disk@.len() == index@.len(),
            forall|j: int| 0 <= j < k ==> !blocks_checkout(#[trigger] index@[j], opt_text(disk@[j]), pair_views(target@)),
        decreases index@.len() - k,
    {
        let e = &index.entries[k];
        assert(e@ == index@[k as int]);
        if let Some(d) = &disk[k] {
            if !str_eq(d.as_str(), e.sha.as_str()) {
                let kept = match find_sha(target, e.path.as_str()) {
                    Some(s) => str_eq(s, e.sha.as_str()),
                    None => false,
                };
                if !kept {
                    return Some(k);
                }
            }
        }
        k = k + 1;
    }
    None
}

/// The entry's file differs from its staged blob: it is missing (`None`)
/// or its blob name is another.
pub open spec fn changed_on_disk(e: IndexEntryModel, disk: Option<Seq<char>>) -> bool {
    match disk {
        Some(d) => d != e.sha,
        None => true,
    }
}

/// The paths, in index order, of the first `n` entries whose file exists
/// with other content than staged (`modified`), or is gone (`deleted`).
pub open spec fn unstaged_upto(es: Seq<IndexEntryModel>, disk: Seq<Option<String>>, n: int) -> (Seq<Seq<char>>, Seq<Seq<char>>)
    decreases n,
{
    if n <= 0 {
        (Seq::empty(), Seq::empty())
    } else {
        let r = unstaged_upto(es, disk, n - 1);
        match opt_text(disk[n - 1]) {
            Some(d) => if d != es[n - 1].sha {
                (r.0.push(es[n - 1].path), r.1)
            } else {
                r
            },
            None => (r.0, r.1.push(es[n - 1].path)),
        }
    }
}

/// The unstaged changes `status` lists: the paths of entries whose file
/// was changed, and of those whose file is gone, each in index order.
/// `disk[k]` is the blob name of entry `k`'s file, `None` when it is missing.
pub fn unstaged_changes(index: &Index, disk: &[Option<String>]) -> (out: (Vec<String>, Vec<String>))
    requires
        disk@.len() == index@.len(),
    ensures
        string_views(out.0@) == unstaged_upto(index@, disk@, index@.len() as int).0,
        string_views(out.1@) == unstaged_upto(index@, disk@, index@.len() as int).1,
{
    let mut modified: Vec<String> = Vec::new();
    let mut deleted: Vec<String> = Vec::new();
    let mut k: usize = 0;
    while k < index.entries.len()
        invariant
            k <= index@.len(),
            disk@.len() == index@.len(),
            string_views(modified@) == unstaged_upto(index@, disk@, k as int).0,
            string_views(deleted@) == unstaged_upto(index@, disk@, k as int).1,
        decreases index@.len() - k,
    {
        let e = &index.entries[k];
        assert(e@ == index@[k as int]);
        match &disk[k] {
            Some(d) => {
                if !str_eq(d.as_str(), e.sha.as_str()) {
                    modified.push(e.path.clone());
                    assert(string_views(modified@) == unstaged_upto(index@, disk@, k as int).0.push(e.path@));
                }
            },
            None => {
                deleted.push(e.path.clone());
                assert(string_views(deleted@) == unstaged_upto(index@, disk@, k as int).1.push(e.path@));
            },
        }
        k = k + 1;
    }
    (modified, deleted)
}

/// Whether `stash` finds local changes to save: some tracked file is gone
/// or differs from its staged blob, or the index differs from HEAD's files.
pub fn has_local_changes(index: &Index, disk: &[Option<String>], head: &[(String, String)]) -> (out: bool)
    requires
        disk@.len() == index@.len(),
    ensures
        out == ((exists|k: int| 0 <= k < index@.len() && changed_on_disk(#[trigger] index@[k], opt_text(disk@[k])))
            || !index_matches(index@, pair_views(head@))),
{
    let mut k: usize = 0;
    while k < index.entries.len()
        invariant
            k <= index@.len(),
            disk@.len() == index@.len(),
            forall|j: int| 0 <= j < k ==> !changed_on_disk(#[trigger] index@[j], opt_text(disk@[j])),
        decreases index@.len() - k,
    {
        let e = &index.entries[k];
        assert(e@ == index@[k as int]);
        let changed = match &disk[k] {
            Some(d) => !str_eq(d.as_str(), e.sha.as_str()),
            None => true,
        };
        if changed {
            assert(changed_on_disk(index@[k as int], opt_text(disk@[k as int])));
            return true;
        }
        k = k + 1;
    }
    !index_matches_head(index, head)
}

/// Whether the index agrees with HEAD's files (the check `stash` makes
/// before looking for changes in the working tree).
pub fn index_matches_head(index: &Index, head: &[(String, String)]) -> (out: bool)
    ensures
        out == index_matches(index@, pair_views(head@)),
{
    if index.entries.len() != distinct_paths(head) {
        return false;
    }
    let mut i: usize = 0;
    while i < index.entries.len()
        invariant
            i <= index@.len(),
            forall|k: int| 0 <= k < i ==> sha_for(pair_views(head@), #[trigger] index@[k].path) == Some(index@[k].sha),
        decreases index@.len() - i,
    {
        let e = &index.entries[i];
        assert(e@ == index@[i as int]);
        match find_sha(head, e.path.as_str()) {
            Some(s) => {
                if !str_eq(s, e.sha.as_str()) {
                    assert(sha_for(pair_views(head@), index@[i as int].path) != Some(index@[i as int].sha));
                    return false;
                }
            },
            None => {
                assert(sha_for(pair_views(head@), index@[i as int].path) != Some(index@[i as int].sha));
                return false;
            },
        }
        i = i + 1;
    }
    true
}

/// The paths of `current` that `target` does not have, in order: the files
/// that leave the working tree when switching from one to the other.
pub open spec fn leaving_paths(current: Seq<(Seq<char>, Seq<char>)>, target: Seq<(Seq<char>, Seq<char>)>) -> Seq<Seq<char>>
    decreases current.len(),
{
    if current.len() == 0 {
        Seq::empty()
    } else {
        let r = leaving_paths(current.drop_last(), target);
        if sha_for(target, current.last().0) is None {
            r.push(current.last().0)
        } else {
            r
        }
    }
}

/// The files to remove when the working tree moves from `current` to `target`.
pub fn paths_to_remove(current: &[(String, String)], target: &[(String, String)]) -> (out: Vec<String>)
    ensures
        texts_of(out@) == leaving_paths(pair_views(current@), pair_views(target@)),
{
    let ghost cv = pair_views(current@);
    let mut out: Vec<String> = Vec::new();
    let mut i: usize = 0;
    while i < current.len()
        invariant
            cv == pair_views(current@),
            i <= cv.len(),
            texts_of(out@) == leaving_paths(cv.take(i as int), pair_views(target@)),
        decreases cv.len() - i,
    {
        assert(cv.take(i + 1).drop_last() == cv.take(i as int));
        assert(cv.take(i + 1).last() == cv[i as int]);
        if find_sha(target, current[i].0.as_str()).is_none() {
            out.push(current[i].0.clone());
        }
        i = i + 1;
    }
    assert(cv.take(cv.len() as int) == cv);
    out
}

// ---------------------------------------------------------------------------
// Commit texts
// ---------------------------------------------------------------------------

/// A message as stored: ending with a newline, one added when missing.
pub open spec fn with_newline_text(m: Seq<char>) -> Seq<char> {
    if m.len() > 0 && m.last() == '\n' {
        m
    } else {
        m.push('\n')
    }
}

/// The message with a final newline.
pub fn with_newline(message: &str) -> (out: String)
    ensures
        out@ == with_newline_text(message@),
{
    let cs = chars_of(message);
    let n = cs.len();
    let mut s = String::from_str(message);
    if !(n > 0 && cs[n - 1] == '\n') {
        string_push(&mut s, '\n');
    }
    s
}

/// Decimal digits of a number, as text.
pub open spec fn dec_text(n: nat) -> Seq<char> {
    decimal(n).map_values(|b: u8| b as char)
}

/// `<name> <<email>> <seconds> +0000`, the author and committer line.
pub open spec fn signature_text(name: Seq<char>, email: Seq<char>, seconds: nat) -> Seq<char> {
    name + " <"@ + email + "> "@ + dec_text(seconds) + " +0000"@
}

/// The author and committer line of a commit made at `seconds` (UTC).
pub fn signature(name: &str, email: &str, seconds: u64) -> (out: String)
    ensures
        out@ == signature_text(name@, email@, seconds as nat),
{
    let mut s = String::from_str(name);
    s.append(" <");
    s.append(email);
    s.append("> ");
    let digits = crate::text::u64_to_decimal(seconds);
    let ghost before = s@;
    let mut i: usize = 0;
    while i < digits.len()
        invariant
            i <= digits@.len(),
            digits@ == decimal(seconds as nat),
            s@ == before + digits@.take(i as int).map_values(|b: u8| b as char),
        decreases digits@.len() - i,
    {
        string_push(&mut s, digits[i] as char);
        i = i + 1;
        assert(digits@.take(i as int).map_values(|b: u8| b as char) == digits@.take(i - 1).map_values(
            |b: u8| b as char,
        ).push(digits@[i - 1] as char));
    }
    assert(digits@.take(digits@.len() as int) == digits@);
    s.append(" +0000");
    s
}

/// The first line of a message, or nothing.
pub open spec fn summary_of(message: Seq<char>) -> Seq<char> {
    if lines_from(message, 0).len() > 0 {
        lines_from(message, 0)[0]
    } else {
        Seq::empty()
    }
}

/// The first line of a commit message.
pub fn summary_line(message: &str) -> (out: String)
    ensures
        out@ == summary_of(message@),
{
    let cs = chars_of(message);
    if cs.len() == 0 {
        return String::new();
    }
    let (end, _) = next_line(cs.as_slice(), 0);
    string_from_chars(cs.as_slice(), 0, end)
}

/// What the stash list shows of an entry: the first line of its message,
/// or `stash` when the message has no line.
pub open spec fn stash_label(message: Seq<char>) -> Seq<char> {
    if lines_from(message, 0).len() > 0 {
        lines_from(message, 0)[0]
    } else {
        "stash"@
    }
}

/// `stash@{<i>}: <label>`, the line of the stash list for entry `i`.
pub open spec fn stash_line_text(i: int, message: Seq<char>) -> Seq<char> {
    "stash@{"@ + dec_chars(i) + "}: "@ + stash_label(message)
}

/// The line of the stash list for the entry `i`, whose commit has `message`.
pub fn stash_list_line(i: usize, message: &str) -> (out: String)
    ensures
        out@ == stash_line_text(i as int, message@),
{
    let mut s = String::from_str("stash@{");
    push_decimal(&mut s, i);
    s.append("}: ");
    let cs = chars_of(message);
    if cs.len() == 0 {
        proof {
            assert(lines_from(message@, 0).len() == 0);
        }
        s.append("stash");
    } else {
        let first = summary_line(message);
        s.append(first.as_str());
    }
    s
}

/// `true` when a deleted file lies under a directory given to `add`: its
/// path is the directory's path or starts with it followed by `/`, or the
/// directory is `.` (the whole tree).
pub open spec fn under_added_dir(path: Seq<char>, dir: Seq<char>) -> bool {
    path == dir || starts_with(path, dir.push('/')) || dir == seq!['.']
}

/// Whether `add` of the directory `dir` unstages the deleted file `path`.
pub fn is_under_added_dir(path: &str, dir: &str) -> (out: bool)
    ensures
        out == under_added_dir(path@, dir@),
{
    if str_eq(path, dir) {
        return true;
    }
    let mut below = String::from_str(dir);
    string_push(&mut below, '/');
    if strip_prefix(path, below.as_str()).is_some() {
        return true;
    }
    let dc = chars_of(dir);
    let dot = dc.len() == 1 && dc[0] == '.';
    proof {
        if dir@ == seq!['.'] {
            assert(dc@[0] == '.');
        }
        if dot {
            assert(dc@ =~= seq!['.']);
        }
    }
    dot
}

/// A path has a blob in a list of pairs exactly when some pair names it.
pub proof fn lemma_sha_for_none(es: Seq<(Seq<char>, Seq<char>)>, p: Seq<char>)
    ensures
        sha_for(es, p) is None <==> !exists|j: int| 0 <= j < es.len() && #[trigger] es[j].0 == p,
    decreases es.len(),
{
    if es.len() > 0 {
        let rest = es.drop_first();
        lemma_sha_for_none(rest, p);
        if exists|j: int| 0 <= j < es.len() && #[trigger] es[j].0 == p {
            let j = choose|j: int| 0 <= j < es.len() && #[trigger] es[j].0 == p;
            if j > 0 && es[0].0 != p {
                assert(rest[j - 1] == es[j]);
            }
        }
        if exists|j: int| 0 <= j < rest.len() && #[trigger] rest[j].0 == p {
            let j = choose|j: int| 0 <= j < rest.len() && #[trigger] rest[j].0 == p;
            assert(es[j + 1] == rest[j]);
        }
    }
}

/// A path of HEAD is listed as deleted from the index exactly when no
/// index entry has that path, whatever blobs the entries hold.
pub proof fn law_staged_deleted(es: Seq<IndexEntryModel>, head: Seq<(Seq<char>, Seq<char>)>, p: Seq<char>)
    ensures
        staged_deleted(es, head).contains(p) <==> (exists|i: int| 0 <= i < head.len() && #[trigger] head[i].0 == p) && !(
        exists|k: int| 0 <= k < es.len() && #[trigger] es[k].path == p),
    decreases head.len(),
{
    if head.len() > 0 {
        let init = head.drop_last();
        let l = head.last();
        let r = staged_deleted(es, init);
        law_staged_deleted(es, init, p);
        assert(head[head.len() - 1] == l);
        if exists|i: int| 0 <= i < init.len() && #[trigger] init[i].0 == p {
            let i = choose|i: int| 0 <= i < init.len() && #[trigger] init[i].0 == p;
            assert(head[i] == init[i]);
        }
        if exists|i: int| 0 <= i < head.len() && #[trigger] head[i].0 == p {
            let i = choose|i: int| 0 <= i < head.len() && #[trigger] head[i].0 == p;
            if i < init.len() {
                assert(init[i] == head[i]);
            }
        }
        if !in_index(es, l.0) {
            assert(staged_deleted(es, head) == r.push(l.0));
            if r.contains(p) {
                let k = choose|k: int| 0 <= k < r.len() && r[k] == p;
                assert(r.push(l.0)[k] == p);
            }
            if r.push(l.0).contains(p) {
                let k = choose|k: int| 0 <= k < r.push(l.0).len() && r.push(l.0)[k] == p;
                if k < r.len() {
                    assert(r[k] == p);
                }
            }
            assert(r.push(l.0)[r.len() as int] == l.0);
        } else {
            let k = choose|k: int| 0 <= k < es.len() && #[trigger] es[k].path == l.0;
        }
    }
}

/// A path of the branch being left is removed from the working tree
/// exactly when the target branch has no file at that path, whatever blobs
/// the two branches hold.
pub proof fn law_leaving_paths(current: Seq<(Seq<char>, Seq<char>)>, target: Seq<(Seq<char>, Seq<char>)>, p: Seq<char>)
    ensures
        leaving_paths(current, target).contains(p) <==> (exists|i: int| 0 <= i < current.len() && #[trigger] current[i].0 == p)
            && !(exists|j: int| 0 <= j < target.len() && #[trigger] target[j].0 == p),
    decreases current.len(),
{
    lemma_sha_for_none(target, p);
    if current.len() > 0 {
        let init = current.drop_last();
        let l = current.last();
        let r = leaving_paths(init, target);
        law_leaving_paths(init, target, p);
        lemma_sha_for_none(target, l.0);
        assert(current[current.len() - 1] == l);
        if exists|i: int| 0 <= i < init.len() && #[trigger] init[i].0 == p {
            let i = choose|i: int| 0 <= i < init.len() && #[trigger] init[i].0 == p;
            assert(current[i] == init[i]);
        }
        if exists|i: int| 0 <= i < current.len() && #[trigger] current[i].0 == p {
            let i = choose|i: int| 0 <= i < current.len() && #[trigger] current[i].0 == p;
            if i < init.len() {
                assert(init[i] == current[i]);
            }
        }
        if sha_for(target, l.0) is None {
            assert(leaving_paths(current, target) == r.push(l.0));
            if r.contains(p) {
                let k = choose|k: int| 0 <= k < r.len() && r[k] == p;
                assert(r.push(l.0)[k] == p);
            }
            if r.push(l.0).contains(p) {
                let k = choose|k: int| 0 <= k < r.push(l.0).len() && r.push(l.0)[k] == p;
                if k < r.len() {
                    assert(r[k] == p);
                }
            }
            assert(r.push(l.0)[r.len() as int] == l.0);
        }
    }
}

/// In pairs whose paths are distinct, the blob found for a path is the one
/// paired with it.
pub proof fn lemma_sha_for_distinct(es: Seq<(Seq<char>, Seq<char>)>, j: int)
    requires
        0 <= j < es.len(),
        forall|a: int, b: int| 0 <= a < b < es.len() ==> (#[trigger] es[a]).0 != (#[trigger] es[b]).0,
    ensures
        sha_for(es, es[j].0) == Some(es[j].1),
    decreases es.len(),
{
    if j > 0 {
        let rest = es.drop_first();
        assert(es[0].0 != es[j].0);
        assert(rest[j - 1] == es[j]);
        assert forall|a: int, b: int| 0 <= a < b < rest.len() implies (#[trigger] rest[a]).0 != (#[trigger] rest[b]).0 by {
            assert(rest[a] == es[a + 1] && rest[b] == es[b + 1]);
        }
        lemma_sha_for_distinct(rest, j - 1);
    }
}

/// A path of the index is listed as new exactly when HEAD has no file at
/// that path.
pub proof fn law_staged_new(es: Seq<IndexEntryModel>, head: Seq<(Seq<char>, Seq<char>)>, p: Seq<char>)
    ensures
        staged_new(es, head).contains(p) <==> (exists|k: int| 0 <= k < es.len() && #[trigger] es[k].path == p) && !(exists|
            j: int,
        | 0 <= j < head.len() && #[trigger] head[j].0 == p),
    decreases es.len(),
{
    lemma_sha_for_none(head, p);
    if es.len() > 0 {
        let init = es.drop_last();
        let l = es.last();
        let r = staged_new(init, head);
        law_staged_new(init, head, p);
        lemma_sha_for_none(head, l.path);
        assert(es[es.len() - 1] == l);
        if exists|k: int| 0 <= k < init.len() && #[trigger] init[k].path == p {
            let k = choose|k: int| 0 <= k < init.len() && #[trigger] init[k].path == p;
            assert(es[k] == init[k]);
        }
        if exists|k: int| 0 <= k < es.len() && #[trigger] es[k].path == p {
            let k = choose|k: int| 0 <= k < es.len() && #[trigger] es[k].path == p;
            if k < init.len() {
                assert(init[k] == es[k]);
            }
        }
        if sha_for(head, l.path) is None {
            assert(staged_new(es, head) == r.push(l.path));
            if r.contains(p) {
                let k = choose|k: int| 0 <= k < r.len() && r[k] == p;
                assert(r.push(l.path)[k] == p);
            }
            if r.push(l.path).contains(p) {
                let k = choose|k: int| 0 <= k < r.push(l.path).len() && r.push(l.path)[k] == p;
                if k < r.len() {
                    assert(r[k] == p);
                }
            }
            assert(r.push(l.path)[r.len() as int] == l.path);
        }
    }
}

/// With HEAD's paths distinct (as in a tree), a path of the index is listed
/// as modified exactly when HEAD has a file at that path with another blob
/// than the index entry.
pub proof fn law_staged_modified(es: Seq<IndexEntryModel>, head: Seq<(Seq<char>, Seq<char>)>, p: Seq<char>)
    requires
        forall|a: int, b: int| 0 <= a < b < head.len() ==> (#[trigger] head[a]).0 != (#[trigger] head[b]).0,
    ensures
        staged_modified(es, head).contains(p) <==> exists|k: int, j: int|
            0 <= k < es.len() && 0 <= j < head.len() && #[trigger] es[k].path == p && #[trigger] head[j].0 == p && head[j].1
                != es[k].sha,
    decreases es.len(),
{
    if es.len() > 0 {
        let init = es.drop_last();
        let l = es.last();
        let r = staged_modified(init, head);
        law_staged_modified(init, head, p);
        let n = es.len() - 1;
        assert(es[n] == l);
        lemma_sha_for_none(head, l.path);
        if exists|k: int, j: int|
            0 <= k < init.len() && 0 <= j < head.len() && #[trigger] init[k].path == p && #[trigger] head[j].0 == p && head[j].1
                != init[k].sha {
            let (k, j) = choose|k: int, j: int|
                0 <= k < init.len() && 0 <= j < head.len() && #[trigger] init[k].path == p && #[trigger] head[j].0 == p
                    && head[j].1 != init[k].sha;
            assert(es[k] == init[k]);
        }
        if exists|k: int, j: int|
            0 <= k < es.len() && 0 <= j < head.len() && #[trigger] es[k].path == p && #[trigger] head[j].0 == p && head[j].1
                != es[k].sha {
            let (k, j) = choose|k: int, j: int|
                0 <= k < es.len() && 0 <= j < head.len() && #[trigger] es[k].path == p && #[trigger] head[j].0 == p && head[j].1
                    != es[k].sha;
            if k < init.len() {
                assert(init[k] == es[k]);
            } else {
                lemma_sha_for_distinct(head, j);
            }
        }
        let changed = match sha_for(head, l.path) {
            Some(h) => h != l.sha,
            None => false,
        };
        if changed {
            let j = choose|j: int| 0 <= j < head.len() && #[trigger] head[j].0 == l.path;
            lemma_sha_for_distinct(head, j);
            assert(staged_modified(es, head) == r.push(l.path));
            if r.contains(p) {
                let q = choose|q: int| 0 <= q < r.len() && r[q] == p;
                assert(r.push(l.path)[q] == p);
            }
            if r.push(l.path).contains(p) {
                let q = choose|q: int| 0 <= q < r.push(l.path).len() && r.push(l.path)[q] == p;
                if q < r.len() {
                    assert(r[q] == p);
                } else {
                    assert(es[n].path == p && head[j].0 == p && head[j].1 != es[n].sha);
                }
            }
            assert(r.push(l.path)[r.len() as int] == l.path);
        } else {
            assert(staged_modified(es, head) == r);
            if l.path == p && exists|j: int| 0 <= j < head.len() && #[trigger] head[j].0 == p && head[j].1 != l.sha {
                let j = choose|j: int| 0 <= j < head.len() && #[trigger] head[j].0 == p && head[j].1 != l.sha;
                lemma_sha_for_distinct(head, j);
            }
        }
    }
}

} // verus!
