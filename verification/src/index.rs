//! The staging area: a list of tracked files kept sorted by path, and its
//! binary form (version byte, entry count, then mode, raw SHA-1 and path of
//! each entry).

use vstd::prelude::*;
use vstd::utf8::{valid_utf8, decode_utf8};
use vstd::slice::slice_subrange;
use crate::diff::{dec_chars, push_decimal};
use crate::object::{hex_decode, hex_encode, hex_to_bytes, bytes_to_hex, is_lower_sha, lemma_decoded_no_bad_pair};
use crate::text::{push_bytes, copy_bytes, string_from_utf8, utf8, bytes_lt, bytes_less, bytes_eq, lemma_bytes_lt_asym, lemma_bytes_lt_trans, lemma_bytes_lt_total, lemma_utf8_injective, starts_with, chars_of, has_at};

verus! {

broadcast use vstd::seq::group_seq_axioms;

/// One tracked file: its mode, the hex name of its blob, and its path.
#[derive(Debug, Clone, PartialEq)]
pub struct IndexEntry {
    pub mode: u32,
    pub sha: String,
    pub path: String,
}

/// The staging area.
#[derive(Debug, Clone)]
pub struct Index {
    pub entries: Vec<IndexEntry>,
}

/// Mathematical view of an index entry.
pub struct IndexEntryModel {
    pub mode: u32,
    pub sha: Seq<char>,
    pub path: Seq<char>,
}

impl View for IndexEntry {
    type V = IndexEntryModel;

    open spec fn view(&self) -> IndexEntryModel {
        IndexEntryModel { mode: self.mode, sha: self.sha@, path: self.path@ }
    }
}

/// The views of a list of entries.
pub open spec fn entry_models(v: Seq<IndexEntry>) -> Seq<IndexEntryModel> {
    v.map_values(|e: IndexEntry| e@)
}

impl View for Index {
    type V = Seq<IndexEntryModel>;

    open spec fn view(&self) -> Seq<IndexEntryModel> {
        entry_models(self.entries@)
    }
}

/// `true` when path `a` sorts before path `b` (byte order, as `str` compares).
pub open spec fn path_lt(a: Seq<char>, b: Seq<char>) -> bool {
    bytes_lt(utf8(a), utf8(b))
}

/// The index invariant: paths strictly increase, so none occurs twice.
pub open spec fn sorted_by_path(es: Seq<IndexEntryModel>) -> bool {
    forall|i: int, j: int| 0 <= i < j < es.len() ==> path_lt(#[trigger] es[i].path, #[trigger] es[j].path)
}

/// `true` when some entry has path `p`.
pub open spec fn has_path(es: Seq<IndexEntryModel>, p: Seq<char>) -> bool {
    exists|i: int| 0 <= i < es.len() && #[trigger] es[i].path == p
}

/// Keeps the entries whose path is not `p`.
pub open spec fn path_is_not(p: Seq<char>) -> spec_fn(IndexEntryModel) -> bool {
    |e: IndexEntryModel| e.path != p
}

/// Filtering keeps a sequence whose items all pass.
proof fn lemma_filter_keeps_all(s: Seq<IndexEntryModel>, pred: spec_fn(IndexEntryModel) -> bool)
    requires
        forall|i: int| 0 <= i < s.len() ==> pred(#[trigger] s[i]),
    ensures
        s.filter(pred) == s,
    decreases s.len(),
{
    reveal(Seq::filter);
    if s.len() > 0 {
        lemma_filter_keeps_all(s.drop_last(), pred);
        assert(s.drop_last().push(s.last()) =~= s);
    }
}

/// Removing a path from a sorted index is filtering that path out: what
/// `remove` reports is whether the path was there, and the index left holds
/// every other entry, in order.
pub proof fn law_remove_filters(old: Seq<IndexEntryModel>, p: Seq<char>, out: bool, new: Seq<IndexEntryModel>)
    requires
        removed(old, p, out, new),
        sorted_by_path(old),
    ensures
        out <==> has_path(old, p),
        new == old.filter(path_is_not(p)),
{
    let pred = path_is_not(p);
    if out {
        let k = choose|k: int| 0 <= k < old.len() && old[k].path == p && new == old.remove(k);
        let a = old.take(k);
        let b = old.skip(k + 1);
        let one = seq![old[k]];
        assert(old =~= a + one + b);
        assert(new =~= a + b);
        assert forall|i: int| 0 <= i < a.len() implies pred(#[trigger] a[i]) by {
            assert(a[i] == old[i]);
            assert(path_lt(old[i].path, old[k].path));
            lemma_bytes_lt_asym(utf8(p), utf8(p));
        }
        assert forall|i: int| 0 <= i < b.len() implies pred(#[trigger] b[i]) by {
            assert(b[i] == old[k + 1 + i]);
            assert(path_lt(old[k].path, old[k + 1 + i].path));
            lemma_bytes_lt_asym(utf8(p), utf8(p));
        }
        lemma_filter_keeps_all(a, pred);
        lemma_filter_keeps_all(b, pred);
        assert(one.filter(pred) =~= Seq::<IndexEntryModel>::empty()) by {
            reveal(Seq::filter);
            assert(one.drop_last() =~= Seq::<IndexEntryModel>::empty());
            assert(one.drop_last().filter(pred) =~= Seq::<IndexEntryModel>::empty());
            assert(one.last() == old[k]);
            assert(!pred(one.last()));
        }
        Seq::filter_distributes_over_add(a + one, b, pred);
        Seq::filter_distributes_over_add(a, one, pred);
        assert(a + Seq::<IndexEntryModel>::empty() =~= a);
    } else {
        assert forall|i: int| 0 <= i < old.len() implies pred(#[trigger] old[i]) by {
            if old[i].path == p {
                assert(has_path(old, p));
            }
        }
        lemma_filter_keeps_all(old, pred);
    }
}

/// The entry with path `p`, if there is one.
pub open spec fn lookup(es: Seq<IndexEntryModel>, p: Seq<char>) -> Option<IndexEntryModel> {
    if has_path(es, p) {
        Some(es[choose|i: int| 0 <= i < es.len() && #[trigger] es[i].path == p])
    } else {
        None
    }
}

/// In a sorted index, the entry found at a position is the one `lookup` gives.
pub proof fn lemma_lookup_at(es: Seq<IndexEntryModel>, i: int)
    requires
        sorted_by_path(es),
        0 <= i < es.len(),
    ensures
        lookup(es, es[i].path) == Some(es[i]),
{
    let p = es[i].path;
    assert(has_path(es, p));
    let j = choose|j: int| 0 <= j < es.len() && #[trigger] es[j].path == p;
    if j != i {
        lemma_bytes_lt_asym(utf8(p), utf8(p));
        if j < i {
            assert(path_lt(es[j].path, es[i].path));
        } else {
            assert(path_lt(es[i].path, es[j].path));
        }
    }
}

/// Under the index invariant, every entry before position `k` sorts below
/// `p` and no entry from `k` on does.
pub open spec fn splits_at(es: Seq<IndexEntryModel>, p: Seq<u8>, k: int) -> bool {
    &&& forall|i: int| 0 <= i < k ==> bytes_lt(utf8(#[trigger] es[i].path), p)
    &&& forall|i: int| k <= i < es.len() ==> !bytes_lt(utf8(#[trigger] es[i].path), p)
}

/// Binary search: the first position whose path does not sort below `p`.
fn lower_bound(entries: &Vec<IndexEntry>, p: &[u8]) -> (out: usize)
    ensures
        out <= entries@.len(),
        sorted_by_path(entry_models(entries@)) ==> splits_at(entry_models(entries@), p@, out as int),
{
    let ghost es = entry_models(entries@);
    let mut lo: usize = 0;
    let mut hi: usize = entries.len();
    while lo < hi
        invariant
            es == entry_models(entries@),
            lo <= hi <= entries@.len(),
            sorted_by_path(es) ==> forall|i: int| 0 <= i < lo ==> bytes_lt(utf8(#[trigger] es[i].path), p@),
            sorted_by_path(es) ==> forall|i: int| hi <= i < es.len() ==> !bytes_lt(utf8(#[trigger] es[i].path), p@),
        decreases hi - lo,
    {
        let mid = lo + (hi - lo) / 2;
        let below = bytes_less(entries[mid].path.as_str().as_bytes(), p);
        assert(es[mid as int] == entries@[mid as int]@);
        if below {
            proof {
                if sorted_by_path(es) {
                    assert forall|i: int| 0 <= i < mid + 1 implies bytes_lt(utf8(#[trigger] es[i].path), p@) by {
                        if i < mid {
                            assert(path_lt(es[i].path, es[mid as int].path));
                            lemma_bytes_lt_trans(utf8(es[i].path), utf8(es[mid as int].path), p@);
                        }
                    }
                }
            }
            lo = mid + 1;
        } else {
            proof {
                if sorted_by_path(es) {
                    assert forall|i: int| mid <= i < es.len() implies !bytes_lt(utf8(#[trigger] es[i].path), p@) by {
                        if i > mid && bytes_lt(utf8(es[i].path), p@) {
                            assert(path_lt(es[mid as int].path, es[i].path));
                            lemma_bytes_lt_trans(utf8(es[mid as int].path), utf8(es[i].path), p@);
                        }
                    }
                }
            }
            hi = mid;
        }
    }
    lo
}

/// Where an entry with path `p` is, or belongs: its position, and whether it
/// is there.
fn locate(entries: &Vec<IndexEntry>, path: &str) -> (out: (usize, bool))
    ensures
        out.0 <= entries@.len(),
        out.1 <==> out.0 < entries@.len() && entries@[out.0 as int].path@ == path@,
        sorted_by_path(entry_models(entries@)) ==> splits_at(entry_models(entries@), utf8(path@), out.0 as int),
{
    let p = path.as_bytes();
    let k = lower_bound(entries, p);
    if k < entries.len() {
        let q = entries[k].path.as_str().as_bytes();
        let same = bytes_eq(q, p);
        proof {
            if same {
                lemma_utf8_injective(entries@[k as int].path@, path@);
            }
        }
        (k, same)
    } else {
        (k, false)
    }
}

/// Inserting `e` at a split position of a sorted index where no entry has
/// its path keeps the index sorted.
proof fn lemma_insert_sorted(es: Seq<IndexEntryModel>, e: IndexEntryModel, k: int)
    requires
        sorted_by_path(es),
        0 <= k <= es.len(),
        splits_at(es, utf8(e.path), k),
        k < es.len() ==> es[k].path != e.path,
    ensures
        sorted_by_path(es.insert(k, e)),
        forall|i: int| k <= i < es.len() ==> path_lt(e.path, #[trigger] es[i].path),
{
    assert forall|i: int| k <= i < es.len() implies path_lt(e.path, #[trigger] es[i].path) by {
        if es[k].path == e.path {
        } else {
            if utf8(es[k].path) == utf8(e.path) {
                lemma_utf8_injective(es[k].path, e.path);
            }
            lemma_bytes_lt_total(utf8(es[k].path), utf8(e.path));
            if i > k {
                assert(path_lt(es[k].path, es[i].path));
                lemma_bytes_lt_trans(utf8(e.path), utf8(es[k].path), utf8(es[i].path));
            }
        }
    }
    let r = es.insert(k, e);
    assert forall|i: int, j: int| 0 <= i < j < r.len() implies path_lt(#[trigger] r[i].path, #[trigger] r[j].path) by {
        if j < k {
            assert(path_lt(es[i].path, es[j].path));
        } else if j == k {
            assert(bytes_lt(utf8(es[i].path), utf8(e.path)));
        } else if i < k {
            assert(bytes_lt(utf8(es[i].path), utf8(e.path)));
            assert(path_lt(e.path, es[j - 1].path));
            lemma_bytes_lt_trans(utf8(es[i].path), utf8(e.path), utf8(es[j - 1].path));
        } else if i == k {
            assert(path_lt(e.path, es[j - 1].path));
        } else {
            assert(path_lt(es[i - 1].path, es[j - 1].path));
        }
    }
}

/// In a sorted index split at `k` for `p`, when the entry at `k` (if any)
/// has another path, no entry has path `p`.
proof fn lemma_absent(es: Seq<IndexEntryModel>, p: Seq<char>, k: int)
    requires
        sorted_by_path(es),
        0 <= k <= es.len(),
        splits_at(es, utf8(p), k),
        k < es.len() ==> es[k].path != p,
    ensures
        !has_path(es, p),
{
    lemma_insert_sorted(es, IndexEntryModel { mode: 0, sha: Seq::empty(), path: p }, k);
    lemma_bytes_lt_asym(utf8(p), utf8(p));
    if has_path(es, p) {
        let i = choose|i: int| 0 <= i < es.len() && #[trigger] es[i].path == p;
        if i < k {
            assert(bytes_lt(utf8(es[i].path), utf8(p)));
        } else {
            assert(path_lt(p, es[i].path));
        }
    }
}

/// The directory prefix that `remove_dir` matches: the name with a
/// trailing `/`, added when missing.
pub open spec fn dir_prefix(dir: Seq<char>) -> Seq<char> {
    if dir.len() > 0 && dir.last() == '/' {
        dir
    } else {
        dir.push('/')
    }
}

/// The entries that `remove_dir` keeps: those whose path does not start with
/// the prefix.
pub open spec fn outside_dir(prefix: Seq<char>) -> spec_fn(IndexEntryModel) -> bool {
    |e: IndexEntryModel| !starts_with(e.path, prefix)
}

/// What `add` makes of an index `old` with the entry `e`: `e` replaces the
/// entry at some position that has its path, or is inserted at some
/// position; a sorted index stays sorted, `e` is then found under its path
/// and every other path finds what it found before, and the index grows by
/// one exactly when the path was new.
pub open spec fn added(old: Seq<IndexEntryModel>, e: IndexEntryModel, new: Seq<IndexEntryModel>) -> bool {
    &&& exists|k: int|
        0 <= k <= old.len() && ((k < old.len() && old[k].path == e.path && new == old.update(k, e)) || new
            == old.insert(k, e))
    &&& sorted_by_path(old) ==> sorted_by_path(new)
    &&& sorted_by_path(old) ==> forall|p: Seq<char>|
        #[trigger] lookup(new, p) == if p == e.path {
            Some(e)
        } else {
            lookup(old, p)
        }
    &&& sorted_by_path(old) ==> new.len() == old.len() + if has_path(old, e.path) {
        0int
    } else {
        1int
    }
}

/// What `remove` makes of an index `old` with path `p`, answering `out`:
/// when `out`, one entry with that path is removed, else nothing changes;
/// in a sorted index, `out` says whether the path was there, the index
/// stays sorted, and only that path stops being found.
pub open spec fn removed(old: Seq<IndexEntryModel>, p: Seq<char>, out: bool, new: Seq<IndexEntryModel>) -> bool {
    &&& out ==> exists|k: int| 0 <= k < old.len() && old[k].path == p && new == old.remove(k)
    &&& !out ==> new == old
    &&& sorted_by_path(old) ==> (out <==> has_path(old, p))
    &&& sorted_by_path(old) ==> sorted_by_path(new)
    &&& sorted_by_path(old) ==> forall|q: Seq<char>|
        #[trigger] lookup(new, q) == if q == p {
            None
        } else {
            lookup(old, q)
        }
}

impl Index {
    /// An empty index.
    pub fn new() -> (out: Index)
        ensures
            out@ == Seq::<IndexEntryModel>::empty(),
    {
        Index { entries: Vec::new() }
    }

    /// Adds an entry, or replaces the one with the same path, keeping the
    /// entries sorted by path.
    pub fn add(&mut self, entry: IndexEntry)
        ensures
            added(old(self)@, entry@, final(self)@),
    {
        let ghost es = self@;
        let ghost e = entry@;
        let (k, found) = locate(&self.entries, entry.path.as_str());
        if found {
            self.entries.set(k, entry);
            proof {
                assert(self@ == es.update(k as int, e));
                if sorted_by_path(es) {
                    let r = es.update(k as int, e);
                    assert(sorted_by_path(r)) by {
                        assert forall|i: int, j: int| 0 <= i < j < r.len() implies path_lt(
                            #[trigger] r[i].path,
                            #[trigger] r[j].path,
                        ) by {
                            assert(path_lt(es[i].path, es[j].path));
                        }
                    }
                    assert forall|p: Seq<char>| #[trigger] lookup(r, p) == if p == e.path {
                        Some(e)
                    } else {
                        lookup(es, p)
                    } by {
                        if p == e.path {
                            lemma_lookup_at(r, k as int);
                        } else if has_path(es, p) {
                            let i = choose|i: int| 0 <= i < es.len() && #[trigger] es[i].path == p;
                            lemma_lookup_at(es, i);
                            lemma_lookup_at(r, i);
                        } else {
                            if has_path(r, p) {
                                let i = choose|i: int| 0 <= i < r.len() && #[trigger] r[i].path == p;
                                assert(es[i].path == p);
                            }
                        }
                    }
                    lemma_lookup_at(es, k as int);
                }
            }
        } else {
            self.entries.insert(k, entry);
            proof {
                assert(self@ == es.insert(k as int, e));
                if sorted_by_path(es) {
                    lemma_insert_sorted(es, e, k as int);
                    let r = es.insert(k as int, e);
                    assert forall|p: Seq<char>| #[trigger] lookup(r, p) == if p == e.path {
                        Some(e)
                    } else {
                        lookup(es, p)
                    } by {
                        if p == e.path {
                            lemma_lookup_at(r, k as int);
                        } else if has_path(es, p) {
                            let i = choose|i: int| 0 <= i < es.len() && #[trigger] es[i].path == p;
                            lemma_lookup_at(es, i);
                            if i < k {
                                lemma_lookup_at(r, i);
                            } else {
                                lemma_lookup_at(r, i + 1);
                            }
                        } else {
                            if has_path(r, p) {
                                let i = choose|i: int| 0 <= i < r.len() && #[trigger] r[i].path == p;
                                if i < k {
                                    assert(es[i].path == p);
                                } else {
                                    assert(es[i - 1].path == p);
                                }
                            }
                        }
                    }
                    if has_path(es, e.path) {
                        let i = choose|i: int| 0 <= i < es.len() && #[trigger] es[i].path == e.path;
                        if i < k {
                            lemma_bytes_lt_asym(utf8(e.path), utf8(e.path));
                        } else if i > k {
                            lemma_bytes_lt_asym(utf8(e.path), utf8(e.path));
                        }
                    }
                }
            }
        }
    }

    /// Removes the entry with the given path; `true` when there was one.
    pub fn remove(&mut self, path: &str) -> (out: bool)
        ensures
            removed(old(self)@, path@, out, final(self)@),
    {
        let ghost es = self@;
        let (k, found) = locate(&self.entries, path);
        if found {
            assert(es[k as int].path == path@);
            self.entries.remove(k);
            proof {
                assert(self@ == es.remove(k as int));
                if sorted_by_path(es) {
                    let r = es.remove(k as int);
                    assert forall|i: int, j: int| 0 <= i < j < r.len() implies path_lt(
                        #[trigger] r[i].path,
                        #[trigger] r[j].path,
                    ) by {
                        if i < k && j >= k {
                            assert(path_lt(es[i].path, es[j + 1].path));
                        } else if i >= k {
                            assert(path_lt(es[i + 1].path, es[j + 1].path));
                        } else {
                            assert(path_lt(es[i].path, es[j].path));
                        }
                    }
                    assert forall|p: Seq<char>| #[trigger] lookup(r, p) == if p == path@ {
                        None
                    } else {
                        lookup(es, p)
                    } by {
                        if has_path(r, p) {
                            let i = choose|i: int| 0 <= i < r.len() && #[trigger] r[i].path == p;
                            lemma_lookup_at(r, i);
                            if i < k {
                                lemma_lookup_at(es, i);
                                assert(path_lt(es[i].path, es[k as int].path));
                            } else {
                                lemma_lookup_at(es, i + 1);
                                assert(path_lt(es[k as int].path, es[i + 1].path));
                            }
                            lemma_bytes_lt_asym(utf8(p), utf8(p));
                        } else if p != path@ && has_path(es, p) {
                            let i = choose|i: int| 0 <= i < es.len() && #[trigger] es[i].path == p;
                            if i < k {
                                assert(r[i].path == p);
                            } else {
                                assert(r[i - 1].path == p);
                            }
                        }
                    }
                }
            }
            true
        } else {
            proof {
                if sorted_by_path(es) {
                    lemma_absent(es, path@, k as int);
                }
            }
            false
        }
    }

    /// The entry with the given path.
    pub fn get(&self, path: &str) -> (out: Option<&IndexEntry>)
        ensures
            out matches Some(e) ==> e@.path == path@ && exists|k: int|
                0 <= k < self@.len() && self@[k] == e@,
            sorted_by_path(self@) ==> match out {
                Some(e) => lookup(self@, path@) == Some(e@),
                None => lookup(self@, path@) is None,
            },
    {
        let (k, found) = locate(&self.entries, path);
        if found {
            proof {
                assert(self@[k as int] == self.entries@[k as int]@);
                if sorted_by_path(self@) {
                    lemma_lookup_at(self@, k as int);
                }
            }
            Some(&self.entries[k])
        } else {
            proof {
                if sorted_by_path(self@) {
                    lemma_absent(self@, path@, k as int);
                }
            }
            None
        }
    }

    /// Removes every entry under the directory `dir` (a path that starts
    /// with `dir` followed by `/`).
    pub fn remove_dir(&mut self, dir: &str)
        ensures
            final(self)@ == old(self)@.filter(outside_dir(dir_prefix(dir@))),
            sorted_by_path(old(self)@) ==> sorted_by_path(final(self)@),
    {
        let ghost es = self@;
        let ghost pred = outside_dir(dir_prefix(dir@));
        let mut prefix = chars_of(dir);
        let n = prefix.len();
        if !(n > 0 && prefix[n - 1] == '/') {
            prefix.push('/');
        }
        assert(prefix@ == dir_prefix(dir@));
        let mut src: Vec<IndexEntry> = Vec::new();
        std::mem::swap(&mut src, &mut self.entries);
        let ghost srcv = src@;
        assert(entry_models(srcv) == es);
        let mut kept: Vec<IndexEntry> = Vec::new();
        for e in it: src.into_iter()
            invariant
                it.seq() == srcv,
                entry_models(srcv) == es,
                prefix@ == dir_prefix(dir@),
                pred == outside_dir(dir_prefix(dir@)),
                entry_models(kept@) == es.take(it.index() as int).filter(pred),
                sorted_by_path(es) ==> sorted_by_path(entry_models(kept@)),
                sorted_by_path(es) ==> forall|j: int, t: int|
                    0 <= j < kept@.len() && it.index() <= t < es.len() ==> path_lt(
                        #[trigger] kept@[j]@.path,
                        #[trigger] es[t].path,
                    ),
        {
            let ghost i = it.index() as int;
            assert(e@ == es[i]);
            let pc = chars_of(e.path.as_str());
            let inside = has_at(pc.as_slice(), 0, pc.len(), prefix.as_slice());
            assert(pc@.subrange(0, pc@.len() as int) == pc@);
            let ghost before = entry_models(kept@);
            proof {
                reveal(Seq::filter);
                assert(es.take(i + 1).drop_last() == es.take(i));
                assert(es.take(i + 1).last() == es[i]);
            }
            if !inside {
                kept.push(e);
                proof {
                    assert(entry_models(kept@) == before.push(es[i]));
                    if sorted_by_path(es) {
                        assert forall|j: int, t: int|
                            0 <= j < kept@.len() && i + 1 <= t < es.len() implies path_lt(
                            #[trigger] kept@[j]@.path,
                            #[trigger] es[t].path,
                        ) by {
                            if j < kept@.len() - 1 {
                                assert(path_lt(kept@[j]@.path, es[t].path));
                            } else {
                                assert(path_lt(es[i].path, es[t].path));
                            }
                        }
                        let r = entry_models(kept@);
                        assert forall|a: int, b: int| 0 <= a < b < r.len() implies path_lt(
                            #[trigger] r[a].path,
                            #[trigger] r[b].path,
                        ) by {
                            if b < r.len() - 1 {
                                assert(path_lt(before[a].path, before[b].path));
                            } else {
                                assert(path_lt(kept@[a]@.path, es[i].path));
                            }
                        }
                    }
                }
            }
        }
        proof {
            assert(es.take(es.len() as int) == es);
        }
        self.entries = kept;
    }
}

// ---------------------------------------------------------------------------
// The binary form
// ---------------------------------------------------------------------------

/// The format version written in the first byte.
pub const INDEX_VERSION: u8 = 1;

/// Big-endian bytes of a 32-bit number.
pub open spec fn be_u32(v: u32) -> Seq<u8> {
    seq![(v / 16777216) as u8, ((v / 65536) % 256) as u8, ((v / 256) % 256) as u8, (v % 256) as u8]
}

/// Big-endian bytes of a 16-bit number.
pub open spec fn be_u16(v: u16) -> Seq<u8> {
    seq![(v / 256) as u8, (v % 256) as u8]
}

/// The 32-bit big-endian number at `data[i..i + 4]`.
pub open spec fn read_be_u32(data: Seq<u8>, i: int) -> u32 {
    (data[i] * 16777216 + data[i + 1] * 65536 + data[i + 2] * 256 + data[i + 3]) as u32
}

/// The 16-bit big-endian number at `data[i..i + 2]`.
pub open spec fn read_be_u16(data: Seq<u8>, i: int) -> nat {
    (data[i] * 256 + data[i + 1]) as nat
}

/// Every entry names its blob with decodable hex.
pub open spec fn shas_decode(es: Seq<IndexEntryModel>) -> bool {
    forall|i: int| 0 <= i < es.len() ==> (#[trigger] hex_decode(utf8(es[i].sha))) is Some
}

/// The bytes of one entry: mode, raw SHA-1, path length (kept to 16 bits),
/// and the path.
pub open spec fn entry_bytes(e: IndexEntryModel) -> Seq<u8> {
    be_u32(e.mode) + hex_decode(utf8(e.sha))->0 + be_u16((utf8(e.path).len() % 65536) as u16) + utf8(
        e.path,
    )
}

/// The bytes of a list of entries, one after the other.
pub open spec fn entries_bytes(es: Seq<IndexEntryModel>) -> Seq<u8>
    decreases es.len(),
{
    if es.len() == 0 {
        Seq::empty()
    } else {
        entry_bytes(es[0]) + entries_bytes(es.drop_first())
    }
}

/// The bytes of an index: version, entry count (kept to 32 bits), entries.
pub open spec fn index_bytes(es: Seq<IndexEntryModel>) -> Seq<u8> {
    seq![INDEX_VERSION] + be_u32((es.len() % 4294967296) as u32) + entries_bytes(es)
}

/// Reads `count` entries starting at byte `i`; `None` when the data ends
/// early or a path is not UTF-8. Bytes after the last entry are ignored.
pub open spec fn read_entries(data: Seq<u8>, i: int, count: nat) -> Option<Seq<IndexEntryModel>>
    decreases count,
{
    if count == 0 {
        Some(Seq::empty())
    } else if i < 0 || i + 26 > data.len() {
        None
    } else {
        let end = i + 26 + read_be_u16(data, i + 24);
        if end > data.len() {
            None
        } else {
            let pb = data.subrange(i + 26, end);
            if !valid_utf8(pb) {
                None
            } else {
                match read_entries(data, end, (count - 1) as nat) {
                    Some(rest) => Some(
                        seq![
                            IndexEntryModel {
                                mode: read_be_u32(data, i),
                                sha: hex_encode(data.subrange(i + 4, i + 24)),
                                path: decode_utf8(pb),
                            },
                        ] + rest,
                    ),
                    None => None,
                }
            }
        }
    }
}

/// What reading an index file gives: `None` for a wrong version byte or
/// truncated data.
pub open spec fn parse_index(data: Seq<u8>) -> Option<Seq<IndexEntryModel>> {
    if data.len() < 5 || data[0] != INDEX_VERSION {
        None
    } else {
        read_entries(data, 5, read_be_u32(data, 1) as nat)
    }
}

/// Appending one entry to a list appends its bytes.
proof fn lemma_entries_bytes_push(es: Seq<IndexEntryModel>, e: IndexEntryModel)
    ensures
        entries_bytes(es.push(e)) == entries_bytes(es) + entry_bytes(e),
    decreases es.len(),
{
    let r = es.push(e);
    assert(r.len() > 0);
    assert(entries_bytes(r) == entry_bytes(r[0]) + entries_bytes(r.drop_first()));
    if es.len() > 0 {
        assert(r[0] == es[0]);
        assert(es.push(e).drop_first() == es.drop_first().push(e));
        lemma_entries_bytes_push(es.drop_first(), e);
        assert(entry_bytes(es[0]) + (entries_bytes(es.drop_first()) + entry_bytes(e)) == (entry_bytes(es[0])
            + entries_bytes(es.drop_first())) + entry_bytes(e));
    } else {
        assert(es.push(e).drop_first() =~= Seq::<IndexEntryModel>::empty());
        assert(entries_bytes(es) =~= Seq::<u8>::empty());
        assert(entry_bytes(e) + Seq::<u8>::empty() =~= entry_bytes(e));
    }
}

/// Appends the big-endian bytes of a 32-bit number.
fn push_be_u32(buf: &mut Vec<u8>, v: u32)
    ensures
        final(buf)@ == old(buf)@ + be_u32(v),
{
    buf.push((v / 16777216) as u8);
    buf.push(((v / 65536) % 256) as u8);
    buf.push(((v / 256) % 256) as u8);
    buf.push((v % 256) as u8);
}

/// The message for the first problem in the entries from position `i` on,
/// `count` of them to read (the empty text when there is none).
pub open spec fn entries_error(data: Seq<u8>, i: int, count: nat) -> Seq<char>
    decreases count,
{
    if count == 0 || i < 0 {
        Seq::empty()
    } else if i + 4 > data.len() {
        "truncated index entry"@
    } else if i + 24 > data.len() {
        "truncated index entry sha"@
    } else if i + 26 > data.len() {
        "truncated index entry path length"@
    } else {
        let end = i + 26 + read_be_u16(data, i + 24);
        if end > data.len() {
            "truncated index entry path"@
        } else if !valid_utf8(data.subrange(i + 26, end)) {
            "invalid UTF-8 in index path"@
        } else {
            entries_error(data, end, (count - 1) as nat)
        }
    }
}

/// The message for bytes that are not an index: the first problem met.
pub open spec fn index_error(data: Seq<u8>) -> Seq<char> {
    if data.len() < 1 {
        "truncated index"@
    } else if data[0] != INDEX_VERSION {
        "unsupported index version: "@ + dec_chars(data[0] as int)
    } else if data.len() < 5 {
        "truncated index header"@
    } else {
        entries_error(data, 5, read_be_u32(data, 1) as nat)
    }
}

impl Index {
    /// The binary form of the index. Each entry's name must be hex.
    pub fn serialize(&self) -> (out: Vec<u8>)
        requires
            shas_decode(self@),
        ensures
            out@ == index_bytes(self@),
    {
        let ghost es = self@;
        let mut buf: Vec<u8> = Vec::new();
        buf.push(INDEX_VERSION);
        let count = ((self.entries.len() as u64) % 4294967296) as u32;
        push_be_u32(&mut buf, count);
        let mut i: usize = 0;
        while i < self.entries.len()
            invariant
                es == self@,
                shas_decode(es),
                i <= es.len(),
                buf@ == seq![INDEX_VERSION] + be_u32((es.len() % 4294967296) as u32) + entries_bytes(
                    es.take(i as int),
                ),
            decreases es.len() - i,
        {
            let entry = &self.entries[i];
            assert(entry@ == es[i as int]);
            let ghost before = buf@;
            push_be_u32(&mut buf, entry.mode);
            proof {
                assert(hex_decode(utf8(es[i as int].sha)) is Some);
                lemma_decoded_no_bad_pair(utf8(entry.sha@), 0);
            }
            match hex_to_bytes(entry.sha.as_str()) {
                Ok(sha) => {
                    push_bytes(&mut buf, sha.as_slice(), 0, sha.len());
                    assert(sha@.subrange(0, sha@.len() as int) == sha@);
                },
                Err(_) => {
                    assert(hex_decode(utf8(es[i as int].sha)) is Some);
                },
            }
            let pb = entry.path.as_str().as_bytes();
            let plen = ((pb.len() as u64) % 65536) as u16;
            buf.push((plen / 256) as u8);
            buf.push((plen % 256) as u8);
            push_bytes(&mut buf, pb, 0, pb.len());
            proof {
                assert(pb@.subrange(0, pb@.len() as int) == pb@);
                assert(buf@ == before + entry_bytes(es[i as int]));
                assert(es.take(i + 1) == es.take(i as int).push(es[i as int]));
                lemma_entries_bytes_push(es.take(i as int), es[i as int]);
            }
            i = i + 1;
        }
        assert(es.take(es.len() as int) == es);
        buf
    }

    /// Reads an index from its binary form.
    pub fn deserialize(data: &[u8]) -> (out: Result<Index, String>)
        ensures
            out is Ok <==> parse_index(data@) is Some,
            out matches Ok(ix) ==> ix@ == parse_index(data@)->0,
            out matches Err(e) ==> e@ == index_error(data@),
    {
        if data.len() < 1 {
            return Err(String::from_str("truncated index"));
        }
        if data[0] != INDEX_VERSION {
            let mut msg = String::from_str("unsupported index version: ");
            push_decimal(&mut msg, data[0] as usize);
            return Err(msg);
        }
        if data.len() < 5 {
            return Err(String::from_str("truncated index header"));
        }
        let count = (data[1] as u32) * 16777216 + (data[2] as u32) * 65536 + (data[3] as u32) * 256
            + (data[4] as u32);
        assert(count == read_be_u32(data@, 1));
        let mut entries: Vec<IndexEntry> = Vec::new();
        let mut i: usize = 5;
        let mut c: u32 = 0;
        while c < count
            invariant
                5 <= i <= data@.len(),
                c <= count,
                count == read_be_u32(data@, 1),
                read_entries(data@, 5, count as nat) is Some <==> read_entries(
                    data@,
                    i as int,
                    (count - c) as nat,
                ) is Some,
                read_entries(data@, 5, count as nat) is Some ==> read_entries(data@, 5, count as nat)->0
                    == entry_models(entries@) + read_entries(data@, i as int, (count - c) as nat)->0,
                entries_error(data@, 5, count as nat) == entries_error(data@, i as int, (count - c) as nat),
                data@[0] == INDEX_VERSION,
            decreases count - c,
        {
            if data.len() - i < 4 {
                return Err(String::from_str("truncated index entry"));
            }
            let mode = (data[i] as u32) * 16777216 + (data[i + 1] as u32) * 65536 + (data[i + 2] as u32)
                * 256 + (data[i + 3] as u32);
            if data.len() - i < 24 {
                return Err(String::from_str("truncated index entry sha"));
            }
            let sha = bytes_to_hex(slice_subrange(data, i + 4, i + 24));
            if data.len() - i < 26 {
                return Err(String::from_str("truncated index entry path length"));
            }
            let plen = (data[i + 24] as usize) * 256 + (data[i + 25] as usize);
            if data.len() - i - 26 < plen {
                return Err(String::from_str("truncated index entry path"));
            }
            let end = i + 26 + plen;
            let path = match string_from_utf8(copy_bytes(data, i + 26, end)) {
                Some(p) => p,
                None => {
                    return Err(String::from_str("invalid UTF-8 in index path"));
                },
            };
            let entry = IndexEntry { mode, sha, path };
            let ghost before = entry_models(entries@);
            entries.push(entry);
            proof {
                assert(entry_models(entries@) == before.push(entry@));
                let rest = read_entries(data@, end as int, (count - c - 1) as nat);
                assert(read_entries(data@, i as int, (count - c) as nat) == if rest is Some {
                    Some(seq![entry@] + rest->0)
                } else {
                    None::<Seq<IndexEntryModel>>
                });
                if rest is Some {
                    assert(before.push(entry@) + rest->0 == before + (seq![entry@] + rest->0));
                }
            }
            i = end;
            c = c + 1;
        }
        assert(read_entries(data@, i as int, 0) == Some(Seq::<IndexEntryModel>::empty()));
        assert(entry_models(entries@) + Seq::<IndexEntryModel>::empty() == entry_models(entries@));
        Ok(Index { entries })
    }
}

// ---------------------------------------------------------------------------
// Reading back what was written
// ---------------------------------------------------------------------------

/// The four big-endian bytes of a number read back as that number.
proof fn lemma_be_u32_read(data: Seq<u8>, i: int, v: u32)
    requires
        0 <= i,
        i + 4 <= data.len(),
        data.subrange(i, i + 4) == be_u32(v),
    ensures
        read_be_u32(data, i) == v,
{
    assert(data[i] == data.subrange(i, i + 4)[0]);
    assert(data[i + 1] == data.subrange(i, i + 4)[1]);
    assert(data[i + 2] == data.subrange(i, i + 4)[2]);
    assert(data[i + 3] == data.subrange(i, i + 4)[3]);
    let (a, b, c, d) = (data[i], data[i + 1], data[i + 2], data[i + 3]);
    assert(a == (v / 16777216) as u8 && b == ((v / 65536) % 256) as u8 && c == ((v / 256) % 256) as u8 && d
        == (v % 256) as u8 ==> (a * 16777216 + b * 65536 + c * 256 + d) as u32 == v) by (bit_vector);
}

/// The two big-endian bytes of a number below 65536 read back as that number.
proof fn lemma_be_u16_read(data: Seq<u8>, i: int, n: nat)
    requires
        0 <= i,
        i + 2 <= data.len(),
        n < 65536,
        data.subrange(i, i + 2) == be_u16((n % 65536) as u16),
    ensures
        read_be_u16(data, i) == n,
{
    assert(data[i] == data.subrange(i, i + 2)[0]);
    assert(data[i + 1] == data.subrange(i, i + 2)[1]);
    let v = (n % 65536) as u16;
    assert(v == n);
    let (a, b) = (data[i], data[i + 1]);
    assert(a == (v / 256) as u8 && b == (v % 256) as u8 ==> a * 256 + b == v) by (bit_vector);
}

/// What the index can hold so that reading its bytes gives it back: lowercase
/// 40-digit names, paths shorter than 65536 bytes, fewer than 2^32 entries.
pub open spec fn storable(es: Seq<IndexEntryModel>) -> bool {
    &&& es.len() < 4294967296
    &&& forall|i: int| 0 <= i < es.len() ==> is_lower_sha(#[trigger] es[i].sha)
    &&& forall|i: int| 0 <= i < es.len() ==> utf8(#[trigger] es[i].path).len() < 65536
}

/// The entries' bytes, placed at position `i` of some data, read back as the entries.
proof fn lemma_read_entries(data: Seq<u8>, i: int, es: Seq<IndexEntryModel>)
    requires
        storable(es),
        0 <= i,
        i + entries_bytes(es).len() <= data.len(),
        data.subrange(i, i + entries_bytes(es).len()) == entries_bytes(es),
    ensures
        read_entries(data, i, es.len()) == Some(es),
    decreases es.len(),
{
    if es.len() > 0 {
        let e = es[0];
        let rest = es.drop_first();
        assert(storable(rest)) by {
            assert forall|j: int| 0 <= j < rest.len() implies is_lower_sha(#[trigger] rest[j].sha) by {
                assert(rest[j] == es[j + 1]);
            }
            assert forall|j: int| 0 <= j < rest.len() implies utf8(#[trigger] rest[j].path).len() < 65536 by {
                assert(rest[j] == es[j + 1]);
            }
        }
        assert(is_lower_sha(es[0].sha));
        assert(utf8(es[0].path).len() < 65536);
        crate::object_laws::lemma_hex_roundtrip(e.sha);
        let sb = hex_decode(utf8(e.sha))->0;
        let pb = utf8(e.path);
        let n = pb.len();
        let eb = entry_bytes(e);
        assert(eb == be_u32(e.mode) + sb + be_u16((n % 65536) as u16) + pb);
        assert(eb.len() == 26 + n);
        let all = entries_bytes(es);
        assert(all == eb + entries_bytes(rest));
        let w = data.subrange(i, i + all.len());
        assert(data.subrange(i, i + 4) == be_u32(e.mode)) by {
            assert forall|k: int| 0 <= k < 4 implies data.subrange(i, i + 4)[k] == be_u32(e.mode)[k] by {
                assert(w[k] == data[i + k]);
                assert(all[k] == eb[k]);
            }
        }
        lemma_be_u32_read(data, i, e.mode);
        assert(data.subrange(i + 4, i + 24) == sb) by {
            assert forall|k: int| 0 <= k < 20 implies data.subrange(i + 4, i + 24)[k] == sb[k] by {
                assert(w[k + 4] == data[i + 4 + k]);
                assert(all[k + 4] == eb[k + 4]);
            }
        }
        let lb = be_u16((n % 65536) as u16);
        assert(data.subrange(i + 24, i + 26) == lb) by {
            assert forall|k: int| 0 <= k < 2 implies #[trigger] data.subrange(i + 24, i + 26)[k] == lb[k] by {
                assert(w[k + 24] == data[i + 24 + k]);
                assert(all[k + 24] == eb[k + 24]);
            }
        }
        lemma_be_u16_read(data, i + 24, n);
        let end = i + 26 + n;
        assert(data.subrange(i + 26, end) == pb) by {
            assert forall|k: int| 0 <= k < n implies data.subrange(i + 26, end)[k] == pb[k] by {
                assert(w[k + 26] == data[i + 26 + k]);
                assert(all[k + 26] == eb[k + 26]);
            }
        }
        vstd::utf8::encode_utf8_valid_utf8(e.path);
        vstd::utf8::encode_utf8_decode_utf8(e.path);
        let rb = entries_bytes(rest);
        assert(data.subrange(end, end + rb.len()) == rb) by {
            assert forall|k: int| 0 <= k < rb.len() implies data.subrange(end, end + rb.len())[k] == rb[k] by {
                assert(w[k + 26 + n] == data[end + k]);
                assert(all[k + 26 + n] == rb[k]);
            }
        }
        lemma_read_entries(data, end, rest);
        assert(read_entries(data, i, es.len()) == Some(seq![e] + rest));
        assert(seq![e] + rest == es);
    }
}

/// Writing an index and reading the bytes back gives the same entries, for
/// every index whose names are lowercase hex, whose paths are shorter than
/// 65536 bytes and that has fewer than 2^32 entries.
pub proof fn law_index_roundtrip(es: Seq<IndexEntryModel>)
    requires
        storable(es),
    ensures
        shas_decode(es),
        parse_index(index_bytes(es)) == Some(es),
{
    assert forall|i: int| 0 <= i < es.len() implies (#[trigger] hex_decode(utf8(es[i].sha))) is Some by {
        crate::object_laws::lemma_hex_roundtrip(es[i].sha);
    }
    let data = index_bytes(es);
    let c = (es.len() % 4294967296) as u32;
    assert(c == es.len());
    assert(data.subrange(1, 5) == be_u32(c));
    lemma_be_u32_read(data, 1, c);
    let eb = entries_bytes(es);
    assert(data.subrange(5, 5 + eb.len() as int) == eb);
    lemma_read_entries(data, 5, es);
}

/// Adding an entry whose path is not in a sorted index and then removing
/// that path gives back the index, and the removal reports that the path
/// was there.
pub proof fn law_add_then_remove(
    es: Seq<IndexEntryModel>,
    e: IndexEntryModel,
    with_e: Seq<IndexEntryModel>,
    out: bool,
    after: Seq<IndexEntryModel>,
)
    requires
        sorted_by_path(es),
        !has_path(es, e.path),
        added(es, e, with_e),
        removed(with_e, e.path, out, after),
    ensures
        out,
        after == es,
{
    let k = choose|k: int|
        0 <= k <= es.len() && ((k < es.len() && es[k].path == e.path && with_e == es.update(k, e)) || with_e
            == es.insert(k, e));
    if k < es.len() && es[k].path == e.path {
        assert(has_path(es, e.path));
    }
    assert(with_e == es.insert(k, e));
    assert(with_e[k] == e);
    assert(has_path(with_e, e.path));
    let j = choose|j: int| 0 <= j < with_e.len() && with_e[j].path == e.path && after == with_e.remove(j);
    if j != k {
        lemma_bytes_lt_asym(utf8(e.path), utf8(e.path));
        if j < k {
            assert(path_lt(with_e[j].path, with_e[k].path));
        } else {
            assert(path_lt(with_e[k].path, with_e[j].path));
        }
    }
    assert(after =~= es);
}

} // verus!
