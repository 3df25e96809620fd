//! References and trees: which ref names are allowed, what HEAD says, and
//! how the entries of a tree become paths.

use vstd::prelude::*;
use crate::object::{TreeEntry, TreeEntryModel};
use crate::index::path_lt;
use crate::merge::string_views;
use crate::text::{bytes_less, chars_of, contains_seq, occurs_at, has_char, has_pair, lemma_bytes_lt_asym, lemma_bytes_lt_total, lemma_bytes_lt_trans, starts_with, str_eq, strip_prefix, string_push, trim, trimmed, utf8};

verus! {

broadcast use vstd::seq::group_seq_axioms;

// ---------------------------------------------------------------------------
// Ref names
// ---------------------------------------------------------------------------

/// A branch or tag name that cannot leave the refs directory: no `..`, no
/// `//`, no NUL, not starting with `/` or `-`, not ending with `/` or `.`.
pub open spec fn valid_ref_name(n: Seq<char>) -> bool {
    &&& !contains_seq(n, seq!['.', '.'])
    &&& !(n.len() > 0 && n[0] == '/')
    &&& !(n.len() > 0 && n[0] == '-')
    &&& !n.contains('\0')
    &&& !(n.len() > 0 && n.last() == '/')
    &&& !(n.len() > 0 && n.last() == '.')
    &&& !contains_seq(n, seq!['/', '/'])
}

/// Two characters stand next to each other in `n` exactly when the pair
/// occurs in it.
proof fn lemma_pair_occurs(n: Seq<char>, a: char, b: char)
    ensures
        contains_seq(n, seq![a, b]) <==> exists|i: int| #![trigger n[i]] 0 <= i < n.len() - 1 && n[i] == a && n[i + 1] == b,
{
    if contains_seq(n, seq![a, b]) {
        let i = choose|i: int| occurs_at(n, seq![a, b], i);
        assert(n.subrange(i, i + 2)[0] == n[i]);
        assert(n.subrange(i, i + 2)[1] == n[i + 1]);
    }
    if exists|i: int| #![trigger n[i]] 0 <= i < n.len() - 1 && n[i] == a && n[i + 1] == b {
        let i = choose|i: int| #![trigger n[i]] 0 <= i < n.len() - 1 && n[i] == a && n[i + 1] == b;
        assert(n.subrange(i, i + 2) =~= seq![a, b]);
        assert(occurs_at(n, seq![a, b], i));
    }
}

/// What makes a ref name valid, character by character: it is refused
/// exactly when two dots or two slashes stand next to each other, it holds
/// a NUL, it starts with `/` or `-`, or it ends with `/` or `.`. A `-`
/// anywhere but first, as in `fix-bug`, is fine.
pub proof fn law_ref_name(n: Seq<char>)
    ensures
        valid_ref_name(n) <==> {
            &&& forall|i: int| #![trigger n[i]] 0 <= i < n.len() - 1 ==> !(n[i] == '.' && n[i + 1] == '.')
            &&& forall|i: int| #![trigger n[i]] 0 <= i < n.len() - 1 ==> !(n[i] == '/' && n[i + 1] == '/')
            &&& forall|i: int| 0 <= i < n.len() ==> #[trigger] n[i] != '\0'
            &&& n.len() > 0 ==> n[0] != '/' && n[0] != '-' && n[n.len() - 1] != '/' && n[n.len() - 1] != '.'
        },
{
    lemma_pair_occurs(n, '.', '.');
    lemma_pair_occurs(n, '/', '/');
    if n.contains('\0') {
        let i = choose|i: int| 0 <= i < n.len() && n[i] == '\0';
        assert(n[i] == '\0');
    }
    if exists|i: int| 0 <= i < n.len() && #[trigger] n[i] == '\0' {
        let i = choose|i: int| 0 <= i < n.len() && #[trigger] n[i] == '\0';
        assert(n.contains(n[i]));
    }
    assert(n.len() > 0 ==> n.last() == n[n.len() - 1]);
}

/// Accepts a branch or tag name only when it is safe as a path under refs.
pub fn validate_ref_name(name: &str) -> (out: Result<(), String>)
    ensures
        out is Ok <==> valid_ref_name(name@),
        out matches Err(m) ==> m@ == "invalid ref name: '"@ + name@ + "'"@,
{
    let cs = chars_of(name);
    let n = cs.len();
    let bad = has_pair(cs.as_slice(), '.', '.') || (n > 0 && cs[0] == '/') || (n > 0 && cs[0] == '-')
        || has_char(cs.as_slice(), '\0') || (n > 0 && cs[n - 1] == '/') || (n > 0 && cs[n - 1] == '.')
        || has_pair(cs.as_slice(), '/', '/');
    if bad {
        let mut m = String::from_str("invalid ref name: '");
        m.append(name);
        m.append("'");
        return Err(m);
    }
    Ok(())
}

// ---------------------------------------------------------------------------
// HEAD
// ---------------------------------------------------------------------------

/// `ref: `, which starts a HEAD that names a ref.
pub open spec fn ref_marker() -> Seq<char> {
    "ref: "@
}

/// `ref: refs/heads/`, which starts a HEAD on a branch.
pub open spec fn branch_marker() -> Seq<char> {
    "ref: refs/heads/"@
}

/// The ref HEAD's text points to (the trimmed text after `ref: `), or
/// `None` when HEAD holds a commit name (detached).
pub open spec fn head_ref_of(content: Seq<char>) -> Option<Seq<char>> {
    if starts_with(trim(content), ref_marker()) {
        Some(trim(content).skip(ref_marker().len() as int))
    } else {
        None
    }
}

/// The ref HEAD points to, or `None` when HEAD is detached.
pub fn head_ref(content: &str) -> (out: Option<String>)
    ensures
        match out {
            Some(r) => head_ref_of(content@) == Some(r@),
            None => head_ref_of(content@) is None,
        },
{
    let t = trimmed(content);
    strip_prefix(t.as_str(), "ref: ")
}

/// The text of a ref or of a detached HEAD: the commit name, trimmed.
pub fn ref_value(content: &str) -> (out: String)
    ensures
        out@ == trim(content@),
{
    trimmed(content)
}

/// A ref path that HEAD may name: under `refs/` and without `..`.
pub open spec fn head_ref_path_ok(path: Seq<char>) -> bool {
    starts_with(path, "refs/"@) && !contains_seq(path, seq!['.', '.'])
}

/// Refuses a HEAD ref path outside `refs/` or with `..`.
pub fn check_head_ref(path: &str) -> (out: Result<(), String>)
    ensures
        out is Ok <==> head_ref_path_ok(path@),
        out matches Err(m) ==> m@ == "invalid HEAD ref path: "@ + path@,
{
    let under_refs = strip_prefix(path, "refs/").is_some();
    let cs = chars_of(path);
    if !under_refs || has_pair(cs.as_slice(), '.', '.') {
        let mut m = String::from_str("invalid HEAD ref path: ");
        m.append(path);
        return Err(m);
    }
    Ok(())
}

/// The branch HEAD is on: the trimmed text after `ref: refs/heads/`.
pub open spec fn branch_of(content: Seq<char>) -> Option<Seq<char>> {
    if starts_with(trim(content), branch_marker()) {
        Some(trim(content).skip(branch_marker().len() as int))
    } else {
        None
    }
}

/// The current branch, or `None` when HEAD is not on a branch.
pub fn current_branch(content: &str) -> (out: Option<String>)
    ensures
        match out {
            Some(b) => branch_of(content@) == Some(b@),
            None => branch_of(content@) is None,
        },
{
    let t = trimmed(content);
    strip_prefix(t.as_str(), "ref: refs/heads/")
}

/// What a ref file holds: the commit name and a newline.
pub fn ref_line(sha: &str) -> (out: String)
    ensures
        out@ == sha@.push('\n'),
{
    let mut s = String::from_str(sha);
    string_push(&mut s, '\n');
    s
}

// ---------------------------------------------------------------------------
// Listing refs
// ---------------------------------------------------------------------------

/// Non-decreasing in byte order.
pub open spec fn names_in_order(ns: Seq<Seq<char>>) -> bool {
    forall|i: int, j: int| 0 <= i < j < ns.len() ==> !path_lt(#[trigger] ns[j], #[trigger] ns[i])
}

/// Sorts names by their bytes, as `sort` does on strings; equal names keep
/// their order.
pub fn sort_names(names: Vec<String>) -> (out: Vec<String>)
    ensures
        names_in_order(string_views(out@)),
        string_views(out@).to_multiset() == string_views(names@).to_multiset(),
{
    let mut out: Vec<String> = Vec::new();
    let mut i: usize = 0;
    assert(string_views(out@) == string_views(names@.subrange(0, 0)));
    while i < names.len()
        invariant
            i <= names@.len(),
            names_in_order(string_views(out@)),
            string_views(out@).to_multiset() == string_views(names@.subrange(0, i as int)).to_multiset(),
        decreases names@.len() - i,
    {
        let name = &names[i];
        let ghost d = name@;
        let ghost ns = string_views(out@);
        let mut k: usize = 0;
        while k < out.len() && !bytes_less(name.as_str().as_bytes(), out[k].as_str().as_bytes())
            invariant
                k <= out@.len(),
                ns == string_views(out@),
                d == name@,
                forall|m: int| 0 <= m < k ==> !path_lt(d, #[trigger] ns[m]),
            decreases out@.len() - k,
        {
            k = k + 1;
        }
        out.insert(k, name.clone());
        proof {
            let ns2 = string_views(out@);
            assert(ns2 == ns.insert(k as int, d));
            assert forall|a: int, b: int| 0 <= a < b < ns2.len() implies !path_lt(#[trigger] ns2[b], #[trigger] ns2[a]) by {
                lemma_name_order(ns, k as int, d, a, b);
            }
            assert(names@.subrange(0, i + 1) == names@.subrange(0, i as int).push(names@[i as int]));
            assert(string_views(names@.subrange(0, i + 1)) == string_views(names@.subrange(0, i as int)).push(d));
            vstd::seq_lib::to_multiset_insert(ns, k as int, d);
            vstd::seq_lib::to_multiset_build(string_views(names@.subrange(0, i as int)), d);
        }
        i = i + 1;
    }
    assert(names@.subrange(0, names@.len() as int) == names@);
    out
}

/// Placing a name after those not above it and before the first one above
/// it keeps the order.
proof fn lemma_name_order(ns: Seq<Seq<char>>, k: int, d: Seq<char>, a: int, b: int)
    requires
        names_in_order(ns),
        0 <= k <= ns.len(),
        forall|m: int| 0 <= m < k ==> !path_lt(d, #[trigger] ns[m]),
        k < ns.len() ==> path_lt(d, ns[k]),
        0 <= a < b < ns.len() + 1,
    ensures
        !path_lt(ns.insert(k, d)[b], ns.insert(k, d)[a]),
{
    let ns2 = ns.insert(k, d);
    if b < k {
        assert(!path_lt(ns[b], ns[a]));
    } else if b == k {
        assert(!path_lt(d, ns[a]));
    } else if a < k {
        // ns[b - 1] is at least ns[k], which is above d, which is at least ns[a]
        let x = ns[a];
        let y = ns[b - 1];
        assert(path_lt(d, ns[k]));
        if utf8(ns[k]) != utf8(y) {
            lemma_bytes_lt_total(utf8(ns[k]), utf8(y));
            if k < b - 1 {
                assert(!path_lt(y, ns[k]));
            }
            lemma_bytes_lt_trans(utf8(d), utf8(ns[k]), utf8(y));
        }
        assert(path_lt(d, y));
        if path_lt(y, x) {
            if utf8(d) != utf8(x) {
                lemma_bytes_lt_total(utf8(d), utf8(x));
                lemma_bytes_lt_trans(utf8(x), utf8(d), utf8(y));
                lemma_bytes_lt_asym(utf8(x), utf8(y));
            } else {
                lemma_bytes_lt_asym(utf8(d), utf8(y));
            }
        }
    } else if a == k {
        let y = ns[b - 1];
        assert(path_lt(d, ns[k]));
        if utf8(ns[k]) != utf8(y) {
            lemma_bytes_lt_total(utf8(ns[k]), utf8(y));
            if k < b - 1 {
                assert(!path_lt(y, ns[k]));
            }
            lemma_bytes_lt_trans(utf8(d), utf8(ns[k]), utf8(y));
        }
        lemma_bytes_lt_asym(utf8(d), utf8(y));
    } else {
        assert(!path_lt(ns[b - 1], ns[a - 1]));
    }
}

/// The text of one line of the branch list.
pub open spec fn branch_line_text(branch: Seq<char>, current: Option<Seq<char>>) -> Seq<char> {
    if current == Some(branch) {
        seq!['*', ' '] + branch
    } else {
        seq![' ', ' '] + branch
    }
}

/// The lines of the branch list: the current branch marked with `*`.
pub fn branch_lines(branches: &Vec<String>, current: Option<&str>) -> (out: Vec<String>)
    ensures
        out@.len() == branches@.len(),
        forall|i: int| 0 <= i < out@.len() ==> #[trigger] out@[i]@ == branch_line_text(branches@[i]@, match current {
            Some(c) => Some(c@),
            None => None,
        }),
{
    let ghost cur = match current {
        Some(c) => Some(c@),
        None => None,
    };
    let mut out: Vec<String> = Vec::new();
    let mut i: usize = 0;
    while i < branches.len()
        invariant
            i <= branches@.len(),
            out@.len() == i,
            cur == match current {
                Some(c) => Some(c@),
                None => None,
            },
            forall|k: int| 0 <= k < i ==> #[trigger] out@[k]@ == branch_line_text(branches@[k]@, cur),
        decreases branches@.len() - i,
    {
        let b = branches[i].as_str();
        let is_current = match current {
            Some(c) => str_eq(c, b),
            None => false,
        };
        let mut line = String::new();
        if is_current {
            string_push(&mut line, '*');
        } else {
            string_push(&mut line, ' ');
        }
        string_push(&mut line, ' ');
        line.append(b);
        proof {
            reveal_strlit("");
        }
        out.push(line);
        i = i + 1;
    }
    out
}

// ---------------------------------------------------------------------------
// Trees as paths
// ---------------------------------------------------------------------------

/// The mode a tree gives its subtrees.
pub open spec fn dir_mode() -> Seq<char> {
    seq!['4', '0', '0', '0', '0']
}

/// The value of a string of octal digits.
pub open spec fn octal_value(s: Seq<char>) -> nat
    decreases s.len(),
{
    if s.len() == 0 {
        0
    } else {
        octal_value(s.drop_last()) * 8 + ((s.last() as u32) - 48) as nat
    }
}

/// `true` for `0`..`7`.
pub open spec fn is_octal(c: char) -> bool {
    '0' <= c <= '7'
}

/// What `u32::from_str_radix(_, 8)` gives: an optional `+`, then at least
/// one octal digit and nothing else, with a value that fits.
pub open spec fn parse_octal(s: Seq<char>) -> Option<u32> {
    let d = octal_digits(s);
    if d.len() == 0 || !all_octal(d) {
        None
    } else if octal_value(d) > u32::MAX {
        None
    } else {
        Some(octal_value(d) as u32)
    }
}

/// The digits part of an octal number: a leading `+` is dropped when
/// something follows it.
pub open spec fn octal_digits(s: Seq<char>) -> Seq<char> {
    if s.len() > 1 && s[0] == '+' {
        s.drop_first()
    } else {
        s
    }
}

/// `true` when every character is an octal digit.
pub open spec fn all_octal(d: Seq<char>) -> bool {
    forall|i: int| 0 <= i < d.len() ==> is_octal(#[trigger] d[i])
}

/// The mode of a file entry: its octal text, or 100644 when that does not parse.
pub open spec fn file_mode_of(mode: Seq<char>) -> u32 {
    match parse_octal(mode) {
        Some(v) => v,
        None => 0o100644,
    }
}

/// Reads an octal mode.
pub fn octal_mode(mode: &str) -> (out: Option<u32>)
    ensures
        out == parse_octal(mode@),
{
    let cs = chars_of(mode);
    let start: usize = if cs.len() > 1 && cs[0] == '+' {
        1
    } else {
        0
    };
    let ghost d = cs@.skip(start as int);
    assert(d == octal_digits(mode@));
    if start == cs.len() {
        return None;
    }
    let mut v: u64 = 0;
    let mut i: usize = start;
    while i < cs.len()
        invariant
            cs@ == mode@,
            start <= i <= cs@.len(),
            d == cs@.skip(start as int),
            d == octal_digits(mode@),
            d.len() > 0,
            v == octal_value(d.take(i - start)),
            v <= u32::MAX,
            forall|k: int| 0 <= k < i - start ==> is_octal(#[trigger] d[k]),
        decreases cs@.len() - i,
    {
        let c = cs[i];
        assert(d[i - start] == c);
        if !('0' <= c && c <= '7') {
            assert(!is_octal(d[i - start]));
            assert(!all_octal(d));
            return None;
        }
        assert(d.take(i - start + 1).drop_last() == d.take(i - start));
        assert(d.take(i - start + 1).last() == c);
        let next = v * 8 + ((c as u32) - 48) as u64;
        assert(next == octal_value(d.take(i - start + 1)));
        if next > 4294967295 {
            proof {
                lemma_octal_prefix(d, i - start + 1);
            }
            return None;
        }
        v = next;
        i = i + 1;
    }
    assert(d.take(d.len() as int) == d);
    Some(v as u32)
}

/// The value of an octal string is at least the value of any of its prefixes.
proof fn lemma_octal_prefix(d: Seq<char>, k: int)
    requires
        0 <= k <= d.len(),
    ensures
        octal_value(d) >= octal_value(d.take(k)),
    decreases d.len() - k,
{
    if k < d.len() {
        lemma_octal_prefix(d, k + 1);
        assert(d.take(k + 1).drop_last() == d.take(k));
    } else {
        assert(d.take(k) == d);
    }
}

/// One item of a flattened tree: a file (path, name of its blob, mode) or
/// a subtree still to expand (path, name of the tree).
pub enum FlatEntry {
    File(String, String, u32),
    Tree(String, String),
}

/// Mathematical view of a flattened item.
pub enum FlatEntryModel {
    File(Seq<char>, Seq<char>, u32),
    Tree(Seq<char>, Seq<char>),
}

impl View for FlatEntry {
    type V = FlatEntryModel;

    open spec fn view(&self) -> FlatEntryModel {
        match self {
            FlatEntry::File(p, s, m) => FlatEntryModel::File(p@, s@, *m),
            FlatEntry::Tree(p, s) => FlatEntryModel::Tree(p@, s@),
        }
    }
}

/// The path of a tree entry under a directory (none at the root).
pub open spec fn joined_path(prefix: Seq<char>, name: Seq<char>) -> Seq<char> {
    if prefix.len() == 0 {
        name
    } else {
        prefix.push('/') + name
    }
}

/// What one entry of a tree under `prefix` becomes.
pub open spec fn flat_entry_of(prefix: Seq<char>, e: TreeEntryModel) -> FlatEntryModel {
    if e.mode == dir_mode() {
        FlatEntryModel::Tree(joined_path(prefix, e.name), e.sha)
    } else {
        FlatEntryModel::File(joined_path(prefix, e.name), e.sha, file_mode_of(e.mode))
    }
}

/// One level of flattening a tree: each entry in order, subtrees marked for
/// expansion at their place.
pub fn flatten_entries(entries: &[TreeEntry], prefix: &str) -> (out: Vec<FlatEntry>)
    ensures
        out@.len() == entries@.len(),
        forall|i: int| 0 <= i < entries@.len() ==> (#[trigger] out@[i])@ == flat_entry_of(prefix@, entries@[i]@),
{
    let pre = chars_of(prefix);
    let mut out: Vec<FlatEntry> = Vec::new();
    let mut i: usize = 0;
    while i < entries.len()
        invariant
            pre@ == prefix@,
            i <= entries@.len(),
            out@.len() == i,
            forall|k: int| 0 <= k < i ==> (#[trigger] out@[k])@ == flat_entry_of(prefix@, entries@[k]@),
        decreases entries@.len() - i,
    {
        let e = &entries[i];
        let path = if pre.len() == 0 {
            let p = e.name.clone();
            assert(prefix@.len() == 0);
            p
        } else {
            let mut p = String::from_str(prefix);
            string_push(&mut p, '/');
            p.append(e.name.as_str());
            assert(p@ == prefix@.push('/') + e.name@);
            p
        };
        assert(path@ == joined_path(prefix@, e.name@));
        let mc = chars_of(e.mode.as_str());
        let is_dir = mc.len() == 5 && mc[0] == '4' && mc[1] == '0' && mc[2] == '0' && mc[3] == '0' && mc[4] == '0';
        assert(is_dir == (e.mode@ == dir_mode())) by {
            if e.mode@ == dir_mode() {
                assert(mc@[0] == '4' && mc@[4] == '0');
            }
            if is_dir {
                assert(mc@ =~= dir_mode());
            }
        }
        let item = if is_dir {
            FlatEntry::Tree(path, e.sha.clone())
        } else {
            let mode = match octal_mode(e.mode.as_str()) {
                Some(v) => v,
                None => 0o100644,
            };
            FlatEntry::File(path, e.sha.clone(), mode)
        };
        out.push(item);
        i = i + 1;
    }
    out
}

} // verus!
