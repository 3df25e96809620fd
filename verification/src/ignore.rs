//! Ignore rules: the patterns of a `.vritignore` file and the paths they
//! match. A pattern is a `/`-separated list of segments; a segment is a
//! literal name, a glob with `*` and `?`, or `**` (any number of directories).

use vstd::prelude::*;
use vstd::slice::slice_subrange;
use crate::text::{chars_of, copy_chars, has_at, find_char, lemma_find_from, starts_with, contains_seq, occurs_at, string_from_chars, string_push, split_chars, split_at_char, trim, trim_range, lines_from, next_line, find_from, lemma_find_from_at,
    lemma_lines_from_shift, lemma_trim_drop_white, strip_cr, is_white};

verus! {

broadcast use vstd::seq::group_seq_axioms;

// ---------------------------------------------------------------------------
// The model
// ---------------------------------------------------------------------------

/// One piece of a glob: literal text, `*` (any run of characters) or `?`
/// (one character).
pub enum GlobPartModel {
    Literal(Seq<char>),
    Star,
    Question,
}

/// One segment of a pattern.
pub enum SegmentModel {
    Literal(Seq<char>),
    Glob(Seq<GlobPartModel>),
    DoubleWildcard,
}

/// A parsed pattern: its segments, whether it ends with `/` (directories
/// only), and whether it holds `**`.
pub struct PatternModel {
    pub segments: Seq<SegmentModel>,
    pub dir_only: bool,
    pub is_recursive: bool,
}

/// `true` when the glob matches the whole text (`*` takes any number of
/// characters, here one at a time).
pub open spec fn glob_match(parts: Seq<GlobPartModel>, text: Seq<char>) -> bool
    decreases parts.len(), text.len(),
{
    if parts.len() == 0 {
        text.len() == 0
    } else {
        match parts[0] {
            GlobPartModel::Literal(s) => starts_with(text, s) && glob_match(
                parts.drop_first(),
                text.skip(s.len() as int),
            ),
            GlobPartModel::Question => text.len() > 0 && glob_match(parts.drop_first(), text.drop_first()),
            GlobPartModel::Star => glob_match(parts.drop_first(), text) || (text.len() > 0 && glob_match(
                parts,
                text.drop_first(),
            )),
        }
    }
}

/// `true` when a segment matches one path component.
pub open spec fn segment_match(seg: SegmentModel, part: Seq<char>) -> bool {
    match seg {
        SegmentModel::Literal(s) => s == part,
        SegmentModel::Glob(g) => glob_match(g, part),
        SegmentModel::DoubleWildcard => true,
    }
}

/// A literal segment matches a path component exactly when the two are
/// the same text: `build` matches `build` and not `builder.rs`.
pub proof fn law_literal_segment(s: Seq<char>, part: Seq<char>)
    ensures
        segment_match(SegmentModel::Literal(s), part) <==> s == part,
{
}

/// `true` when the segments match the path components from the first one
/// on; `**` takes zero or more components, and components left over after
/// the last segment are allowed.
pub open spec fn match_segments(segs: Seq<SegmentModel>, parts: Seq<Seq<char>>) -> bool
    decreases segs.len(), parts.len(),
{
    if segs.len() == 0 {
        true
    } else if parts.len() == 0 {
        forall|i: int| 0 <= i < segs.len() ==> #[trigger] segs[i] is DoubleWildcard
    } else {
        match segs[0] {
            SegmentModel::DoubleWildcard => match_segments(segs.drop_first(), parts) || match_segments(
                segs,
                parts.drop_first(),
            ),
            _ => segment_match(segs[0], parts[0]) && match_segments(segs.drop_first(), parts.drop_first()),
        }
    }
}

/// `true` when the pattern matches the path. A pattern of one segment
/// without `**` matches any component of the path; a pattern ending in `/`
/// matches directories only.
pub open spec fn pattern_matches(p: PatternModel, path: Seq<char>, is_dir: bool) -> bool {
    if p.dir_only && !is_dir {
        false
    } else {
        let parts = split_at_char(path, '/');
        if p.segments.len() == 1 && !p.is_recursive {
            exists|i: int| 0 <= i < parts.len() && #[trigger] segment_match(p.segments[0], parts[i])
        } else {
            match_segments(p.segments, parts)
        }
    }
}

/// The repository's own directory.
pub open spec fn vrit_dir() -> Seq<char> {
    seq!['.', 'v', 'r', 'i', 't']
}

/// `true` when the path is ignored: the repository directory and what is
/// under it always are; any other path when some pattern matches it.
pub open spec fn ignored(rules: Seq<PatternModel>, path: Seq<char>, is_dir: bool) -> bool {
    ||| path == vrit_dir()
    ||| starts_with(path, vrit_dir().push('/'))
    ||| exists|i: int| 0 <= i < rules.len() && #[trigger] pattern_matches(rules[i], path, is_dir)
}

/// The parts of a glob: runs of literal text, `*` and `?`, reading `cs`
/// with the literal `lit` already collected.
pub open spec fn glob_parts(cs: Seq<char>, lit: Seq<char>) -> Seq<GlobPartModel>
    decreases cs.len(),
{
    if cs.len() == 0 {
        if lit.len() > 0 {
            seq![GlobPartModel::Literal(lit)]
        } else {
            Seq::empty()
        }
    } else {
        let flushed = if lit.len() > 0 {
            seq![GlobPartModel::Literal(lit)]
        } else {
            Seq::empty()
        };
        if cs[0] == '*' {
            flushed + seq![GlobPartModel::Star] + glob_parts(cs.drop_first(), Seq::empty())
        } else if cs[0] == '?' {
            flushed + seq![GlobPartModel::Question] + glob_parts(cs.drop_first(), Seq::empty())
        } else {
            glob_parts(cs.drop_first(), lit.push(cs[0]))
        }
    }
}

/// What a segment of a pattern is: `**`, a glob when it holds `*` or `?`,
/// else a literal name.
pub open spec fn classify(seg: Seq<char>) -> SegmentModel {
    if seg == seq!['*', '*'] {
        SegmentModel::DoubleWildcard
    } else if seg.contains('*') || seg.contains('?') {
        SegmentModel::Glob(glob_parts(seg, Seq::empty()))
    } else {
        SegmentModel::Literal(seg)
    }
}

/// The segments of the non-empty pieces.
pub open spec fn classify_all(pieces: Seq<Seq<char>>) -> Seq<SegmentModel>
    decreases pieces.len(),
{
    if pieces.len() == 0 {
        Seq::empty()
    } else {
        let r = classify_all(pieces.drop_last());
        if pieces.last().len() == 0 {
            r
        } else {
            r.push(classify(pieces.last()))
        }
    }
}

/// The pattern of a line: a trailing `/` marks it for directories only;
/// `None` when it has no segment.
pub open spec fn pattern_of(raw: Seq<char>) -> Option<PatternModel> {
    let dir_only = raw.len() > 0 && raw.last() == '/';
    let s = if dir_only {
        raw.drop_last()
    } else {
        raw
    };
    let segs = classify_all(split_at_char(s, '/'));
    if segs.len() == 0 {
        None
    } else {
        Some(PatternModel { segments: segs, dir_only, is_recursive: contains_seq(s, seq!['*', '*']) })
    }
}

/// The patterns of the lines of an ignore file: each line trimmed; empty
/// lines, comments (`#`) and lines without a segment skipped.
pub open spec fn rules_of_lines(ls: Seq<Seq<char>>) -> Seq<PatternModel>
    decreases ls.len(),
{
    if ls.len() == 0 {
        Seq::empty()
    } else {
        let r = rules_of_lines(ls.drop_last());
        let t = trim(ls.last());
        if t.len() == 0 || t[0] == '#' {
            r
        } else {
            match pattern_of(t) {
                Some(p) => r.push(p),
                None => r,
            }
        }
    }
}

// ---------------------------------------------------------------------------
// The rules
// ---------------------------------------------------------------------------

/// The patterns of an ignore file.
pub struct IgnoreRules {
    patterns: Vec<Pattern>,
}

struct Pattern {
    segments: Vec<SegmentMatcher>,
    dir_only: bool,
    is_recursive: bool,
}

enum SegmentMatcher {
    Literal(String),
    Glob(GlobPattern),
    DoubleWildcard,
}

struct GlobPattern {
    parts: Vec<GlobPart>,
}

enum GlobPart {
    Literal(String),
    Star,
    Question,
}

impl View for GlobPart {
    type V = GlobPartModel;

    closed spec fn view(&self) -> GlobPartModel {
        match self {
            GlobPart::Literal(s) => GlobPartModel::Literal(s@),
            GlobPart::Star => GlobPartModel::Star,
            GlobPart::Question => GlobPartModel::Question,
        }
    }
}

spec fn glob_models(v: Seq<GlobPart>) -> Seq<GlobPartModel> {
    v.map_values(|g: GlobPart| g@)
}

impl View for SegmentMatcher {
    type V = SegmentModel;

    closed spec fn view(&self) -> SegmentModel {
        match self {
            SegmentMatcher::Literal(s) => SegmentModel::Literal(s@),
            SegmentMatcher::Glob(g) => SegmentModel::Glob(glob_models(g.parts@)),
            SegmentMatcher::DoubleWildcard => SegmentModel::DoubleWildcard,
        }
    }
}

spec fn segment_models(v: Seq<SegmentMatcher>) -> Seq<SegmentModel> {
    v.map_values(|s: SegmentMatcher| s@)
}

impl View for Pattern {
    type V = PatternModel;

    closed spec fn view(&self) -> PatternModel {
        PatternModel {
            segments: segment_models(self.segments@),
            dir_only: self.dir_only,
            is_recursive: self.is_recursive,
        }
    }
}

impl View for IgnoreRules {
    type V = Seq<PatternModel>;

    closed spec fn view(&self) -> Seq<PatternModel> {
        self.patterns@.map_values(|p: Pattern| p@)
    }
}

/// The texts of a list of character vectors.
spec fn char_seqs(v: Seq<Vec<char>>) -> Seq<Seq<char>> {
    v.map_values(|x: Vec<char>| x@)
}

// ---------------------------------------------------------------------------
// Matching
// ---------------------------------------------------------------------------

/// `true` when the glob parts from `pi` on match `text[ti..]`.
fn match_parts(parts: &Vec<GlobPart>, pi: usize, text: &[char], ti: usize) -> (out: bool)
    requires
        pi <= parts@.len(),
        ti <= text@.len(),
    ensures
        out == glob_match(glob_models(parts@).skip(pi as int), text@.skip(ti as int)),
    decreases parts@.len() - pi,
{
    let ghost gs = glob_models(parts@).skip(pi as int);
    let ghost t = text@.skip(ti as int);
    if pi == parts.len() {
        return ti == text.len();
    }
    let next = pi + 1;
    assert(gs.drop_first() == glob_models(parts@).skip(next as int));
    assert(gs[0] == parts@[pi as int]@);
    match &parts[pi] {
        GlobPart::Literal(s) => {
            assert(gs[0] == GlobPartModel::Literal(s@));
            let lit = chars_of(s.as_str());
            let here = has_at(text, ti, text.len(), lit.as_slice());
            assert(text@.subrange(ti as int, text@.len() as int) == t);
            if !here {
                return false;
            }
            assert(t.skip(lit@.len() as int) == text@.skip(ti + lit@.len()));
            match_parts(parts, next, text, ti + lit.len())
        },
        GlobPart::Question => {
            assert(gs[0] == GlobPartModel::Question);
            if ti == text.len() {
                return false;
            }
            assert(t.drop_first() == text@.skip(ti + 1));
            match_parts(parts, next, text, ti + 1)
        },
        GlobPart::Star => {
            assert(gs[0] == GlobPartModel::Star);
            assert(gs.len() > 0);
            let ghost rest = gs.drop_first();
            assert(t.skip(0) == t);
            let mut i: usize = ti;
            loop
                invariant
                    next == pi + 1,
                    next <= parts@.len(),
                    ti <= i <= text@.len(),
                    gs == glob_models(parts@).skip(pi as int),
                    gs.len() > 0,
                    gs[0] == GlobPartModel::Star,
                    rest == gs.drop_first(),
                    rest == glob_models(parts@).skip(next as int),
                    t == text@.skip(ti as int),
                    glob_match(gs, t) == glob_match(gs, text@.skip(i as int)),
                decreases text@.len() - i,
            {
                let ghost u = text@.skip(i as int);
                if match_parts(parts, next, text, i) {
                    assert(glob_match(gs, u));
                    return true;
                }
                if i == text.len() {
                    assert(!glob_match(gs, u));
                    return false;
                }
                assert(u.drop_first() == text@.skip(i + 1));
                i = i + 1;
            }
        },
    }
}

/// `true` when a segment matches a path component.
fn segment_matches(seg: &SegmentMatcher, part: &[char]) -> (out: bool)
    ensures
        out == segment_match(seg@, part@),
{
    match seg {
        SegmentMatcher::Literal(s) => {
            let lit = chars_of(s.as_str());
            if lit.len() != part.len() {
                assert(lit@.len() != part@.len());
                return false;
            }
            let same = has_at(part, 0, part.len(), lit.as_slice());
            assert(part@.subrange(0, part@.len() as int) == part@);
            assert(same ==> lit@ =~= part@);
            same
        },
        SegmentMatcher::Glob(g) => {
            assert(glob_models(g.parts@).skip(0) == glob_models(g.parts@));
            assert(part@.skip(0) == part@);
            match_parts(&g.parts, 0, part, 0)
        },
        SegmentMatcher::DoubleWildcard => true,
    }
}

/// `true` when the segments from `si` on match the components from `pj` on.
fn match_segments_from(segs: &Vec<SegmentMatcher>, si: usize, parts: &Vec<Vec<char>>, pj: usize) -> (out: bool)
    requires
        si <= segs@.len(),
        pj <= parts@.len(),
    ensures
        out == match_segments(segment_models(segs@).skip(si as int), char_seqs(parts@).skip(pj as int)),
    decreases segs@.len() - si,
{
    let ghost ss = segment_models(segs@).skip(si as int);
    let ghost ps = char_seqs(parts@).skip(pj as int);
    if si == segs.len() {
        return true;
    }
    let next = si + 1;
    assert(ss.drop_first() == segment_models(segs@).skip(next as int));
    assert(ss[0] == segs@[si as int]@);
    if pj == parts.len() {
        assert(ps.len() == 0);
        assert(match_segments(ss, ps) == forall|i: int| 0 <= i < ss.len() ==> #[trigger] ss[i] is DoubleWildcard);
        let mut k: usize = si;
        while k < segs.len()
            invariant
                si <= k <= segs@.len(),
                ss == segment_models(segs@).skip(si as int),
                ss.len() == segs@.len() - si,
                ps == char_seqs(parts@).skip(pj as int),
                pj == parts@.len(),
                match_segments(ss, ps) == forall|i: int| 0 <= i < ss.len() ==> #[trigger] ss[i] is DoubleWildcard,
                forall|i: int| 0 <= i < k - si ==> #[trigger] ss[i] is DoubleWildcard,
            decreases segs@.len() - k,
        {
            assert(ss[k - si] == segs@[k as int]@);
            assert(ps.len() == 0);
            match &segs[k] {
                SegmentMatcher::DoubleWildcard => {},
                _ => {
                    assert(!(ss[k - si] is DoubleWildcard));
                    assert(!(forall|i: int| 0 <= i < ss.len() ==> #[trigger] ss[i] is DoubleWildcard));
                    assert(!match_segments(ss, ps));
                    return false;
                },
            }
            k = k + 1;
        }
        return true;
    }
    match &segs[si] {
        SegmentMatcher::DoubleWildcard => {
            assert(ss[0] is DoubleWildcard);
            let ghost rest = ss.drop_first();
            let mut i: usize = pj;
            loop
                invariant
                    next == si + 1,
                    next <= segs@.len(),
                    pj <= i <= parts@.len(),
                    ss == segment_models(segs@).skip(si as int),
                    ss.len() > 0,
                    ss[0] == SegmentModel::DoubleWildcard,
                    rest == ss.drop_first(),
                    rest == segment_models(segs@).skip(next as int),
                    ps == char_seqs(parts@).skip(pj as int),
                    match_segments(ss, ps) == match_segments(ss, char_seqs(parts@).skip(i as int)),
                decreases parts@.len() - i,
            {
                let ghost u = char_seqs(parts@).skip(i as int);
                if match_segments_from(segs, next, parts, i) {
                    proof {
                        if u.len() == 0 {
                            assert forall|k: int| 0 <= k < ss.len() implies #[trigger] ss[k] is DoubleWildcard by {
                                if k > 0 {
                                    assert(rest[k - 1] == ss[k]);
                                }
                            }
                        }
                    }
                    assert(match_segments(ss, u));
                    return true;
                }
                if i == parts.len() {
                    proof {
                        assert(u.len() == 0);
                        if match_segments(ss, u) {
                            assert forall|k: int| 0 <= k < rest.len() implies #[trigger] rest[k] is DoubleWildcard by {
                                assert(ss[k + 1] == rest[k]);
                            }
                        }
                    }
                    return false;
                }
                assert(u.drop_first() == char_seqs(parts@).skip(i + 1));
                i = i + 1;
            }
        },
        _ => {
            assert(!(ss[0] is DoubleWildcard));
            assert(ps[0] == parts@[pj as int]@);
            if !segment_matches(&segs[si], parts[pj].as_slice()) {
                return false;
            }
            assert(ps.drop_first() == char_seqs(parts@).skip(pj + 1));
            match_segments_from(segs, next, parts, pj + 1)
        },
    }
}

impl Pattern {
    /// `true` when the pattern matches the path with the given components.
    fn matches(&self, path: Ghost<Seq<char>>, parts: &Vec<Vec<char>>, is_dir: bool) -> (out: bool)
        requires
            char_seqs(parts@) == split_at_char(path@, '/'),
        ensures
            out == pattern_matches(self@, path@, is_dir),
    {
        if self.dir_only && !is_dir {
            return false;
        }
        let ghost ps = char_seqs(parts@);
        if self.segments.len() == 1 && !self.is_recursive {
            let seg = &self.segments[0];
            assert(self@.segments[0] == seg@);
            assert(pattern_matches(self@, path@, is_dir) == exists|j: int| 0 <= j < ps.len() && #[trigger] segment_match(self@.segments[0], ps[j]));
            let mut i: usize = 0;
            while i < parts.len()
                invariant
                    i <= parts@.len(),
                    ps == char_seqs(parts@),
                    ps == split_at_char(path@, '/'),
                    self.segments@.len() == 1,
                    self@.segments.len() == 1,
                    self@.segments[0] == seg@,
                    pattern_matches(self@, path@, is_dir) == exists|j: int| 0 <= j < ps.len() && #[trigger] segment_match(self@.segments[0], ps[j]),
                    forall|j: int| 0 <= j < i ==> !#[trigger] segment_match(seg@, ps[j]),
                decreases parts@.len() - i,
            {
                assert(ps[i as int] == parts@[i as int]@);
                if segment_matches(seg, parts[i].as_slice()) {
                    assert(segment_match(self@.segments[0], split_at_char(path@, '/')[i as int]));
                    return true;
                }
                i = i + 1;
            }
            return false;
        }
        assert(segment_models(self.segments@).skip(0) == segment_models(self.segments@));
        assert(char_seqs(parts@).skip(0) == char_seqs(parts@));
        match_segments_from(&self.segments, 0, parts, 0)
    }
}

impl IgnoreRules {
    /// `true` when the path is ignored: `.vrit` and everything under it
    /// always; any other path when a pattern matches it.
    pub fn is_ignored(&self, path: &str, is_dir: bool) -> (out: bool)
        ensures
            out == ignored(self@, path@, is_dir),
    {
        let cs = chars_of(path);
        let vrit = ['.', 'v', 'r', 'i', 't', '/'];
        let n = cs.len();
        proof {
            assert(vrit@ == vrit_dir().push('/'));
            assert(vrit@.take(5) == vrit_dir());
        }
        if n == 5 && has_at(cs.as_slice(), 0, 5, &vrit[0..5]) {
            assert(cs@.subrange(0, 5) == cs@);
            return true;
        }
        if has_at(cs.as_slice(), 0, n, &vrit) {
            assert(cs@.subrange(0, n as int) == cs@);
            return true;
        }
        proof {
            if cs@ == vrit_dir() {
                assert(cs@.subrange(0, 5) == cs@);
                assert(starts_with(cs@.subrange(0, 5), vrit_dir()));
            }
            assert(cs@.subrange(0, n as int) == cs@);
        }
        let parts = split_chars(cs.as_slice(), '/');
        assert(char_seqs(parts@) =~= split_at_char(path@, '/'));
        let ghost rules = self@;
        let mut i: usize = 0;
        while i < self.patterns.len()
            invariant
                i <= self.patterns@.len(),
                rules == self@,
                rules == self.patterns@.map_values(|p: Pattern| p@),
                char_seqs(parts@) == split_at_char(path@, '/'),
                forall|j: int| 0 <= j < i ==> !#[trigger] pattern_matches(rules[j], path@, is_dir),
            decreases self.patterns@.len() - i,
        {
            if self.patterns[i].matches(Ghost(path@), &parts, is_dir) {
                assert(pattern_matches(rules[i as int], path@, is_dir));
                return true;
            }
            i = i + 1;
        }
        false
    }
}

// ---------------------------------------------------------------------------
// Parsing
// ---------------------------------------------------------------------------

/// `true` when `c` occurs in `cs`.
fn has_char(cs: &[char], c: char) -> (out: bool)
    ensures
        out == cs@.contains(c),
{
    proof {
        lemma_find_from(cs@, c, 0);
    }
    match find_char(cs, c, 0) {
        Some(j) => {
            assert(cs@[j as int] == c);
            true
        },
        None => false,
    }
}

/// `true` when `cs` holds `**`.
fn has_double_star(cs: &[char]) -> (out: bool)
    ensures
        out == contains_seq(cs@, seq!['*', '*']),
{
    let mut i: usize = 0;
    while cs.len() >= 2 && i < cs.len() - 1
        invariant
            i <= cs@.len(),
            forall|k: int| 0 <= k < i && k + 1 < cs@.len() ==> !(#[trigger] cs@[k] == '*' && cs@[k + 1] == '*'),
        decreases cs@.len() - i,
    {
        if cs[i] == '*' && cs[i + 1] == '*' {
            assert(cs@.subrange(i as int, i + 2) =~= seq!['*', '*']);
            assert(occurs_at(cs@, seq!['*', '*'], i as int));
            return true;
        }
        i = i + 1;
    }
    assert(!contains_seq(cs@, seq!['*', '*'])) by {
        if contains_seq(cs@, seq!['*', '*']) {
            let k = choose|k: int| occurs_at(cs@, seq!['*', '*'], k);
            assert(cs@.subrange(k, k + 2)[0] == cs@[k]);
            assert(cs@.subrange(k, k + 2)[1] == cs@[k + 1]);
        }
    }
    false
}

impl GlobPattern {
    /// Splits a glob into literal runs, `*` and `?`.
    fn parse(pattern: &[char]) -> (out: GlobPattern)
        ensures
            glob_models(out.parts@) == glob_parts(pattern@, Seq::empty()),
    {
        let mut parts: Vec<GlobPart> = Vec::new();
        let mut literal = String::new();
        let mut has_lit = false;
        let mut i: usize = 0;
        assert(pattern@.skip(0) == pattern@);
        while i < pattern.len()
            invariant
                i <= pattern@.len(),
                has_lit == (literal@.len() > 0),
                glob_models(parts@) + glob_parts(pattern@.skip(i as int), literal@) == glob_parts(
                    pattern@,
                    Seq::empty(),
                ),
            decreases pattern@.len() - i,
        {
            let ch = pattern[i];
            let ghost rest = pattern@.skip(i as int);
            let ghost before = glob_models(parts@);
            let ghost lit = literal@;
            assert(rest[0] == ch);
            assert(rest.drop_first() == pattern@.skip(i + 1));
            if ch == '*' || ch == '?' {
                if has_lit {
                    let l = literal;
                    parts.push(GlobPart::Literal(l));
                    literal = String::new();
                    has_lit = false;
                }
                if ch == '*' {
                    parts.push(GlobPart::Star);
                } else {
                    parts.push(GlobPart::Question);
                }
                proof {
                    let flushed = if lit.len() > 0 {
                        seq![GlobPartModel::Literal(lit)]
                    } else {
                        Seq::<GlobPartModel>::empty()
                    };
                    let mark = if ch == '*' {
                        GlobPartModel::Star
                    } else {
                        GlobPartModel::Question
                    };
                    assert(glob_models(parts@) == before + flushed + seq![mark]);
                    assert(literal@ =~= Seq::<char>::empty());
                    assert(glob_parts(rest, lit) == flushed + seq![mark] + glob_parts(rest.drop_first(), Seq::empty()));
                    assert(before + (flushed + seq![mark] + glob_parts(rest.drop_first(), Seq::empty())) == before
                        + flushed + seq![mark] + glob_parts(rest.drop_first(), Seq::empty()));
                }
            } else {
                string_push(&mut literal, ch);
                has_lit = true;
                assert(glob_parts(rest, lit) == glob_parts(rest.drop_first(), lit.push(ch)));
            }
            i = i + 1;
        }
        let ghost before = glob_models(parts@);
        let ghost lit = literal@;
        assert(pattern@.skip(i as int) =~= Seq::<char>::empty());
        if has_lit {
            parts.push(GlobPart::Literal(literal));
            assert(glob_models(parts@) == before.push(GlobPartModel::Literal(lit)));
        } else {
            assert(before + Seq::<GlobPartModel>::empty() == before);
        }
        GlobPattern { parts }
    }
}

/// The segment a non-empty piece of a pattern stands for.
fn classify_piece(piece: &Vec<char>) -> (out: SegmentMatcher)
    ensures
        out@ == classify(piece@),
{
    if piece.len() == 2 && piece[0] == '*' && piece[1] == '*' {
        assert(piece@ =~= seq!['*', '*']);
        return SegmentMatcher::DoubleWildcard;
    }
    assert(piece@ != seq!['*', '*']) by {
        if piece@ == seq!['*', '*'] {
            assert(piece@[0] == '*' && piece@[1] == '*');
        }
    }
    if has_char(piece.as_slice(), '*') || has_char(piece.as_slice(), '?') {
        let g = GlobPattern::parse(piece.as_slice());
        SegmentMatcher::Glob(g)
    } else {
        let text = string_from_chars(piece.as_slice(), 0, piece.len());
        assert(piece@.subrange(0, piece@.len() as int) == piece@);
        SegmentMatcher::Literal(text)
    }
}

impl Pattern {
    /// Parses one (trimmed, non-comment) line of an ignore file.
    fn parse(raw: &[char]) -> (out: Option<Pattern>)
        ensures
            match out {
                Some(p) => pattern_of(raw@) == Some(p@),
                None => pattern_of(raw@) is None,
            },
    {
        let n = raw.len();
        let dir_only = n > 0 && raw[n - 1] == '/';
        let m = if dir_only {
            n - 1
        } else {
            n
        };
        let s = copy_chars(raw, 0, m);
        assert(s@ == if dir_only {
            raw@.drop_last()
        } else {
            raw@
        });
        let is_recursive = has_double_star(s.as_slice());
        let pieces = split_chars(s.as_slice(), '/');
        let ghost ps = split_at_char(s@, '/');
        let mut segments: Vec<SegmentMatcher> = Vec::new();
        let mut k: usize = 0;
        while k < pieces.len()
            invariant
                k <= pieces@.len(),
                pieces@.len() == ps.len(),
                forall|i: int| 0 <= i < pieces@.len() ==> (#[trigger] pieces@[i])@ == ps[i],
                segment_models(segments@) == classify_all(ps.take(k as int)),
            decreases pieces@.len() - k,
        {
            let piece = &pieces[k];
            let ghost before = segment_models(segments@);
            proof {
                assert(ps.take(k + 1).drop_last() == ps.take(k as int));
                assert(ps.take(k + 1).last() == ps[k as int]);
            }
            if piece.len() > 0 {
                segments.push(classify_piece(piece));
                assert(segment_models(segments@) == before.push(classify(ps[k as int])));
            }
            k = k + 1;
        }
        assert(ps.take(ps.len() as int) == ps);
        if segments.len() == 0 {
            return None;
        }
        Some(Pattern { segments, dir_only, is_recursive })
    }
}

impl IgnoreRules {
    /// The patterns of an ignore file's text: one per line, lines trimmed,
    /// empty lines, `#` comments and lines without a segment skipped.
    pub fn parse(content: &str) -> (out: IgnoreRules)
        ensures
            out@ == rules_of_lines(lines_from(content@, 0)),
    {
        let cs = chars_of(content);
        let mut patterns: Vec<Pattern> = Vec::new();
        let ghost mut seen: Seq<Seq<char>> = Seq::empty();
        let mut pos: usize = 0;
        while pos < cs.len()
            invariant
                cs@ == content@,
                pos <= cs@.len(),
                seen + lines_from(cs@, pos as int) == lines_from(cs@, 0),
                patterns@.map_values(|p: Pattern| p@) == rules_of_lines(seen),
            decreases cs@.len() - pos,
        {
            let (end, next) = next_line(cs.as_slice(), pos);
            let ghost line = cs@.subrange(pos as int, end as int);
            let (a, b) = trim_range(cs.as_slice(), pos, end);
            let ghost before = patterns@.map_values(|p: Pattern| p@);
            let ghost t = trim(line);
            assert(cs@.subrange(a as int, b as int) == t);
            proof {
                assert(seen.push(line).drop_last() == seen);
                assert(seen.push(line).last() == line);
            }
            if b > a && cs[a] != '#' {
                assert(t[0] == cs@[a as int]);
                match Pattern::parse(slice_subrange(cs.as_slice(), a, b)) {
                    Some(p) => {
                        patterns.push(p);
                        assert(patterns@.map_values(|p: Pattern| p@) == before.push(p@));
                    },
                    None => {},
                }
            } else {
                assert(t.len() == 0 || t[0] == '#');
            }
            proof {
                assert(seen + lines_from(cs@, pos as int) == seen.push(line) + lines_from(cs@, next as int));
                seen = seen.push(line);
            }
            pos = next;
        }
        assert(lines_from(cs@, pos as int) == Seq::<Seq<char>>::empty());
        assert(seen + Seq::<Seq<char>>::empty() == seen);
        IgnoreRules { patterns }
    }
}

/// The repository's own directory, and everything under it, is ignored
/// whatever the rules say.
pub proof fn law_vrit_always_ignored(rules: Seq<PatternModel>, rest: Seq<char>, is_dir: bool)
    ensures
        ignored(rules, vrit_dir(), is_dir),
        ignored(rules, vrit_dir().push('/') + rest, is_dir),
{
    let p = vrit_dir().push('/') + rest;
    assert(p.subrange(0, 6) =~= vrit_dir().push('/'));
}

/// The rules of consecutive lines are the rules of each part, in order.
proof fn lemma_rules_concat(x: Seq<Seq<char>>, y: Seq<Seq<char>>)
    ensures
        rules_of_lines(x + y) == rules_of_lines(x) + rules_of_lines(y),
    decreases y.len(),
{
    if y.len() == 0 {
        assert(x + y =~= x);
        assert(rules_of_lines(x) + rules_of_lines(y) =~= rules_of_lines(x));
    } else {
        assert((x + y).drop_last() =~= x + y.drop_last());
        assert((x + y).last() == y.last());
        lemma_rules_concat(x, y.drop_last());
        let a = rules_of_lines(x);
        let b = rules_of_lines(y.drop_last());
        assert(forall|p: PatternModel| (a + b).push(p) =~= a + b.push(p));
    }
}

/// A single line gives at most one rule, which depends on the line trimmed.
proof fn lemma_rules_one(l: Seq<char>)
    ensures
        rules_of_lines(seq![l]) == (if trim(l).len() == 0 || trim(l)[0] == '#' {
            Seq::<PatternModel>::empty()
        } else {
            match pattern_of(trim(l)) {
                Some(p) => seq![p],
                None => Seq::<PatternModel>::empty(),
            }
        }),
{
    assert(seq![l].drop_last() =~= Seq::<Seq<char>>::empty());
    assert(rules_of_lines(Seq::<Seq<char>>::empty()) =~= Seq::<PatternModel>::empty());
    assert(seq![l].last() == l);
    assert(Seq::<PatternModel>::empty().push(pattern_of(trim(l))->0) =~= seq![pattern_of(trim(l))->0]);
}

/// The text `a`, a newline, then `b`, read from a position inside `a`,
/// gives the rules of `a` from there followed by the rules of `b`.
proof fn lemma_rules_join(a: Seq<char>, b: Seq<char>, pos: int)
    requires
        0 <= pos <= a.len(),
    ensures
        rules_of_lines(lines_from(a + seq!['\n'] + b, pos)) == rules_of_lines(lines_from(a, pos)) + rules_of_lines(
            lines_from(b, 0),
        ),
    decreases a.len() - pos,
{
    let s = a + seq!['\n'] + b;
    let lb = lines_from(b, 0);
    assert(s =~= (a + seq!['\n']) + b);
    lemma_lines_from_shift(a + seq!['\n'], b, 0);
    assert(lines_from(s, a.len() + 1int) == lb);
    assert(s[a.len() as int] == '\n');
    if pos == a.len() {
        lemma_find_from_at(s, '\n', pos, pos);
        let e = strip_cr(s.subrange(pos, pos));
        assert(s.subrange(pos, pos) =~= Seq::<char>::empty());
        assert(lines_from(s, pos) == seq![e] + lb);
        lemma_rules_concat(seq![e], lb);
        lemma_rules_one(e);
        assert(rules_of_lines(lines_from(a, pos)) =~= Seq::<PatternModel>::empty());
        assert(rules_of_lines(lines_from(a, pos)) + rules_of_lines(lb) =~= rules_of_lines(lb));
        assert(Seq::<PatternModel>::empty() + rules_of_lines(lb) =~= rules_of_lines(lb));
    } else {
        lemma_find_from(a, '\n', pos);
        match find_from(a, '\n', pos) {
            Some(j) => {
                lemma_find_from_at(s, '\n', pos, j);
                assert(s.subrange(pos, j) =~= a.subrange(pos, j));
                let l = strip_cr(a.subrange(pos, j));
                lemma_rules_join(a, b, j + 1);
                assert(lines_from(s, pos) == seq![l] + lines_from(s, j + 1));
                assert(lines_from(a, pos) == seq![l] + lines_from(a, j + 1));
                lemma_rules_concat(seq![l], lines_from(s, j + 1));
                lemma_rules_concat(seq![l], lines_from(a, j + 1));
                let r1 = rules_of_lines(seq![l]);
                let ra = rules_of_lines(lines_from(a, j + 1));
                let rb = rules_of_lines(lb);
                assert(r1 + (ra + rb) =~= (r1 + ra) + rb);
            },
            None => {
                assert forall|k: int| pos <= k < a.len() implies s[k] != '\n' by {
                    assert(s[k] == a[k]);
                }
                lemma_find_from_at(s, '\n', pos, a.len() as int);
                let l = a.subrange(pos, a.len() as int);
                assert(s.subrange(pos, a.len() as int) =~= l);
                assert(lines_from(s, pos) == seq![strip_cr(l)] + lb);
                assert(lines_from(a, pos) == seq![l]);
                lemma_rules_concat(seq![strip_cr(l)], lb);
                lemma_rules_one(l);
                lemma_rules_one(strip_cr(l));
                if l.len() > 0 && l.last() == '\r' {
                    assert(is_white(l.last()));
                    lemma_trim_drop_white(l);
                }
            },
        }
    }
}

/// Ignore files can be joined: parsing `a`, a newline, then `b` gives the
/// rules of `a` followed by the rules of `b`, so a path is ignored by the
/// joined text exactly when `a` or `b` ignores it.
pub proof fn law_parse_concat(a: Seq<char>, b: Seq<char>)
    ensures
        rules_of_lines(lines_from(a + seq!['\n'] + b, 0)) == rules_of_lines(lines_from(a, 0)) + rules_of_lines(
            lines_from(b, 0),
        ),
        forall|path: Seq<char>, is_dir: bool|
            #[trigger] ignored(rules_of_lines(lines_from(a + seq!['\n'] + b, 0)), path, is_dir) == (ignored(
                rules_of_lines(lines_from(a, 0)),
                path,
                is_dir,
            ) || ignored(rules_of_lines(lines_from(b, 0)), path, is_dir)),
{
    lemma_rules_join(a, b, 0);
    let ra = rules_of_lines(lines_from(a, 0));
    let rb = rules_of_lines(lines_from(b, 0));
    let r = ra + rb;
    assert forall|path: Seq<char>, is_dir: bool| #[trigger] ignored(r, path, is_dir) == (ignored(ra, path, is_dir) || ignored(rb, path, is_dir)) by {
        if exists|i: int| 0 <= i < r.len() && #[trigger] pattern_matches(r[i], path, is_dir) {
            let i = choose|i: int| 0 <= i < r.len() && #[trigger] pattern_matches(r[i], path, is_dir);
            if i < ra.len() {
                assert(r[i] == ra[i]);
            } else {
                assert(r[i] == rb[i - ra.len()]);
            }
        }
        if exists|i: int| 0 <= i < ra.len() && #[trigger] pattern_matches(ra[i], path, is_dir) {
            let i = choose|i: int| 0 <= i < ra.len() && #[trigger] pattern_matches(ra[i], path, is_dir);
            assert(r[i] == ra[i]);
        }
        if exists|i: int| 0 <= i < rb.len() && #[trigger] pattern_matches(rb[i], path, is_dir) {
            let i = choose|i: int| 0 <= i < rb.len() && #[trigger] pattern_matches(rb[i], path, is_dir);
            assert(r[i + ra.len()] == rb[i]);
        }
    }
}

} // verus!
