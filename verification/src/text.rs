//! Character and byte helpers shared by the parsers and serializers.
//!
//! Text is handled as `Seq<char>` in specifications; the bytes that the store
//! holds are the UTF-8 encoding of that text (`encode_utf8` from vstd).

use vstd::prelude::*;
use vstd::utf8::*;

verus! {

broadcast use vstd::seq::group_seq_axioms;

// ---------------------------------------------------------------------------
// Specifications
// ---------------------------------------------------------------------------

/// `true` when `s` occurs in `t` starting at position `i`.
pub open spec fn occurs_at<T>(t: Seq<T>, s: Seq<T>, i: int) -> bool {
    0 <= i && i + s.len() <= t.len() && t.subrange(i, i + s.len()) == s
}

/// `true` when the sequence `s` occurs somewhere in `t`.
pub open spec fn contains_seq<T>(t: Seq<T>, s: Seq<T>) -> bool {
    exists|i: int| occurs_at(t, s, i)
}

/// `true` when `t` starts with `s`.
pub open spec fn starts_with<T>(t: Seq<T>, s: Seq<T>) -> bool {
    s.len() <= t.len() && t.subrange(0, s.len() as int) == s
}

/// `true` when `t` ends with `s`.
pub open spec fn ends_with<T>(t: Seq<T>, s: Seq<T>) -> bool {
    s.len() <= t.len() && t.subrange(t.len() - s.len(), t.len() as int) == s
}

/// Position of the first occurrence of `x` in `s` at or after `from`.
pub open spec fn find_from<T>(s: Seq<T>, x: T, from: int) -> Option<int>
    decreases s.len() - from,
{
    if from < 0 || from >= s.len() {
        None
    } else if s[from] == x {
        Some(from)
    } else {
        find_from(s, x, from + 1)
    }
}

/// Position of the first occurrence of the pattern `p` in `s` at or after `from`.
pub open spec fn find_seq_from<T>(s: Seq<T>, p: Seq<T>, from: int) -> Option<int>
    decreases s.len() + 1 - from,
{
    if from < 0 || from > s.len() || from + p.len() > s.len() {
        None
    } else if occurs_at(s, p, from) {
        Some(from)
    } else {
        find_seq_from(s, p, from + 1)
    }
}

/// `find_from` gives a position in range that holds the element, with no
/// earlier occurrence from `from` on.
pub proof fn lemma_find_from<T>(s: Seq<T>, x: T, from: int)
    ensures
        find_from(s, x, from) matches Some(j) ==> from <= j < s.len() && s[j] == x && (forall|k: int|
            from <= k < j ==> s[k] != x),
        find_from(s, x, from) is None ==> forall|k: int| from <= k < s.len() && 0 <= from ==> s[k] != x,
    decreases s.len() - from,
{
    if 0 <= from < s.len() && s[from] != x {
        lemma_find_from(s, x, from + 1);
    }
}

/// The first occurrence of `x` from `from` is at `p` when `s[p] == x` and
/// nothing before it (from `from`) is `x`.
pub proof fn lemma_find_from_at<T>(s: Seq<T>, x: T, from: int, p: int)
    requires
        0 <= from <= p < s.len(),
        s[p] == x,
        forall|j: int| from <= j < p ==> s[j] != x,
    ensures
        find_from(s, x, from) == Some(p),
    decreases p - from,
{
    if from < p {
        lemma_find_from_at(s, x, from + 1, p);
    }
}

/// `find_from` in `a + b` past `a` is `find_from` in `b`, shifted.
pub proof fn lemma_find_from_shift<T>(a: Seq<T>, b: Seq<T>, x: T, i: int)
    requires
        0 <= i,
    ensures
        find_from(a + b, x, a.len() + i) == (match find_from(b, x, i) {
            Some(j) => Some(j + a.len()),
            None => None,
        }),
    decreases b.len() - i,
{
    if i < b.len() && b[i] != x {
        lemma_find_from_shift(a, b, x, i + 1);
    }
}

/// The lines of a text from position `pos`, as Rust's `str::lines` yields
/// them: split at `\n`, a `\r` before a `\n` dropped, no empty last line.
pub open spec fn lines_from(s: Seq<char>, pos: int) -> Seq<Seq<char>>
    decreases s.len() - pos,
{
    if pos < 0 || pos >= s.len() {
        Seq::empty()
    } else {
        match find_from(s, '\n', pos) {
            None => seq![s.subrange(pos, s.len() as int)],
            Some(j) => {
                proof {
                    lemma_find_from(s, '\n', pos);
                }
                seq![strip_cr(s.subrange(pos, j))] + lines_from(s, j + 1)
            },
        }
    }
}

/// The lines of `a + b` from a position past `a` are the lines of `b`.
pub proof fn lemma_lines_from_shift(a: Seq<char>, b: Seq<char>, i: int)
    requires
        0 <= i,
    ensures
        lines_from(a + b, a.len() + i) == lines_from(b, i),
    decreases b.len() - i,
{
    let s = a + b;
    lemma_find_from_shift(a, b, '\n', i);
    if i < b.len() {
        if let Some(j) = find_from(b, '\n', i) {
            lemma_find_from(b, '\n', i);
            lemma_lines_from_shift(a, b, j + 1);
            assert(s.subrange(a.len() + i, a.len() + j) =~= b.subrange(i, j));
            assert(a.len() + j + 1 == a.len() + (j + 1));
        } else {
            assert(s.subrange(a.len() + i, s.len() as int) =~= b.subrange(i, b.len() as int));
        }
    }
}

/// A line without its trailing carriage return.
pub open spec fn strip_cr(l: Seq<char>) -> Seq<char> {
    if l.len() > 0 && l.last() == '\r' {
        l.drop_last()
    } else {
        l
    }
}

/// Lexicographic "strictly less" on byte strings (the order of Rust's `str`).
pub open spec fn bytes_lt(a: Seq<u8>, b: Seq<u8>) -> bool
    decreases a.len(),
{
    if a.len() == 0 {
        b.len() > 0
    } else if b.len() == 0 {
        false
    } else if a[0] != b[0] {
        a[0] < b[0]
    } else {
        bytes_lt(a.drop_first(), b.drop_first())
    }
}

/// `bytes_lt` is irreflexive and asymmetric.
pub proof fn lemma_bytes_lt_asym(a: Seq<u8>, b: Seq<u8>)
    ensures
        !bytes_lt(a, a),
        bytes_lt(a, b) ==> !bytes_lt(b, a),
    decreases a.len(),
{
    if a.len() > 0 {
        lemma_bytes_lt_asym(a.drop_first(), a.drop_first());
        if b.len() > 0 {
            lemma_bytes_lt_asym(a.drop_first(), b.drop_first());
        }
    }
}

/// `bytes_lt` is transitive.
pub proof fn lemma_bytes_lt_trans(a: Seq<u8>, b: Seq<u8>, c: Seq<u8>)
    requires
        bytes_lt(a, b),
        bytes_lt(b, c),
    ensures
        bytes_lt(a, c),
    decreases a.len(),
{
    if a.len() > 0 && b.len() > 0 && c.len() > 0 && a[0] == b[0] && b[0] == c[0] {
        lemma_bytes_lt_trans(a.drop_first(), b.drop_first(), c.drop_first());
    }
}

/// Two different byte strings are ordered one way or the other.
pub proof fn lemma_bytes_lt_total(a: Seq<u8>, b: Seq<u8>)
    requires
        a != b,
    ensures
        bytes_lt(a, b) || bytes_lt(b, a),
    decreases a.len(),
{
    if a.len() > 0 && b.len() > 0 && a[0] == b[0] {
        if a.drop_first() == b.drop_first() {
            assert(a =~= seq![a[0]] + a.drop_first());
            assert(b =~= seq![b[0]] + b.drop_first());
        }
        lemma_bytes_lt_total(a.drop_first(), b.drop_first());
    } else if a.len() == 0 && b.len() == 0 {
        assert(a =~= b);
    }
}

/// Different texts have different encodings.
pub proof fn lemma_utf8_injective(a: Seq<char>, b: Seq<char>)
    requires
        utf8(a) == utf8(b),
    ensures
        a == b,
{
    vstd::utf8::encode_utf8_decode_utf8(a);
    vstd::utf8::encode_utf8_decode_utf8(b);
}

/// The bytes that Rust stores for a string with the given characters.
pub open spec fn utf8(s: Seq<char>) -> Seq<u8> {
    encode_utf8(s)
}

/// Decimal digits of a natural number, most significant first, without leading zeros.
pub open spec fn decimal(n: nat) -> Seq<u8>
    decreases n,
{
    if n < 10 {
        seq![(48 + n) as u8]
    } else {
        decimal(n / 10).push((48 + n % 10) as u8)
    }
}

/// `true` for the ASCII digits `0`..`9`.
pub open spec fn is_digit(b: u8) -> bool {
    48 <= b <= 57
}

/// The value of a string of decimal digits.
pub open spec fn digits_value(s: Seq<u8>) -> nat
    decreases s.len(),
{
    if s.len() == 0 {
        0
    } else {
        digits_value(s.drop_last()) * 10 + (s.last() - 48) as nat
    }
}

/// `true` when every byte of `s` is a decimal digit.
pub open spec fn all_digits(s: Seq<u8>) -> bool {
    forall|i: int| 0 <= i < s.len() ==> is_digit(#[trigger] s[i])
}

/// The digits part of a number: a single leading `+` is dropped when
/// something follows it.
pub open spec fn unsigned_digits(s: Seq<u8>) -> Seq<u8> {
    if s.len() > 1 && s[0] == 43u8 {
        s.drop_first()
    } else {
        s
    }
}

/// What Rust's `usize::from_str` gives for a byte string: an optional `+`,
/// then at least one digit and nothing else, and a value that fits in `usize`.
pub open spec fn parse_usize_spec(s: Seq<u8>) -> Option<usize> {
    let digits = unsigned_digits(s);
    if digits.len() == 0 || !all_digits(digits) {
        None
    } else if digits_value(digits) > usize::MAX {
        None
    } else {
        Some(digits_value(digits) as usize)
    }
}

// ---------------------------------------------------------------------------
// Lemmas about UTF-8
// ---------------------------------------------------------------------------

/// Encoding distributes over concatenation.
pub proof fn lemma_utf8_concat(a: Seq<char>, b: Seq<char>)
    ensures
        utf8(a + b) == utf8(a) + utf8(b),
    decreases a.len(),
{
    if a.len() == 0 {
        assert(a + b == b);
    } else {
        assert((a + b).drop_first() == a.drop_first() + b);
        lemma_utf8_concat(a.drop_first(), b);
        assert(utf8(a + b) == encode_scalar((a + b)[0] as u32) + utf8((a + b).drop_first()));
    }
}

/// The encoding of a single ASCII character is that character's byte.
pub proof fn lemma_utf8_ascii_char(c: char)
    requires
        (c as u32) < 0x80,
    ensures
        utf8(seq![c]) == seq![(c as u32) as u8],
{
    let v = c as u32;
    assert(((v & 0x7F) as u8) == (v as u8)) by (bit_vector)
        requires
            v < 0x80,
    ;
    assert(seq![c].drop_first() =~= Seq::<char>::empty());
    assert(utf8(seq![c]) == encode_scalar(v) + utf8(Seq::<char>::empty()));
}

/// A text made only of ASCII characters encodes to the same bytes.
pub proof fn lemma_utf8_ascii(s: Seq<char>)
    requires
        forall|i: int| 0 <= i < s.len() ==> (#[trigger] s[i] as u32) < 0x80,
    ensures
        utf8(s).len() == s.len(),
        forall|i: int| 0 <= i < s.len() ==> #[trigger] utf8(s)[i] == (s[i] as u32) as u8,
    decreases s.len(),
{
    if s.len() > 0 {
        lemma_utf8_ascii(s.drop_first());
        lemma_utf8_ascii_char(s[0]);
        assert(s == seq![s[0]] + s.drop_first());
        lemma_utf8_concat(seq![s[0]], s.drop_first());
        assert forall|i: int| 0 <= i < s.len() implies #[trigger] utf8(s)[i] == (s[i] as u32) as u8 by {
            if i > 0 {
                assert(s[i] == s.drop_first()[i - 1]);
            }
        }
    }
}

/// Every byte of the encoding of a non-ASCII scalar is at least 0x80.
pub proof fn lemma_scalar_high_bytes(v: u32)
    requires
        is_scalar(v),
        v >= 0x80,
    ensures
        forall|i: int| 0 <= i < encode_scalar(v).len() ==> #[trigger] encode_scalar(v)[i] >= 0x80,
{
    assert((0xC0u8 | (((v >> 6) & 0x1F) as u8)) >= 0x80) by (bit_vector);
    assert((0xE0u8 | (((v >> 12) & 0x0F) as u8)) >= 0x80) by (bit_vector);
    assert((0xF0u8 | (((v >> 18) & 0x7) as u8)) >= 0x80) by (bit_vector);
    assert((0x80u8 | ((v & 0x3F) as u8)) >= 0x80) by (bit_vector);
    assert((0x80u8 | (((v >> 6) & 0x3F) as u8)) >= 0x80) by (bit_vector);
    assert((0x80u8 | (((v >> 12) & 0x3F) as u8)) >= 0x80) by (bit_vector);
}

/// An ASCII character's byte occurs in the encoding of a text only where the
/// text has that character.
pub proof fn lemma_utf8_ascii_byte(s: Seq<char>, a: char)
    requires
        (a as u32) < 0x80,
        !s.contains(a),
    ensures
        !utf8(s).contains((a as u32) as u8),
    decreases s.len(),
{
    let b = (a as u32) as u8;
    if s.len() > 0 {
        let c = s[0];
        assert(!s.drop_first().contains(a)) by {
            if s.drop_first().contains(a) {
                let j = choose|j: int| 0 <= j < s.drop_first().len() && s.drop_first()[j] == a;
                assert(s[j + 1] == a);
            }
        }
        lemma_utf8_ascii_byte(s.drop_first(), a);
        vstd::utf8::char_is_scalar(c);
        let v = c as u32;
        let w = a as u32;
        vstd::utf8::char_u32_cast(c, v);
        vstd::utf8::char_u32_cast(a, w);
        assert(v != w);
        if v < 0x80 {
            lemma_utf8_ascii_char(c);
            assert((v as u8) != (w as u8)) by (bit_vector)
                requires
                    v < 0x80,
                    w < 0x80,
                    v != w,
            ;
        } else {
            lemma_scalar_high_bytes(v);
            assert((w as u8) < 0x80) by (bit_vector)
                requires
                    w < 0x80,
            ;
        }
        assert(s == seq![c] + s.drop_first());
        lemma_utf8_concat(seq![c], s.drop_first());
        assert(utf8(seq![c]) == encode_scalar(v) + utf8(Seq::<char>::empty())) by {
            assert(seq![c].drop_first() =~= Seq::<char>::empty());
        }
        assert(utf8(seq![c]) == encode_scalar(v));
        if utf8(s).contains(b) {
            let k = choose|k: int| 0 <= k < utf8(s).len() && utf8(s)[k] == b;
            if k < utf8(seq![c]).len() {
                assert(utf8(seq![c])[k] == b);
            } else {
                assert(utf8(s.drop_first())[k - utf8(seq![c]).len()] == b);
            }
        }
    }
}

// ---------------------------------------------------------------------------
// Outside functions of std that vstd does not specify
// ---------------------------------------------------------------------------

/// `String::push`: appends one character.
#[verifier::external_body]
pub(crate) fn string_push(s: &mut String, c: char)
    ensures
        final(s)@ == old(s)@.push(c),
{
    s.push(c);
}

/// `String::from_utf8`: the documentation says it succeeds exactly on valid
/// UTF-8, and then holds the characters that the bytes encode.
#[verifier::external_body]
pub(crate) fn string_from_utf8(bytes: Vec<u8>) -> (out: Option<String>)
    ensures
        out is Some <==> valid_utf8(bytes@),
        out matches Some(s) ==> s@ == decode_utf8(bytes@),
{
    match String::from_utf8(bytes) {
        Ok(s) => Some(s),
        Err(_) => None,
    }
}

/// What `String::from_utf8_lossy` makes of a byte string.
pub uninterp spec fn utf8_lossy(bytes: Seq<u8>) -> Seq<char>;

/// `String::from_utf8_lossy`, made an owned string: the text of the bytes,
/// each invalid sequence replaced by U+FFFD. Claimed: the result is a
/// function of the bytes, and valid UTF-8 comes back as the text it encodes
/// (as the documentation says); the replacement is left unsaid.
#[verifier::external_body]
pub(crate) fn string_from_utf8_lossy(bytes: &[u8]) -> (out: String)
    ensures
        out@ == utf8_lossy(bytes@),
        valid_utf8(bytes@) ==> out@ == decode_utf8(bytes@),
{
    String::from_utf8_lossy(bytes).into_owned()
}

/// `std::str::from_utf8`: whether a byte slice is valid UTF-8.
#[verifier::external_body]
pub(crate) fn is_valid_utf8(bytes: &[u8]) -> (out: bool)
    ensures
        out == valid_utf8(bytes@),
{
    std::str::from_utf8(bytes).is_ok()
}

// ---------------------------------------------------------------------------
// Executable helpers
// ---------------------------------------------------------------------------

/// Collects the characters of a string slice.
pub fn chars_of(s: &str) -> (out: Vec<char>)
    ensures
        out@ == s@,
{
    let mut out: Vec<char> = Vec::new();
    for c in it: s.chars()
        invariant
            out@ == it.seq().take(it.index() as int),
            it.seq() == s@,
    {
        out.push(c);
    }
    out
}

/// Builds a string from the characters `cs[from..to]`.
pub fn string_from_chars(cs: &[char], from: usize, to: usize) -> (s: String)
    requires
        from <= to <= cs@.len(),
    ensures
        s@ == cs@.subrange(from as int, to as int),
{
    let mut s = String::new();
    let mut i: usize = from;
    while i < to
        invariant
            from <= i <= to <= cs@.len(),
            s@ == cs@.subrange(from as int, i as int),
        decreases to - i,
    {
        string_push(&mut s, cs[i]);
        i = i + 1;
    }
    s
}

/// The bytes of a string (its UTF-8 encoding).
pub fn bytes_of(s: &str) -> (out: Vec<u8>)
    ensures
        out@ == utf8(s@),
{
    let b = s.as_bytes();
    let mut out: Vec<u8> = Vec::with_capacity(b.len());
    let mut i: usize = 0;
    while i < b.len()
        invariant
            i <= b@.len(),
            b@ == utf8(s@),
            out@ == b@.subrange(0, i as int),
        decreases b@.len() - i,
    {
        out.push(b[i]);
        i = i + 1;
    }
    out
}

/// Appends the bytes `src[from..to]` to `dst`.
pub fn push_bytes(dst: &mut Vec<u8>, src: &[u8], from: usize, to: usize)
    requires
        from <= to <= src@.len(),
    ensures
        final(dst)@ == old(dst)@ + src@.subrange(from as int, to as int),
{
    let mut i: usize = from;
    while i < to
        invariant
            from <= i <= to <= src@.len(),
            dst@ == old(dst)@ + src@.subrange(from as int, i as int),
        decreases to - i,
    {
        dst.push(src[i]);
        i = i + 1;
        assert(src@.subrange(from as int, i as int) == src@.subrange(from as int, i - 1).push(src@[i - 1]));
    }
}

/// Appends the UTF-8 bytes of `s` to `dst`.
pub fn push_str_bytes(dst: &mut Vec<u8>, s: &str)
    ensures
        final(dst)@ == old(dst)@ + utf8(s@),
{
    let b = s.as_bytes();
    push_bytes(dst, b, 0, b.len());
    assert(b@.subrange(0, b@.len() as int) == b@);
}

/// Compares two byte strings lexicographically: `true` when `a < b`.
pub fn bytes_less(a: &[u8], b: &[u8]) -> (out: bool)
    ensures
        out == bytes_lt(a@, b@),
{
    let mut i: usize = 0;
    assert(a@.skip(0) == a@);
    assert(b@.skip(0) == b@);
    while i < a.len() && i < b.len()
        invariant
            i <= a@.len(),
            i <= b@.len(),
            a@.subrange(0, i as int) == b@.subrange(0, i as int),
            bytes_lt(a@, b@) == bytes_lt(a@.skip(i as int), b@.skip(i as int)),
        decreases a@.len() - i,
    {
        if a[i] != b[i] {
            return a[i] < b[i];
        }
        assert(a@.skip(i as int).drop_first() == a@.skip(i + 1));
        assert(b@.skip(i as int).drop_first() == b@.skip(i + 1));
        i = i + 1;
        assert(a@.subrange(0, i as int) == a@.subrange(0, i - 1).push(a@[i - 1]));
        assert(b@.subrange(0, i as int) == b@.subrange(0, i - 1).push(b@[i - 1]));
    }
    i < b.len()
}

/// Finds the first occurrence of `x` in `s` at or after `from`.
pub fn find_byte(s: &[u8], x: u8, from: usize) -> (out: Option<usize>)
    ensures
        out is None <==> find_from(s@, x, from as int) is None,
        out matches Some(j) ==> find_from(s@, x, from as int) == Some(j as int),
        out matches Some(j) ==> from <= j < s@.len(),
{
    proof {
        lemma_find_from(s@, x, from as int);
    }
    let mut i: usize = from;
    while i < s.len()
        invariant
            from <= i,
            find_from(s@, x, from as int) == find_from(s@, x, i as int),
        decreases s@.len() - i,
    {
        if s[i] == x {
            return Some(i);
        }
        i = i + 1;
    }
    None
}

/// Finds the first occurrence of `x` in `s` at or after `from`.
pub fn find_char(s: &[char], x: char, from: usize) -> (out: Option<usize>)
    ensures
        out is None <==> find_from(s@, x, from as int) is None,
        out matches Some(j) ==> find_from(s@, x, from as int) == Some(j as int),
        out matches Some(j) ==> from <= j < s@.len(),
{
    proof {
        lemma_find_from(s@, x, from as int);
    }
    let mut i: usize = from;
    while i < s.len()
        invariant
            from <= i,
            find_from(s@, x, from as int) == find_from(s@, x, i as int),
        decreases s@.len() - i,
    {
        if s[i] == x {
            return Some(i);
        }
        i = i + 1;
    }
    None
}

/// The next line of `s` starting at `pos` (which must be inside `s`):
/// its end (after dropping a `\r` before the `\n`) and where the line after
/// it starts.
pub fn next_line(s: &[char], pos: usize) -> (out: (usize, usize))
    requires
        pos < s@.len(),
    ensures
        pos <= out.0 <= s@.len(),
        pos < out.1 <= s@.len(),
        lines_from(s@, pos as int) == seq![s@.subrange(pos as int, out.0 as int)] + lines_from(
            s@,
            out.1 as int,
        ),
{
    match find_char(s, '\n', pos) {
        None => {
            assert(lines_from(s@, s@.len() as int) == Seq::<Seq<char>>::empty());
            assert(lines_from(s@, pos as int) == seq![s@.subrange(pos as int, s@.len() as int)]);
            assert(seq![s@.subrange(pos as int, s@.len() as int)] + Seq::<Seq<char>>::empty() == seq![s@.subrange(pos as int, s@.len() as int)]);
            (s.len(), s.len())
        },
        Some(j) => {
            proof {
                lemma_find_from(s@, '\n', pos as int);
            }
            assert(find_from(s@, '\n', pos as int) == Some(j as int));
            assert(j < s.len());
            if j > pos && s[j - 1] == '\r' {
                assert(s@.subrange(pos as int, j as int).drop_last() == s@.subrange(pos as int, j - 1));
                assert(strip_cr(s@.subrange(pos as int, j as int)) == s@.subrange(pos as int, j - 1));
                (j - 1, j + 1)
            } else {
                assert(strip_cr(s@.subrange(pos as int, j as int)) == s@.subrange(pos as int, j as int));
                (j, j + 1)
            }
        },
    }
}

/// `true` when `cs[at..at + key.len()]` equals `key`.
pub fn has_at(cs: &[char], at: usize, end: usize, key: &[char]) -> (out: bool)
    requires
        at <= end <= cs@.len(),
    ensures
        out == starts_with(cs@.subrange(at as int, end as int), key@),
{
    if key.len() > end - at {
        return false;
    }
    let mut i: usize = 0;
    while i < key.len()
        invariant
            at <= end <= cs@.len(),
            key@.len() <= end - at,
            i <= key@.len(),
            forall|k: int| 0 <= k < i ==> cs@[at + k] == key@[k],
        decreases key@.len() - i,
    {
        if cs[at + i] != key[i] {
            assert(cs@.subrange(at as int, end as int).subrange(0, key@.len() as int)[i as int] != key@[i as int]);
            return false;
        }
        i = i + 1;
    }
    assert(cs@.subrange(at as int, end as int).subrange(0, key@.len() as int) =~= key@);
    true
}

/// Finds the first blank line separator `\n\n` in `cs`.
pub fn find_blank_line(cs: &[char]) -> (out: Option<usize>)
    ensures
        out is None <==> find_seq_from(cs@, seq!['\n', '\n'], 0) is None,
        out matches Some(k) ==> find_seq_from(cs@, seq!['\n', '\n'], 0) == Some(k as int),
        out matches Some(k) ==> k + 2 <= cs@.len(),
{
    let ghost p = seq!['\n', '\n'];
    let mut i: usize = 0;
    while cs.len() >= 2 && i < cs.len() - 1
        invariant
            p == seq!['\n', '\n'],
            i <= cs@.len(),
            find_seq_from(cs@, p, 0) == find_seq_from(cs@, p, i as int),
        decreases cs@.len() - i,
    {
        if cs[i] == '\n' && cs[i + 1] == '\n' {
            assert(cs@.subrange(i as int, i + 2) =~= p);
            return Some(i);
        }
        assert(!occurs_at(cs@, p, i as int)) by {
            if occurs_at(cs@, p, i as int) {
                assert(cs@.subrange(i as int, i + 2)[0] == cs@[i as int]);
                assert(cs@.subrange(i as int, i + 2)[1] == cs@[i + 1]);
            }
        }
        i = i + 1;
    }
    None
}

/// `true` when two byte strings are equal.
pub fn bytes_eq(a: &[u8], b: &[u8]) -> (out: bool)
    ensures
        out == (a@ == b@),
{
    if a.len() != b.len() {
        return false;
    }
    let mut i: usize = 0;
    while i < a.len()
        invariant
            a@.len() == b@.len(),
            i <= a@.len(),
            forall|k: int| 0 <= k < i ==> a@[k] == b@[k],
        decreases a@.len() - i,
    {
        if a[i] != b[i] {
            return false;
        }
        i = i + 1;
    }
    assert(a@ =~= b@);
    true
}

/// `true` when two string slices hold the same text.
pub fn str_eq(a: &str, b: &str) -> (out: bool)
    ensures
        out == (a@ == b@),
{
    let same = bytes_eq(a.as_bytes(), b.as_bytes());
    proof {
        if same {
            lemma_utf8_injective(a@, b@);
        }
    }
    same
}

/// Copies `s[from..to]` into a new vector.
pub fn copy_bytes(s: &[u8], from: usize, to: usize) -> (out: Vec<u8>)
    requires
        from <= to <= s@.len(),
    ensures
        out@ == s@.subrange(from as int, to as int),
{
    let mut out: Vec<u8> = Vec::new();
    push_bytes(&mut out, s, from, to);
    out
}

/// Copies `s[from..to]` into a new vector.
pub fn copy_chars(s: &[char], from: usize, to: usize) -> (out: Vec<char>)
    requires
        from <= to <= s@.len(),
    ensures
        out@ == s@.subrange(from as int, to as int),
{
    let mut out: Vec<char> = Vec::new();
    let mut i: usize = from;
    while i < to
        invariant
            from <= i <= to <= s@.len(),
            out@ == s@.subrange(from as int, i as int),
        decreases to - i,
    {
        out.push(s[i]);
        i = i + 1;
    }
    out
}

/// Decimal digits of `n`.
pub fn usize_to_decimal(n: usize) -> (out: Vec<u8>)
    ensures
        out@ == decimal(n as nat),
    decreases n,
{
    if n < 10 {
        let d: u8 = (48 + n) as u8;
        let mut out: Vec<u8> = Vec::new();
        out.push(d);
        out
    } else {
        let mut out = usize_to_decimal(n / 10);
        let d: u8 = (48 + n % 10) as u8;
        out.push(d);
        out
    }
}

/// Decimal digits of `n`.
pub fn u64_to_decimal(n: u64) -> (out: Vec<u8>)
    ensures
        out@ == decimal(n as nat),
    decreases n,
{
    if n < 10 {
        let d: u8 = (48 + n) as u8;
        let mut out: Vec<u8> = Vec::new();
        out.push(d);
        out
    } else {
        let mut out = u64_to_decimal(n / 10);
        let d: u8 = (48 + n % 10) as u8;
        out.push(d);
        out
    }
}

/// Parses a decimal number as Rust's `usize::from_str` does.
pub fn parse_usize(s: &[u8]) -> (out: Option<usize>)
    ensures
        out == parse_usize_spec(s@),
{
    let start: usize = if s.len() > 1 && s[0] == 43u8 { 1 } else { 0 };
    let ghost digits = unsigned_digits(s@);
    assert(digits == s@.skip(start as int));
    if start == s.len() {
        return None;
    }
    // every remaining byte must be a digit
    let mut i: usize = start;
    while i < s.len()
        invariant
            start <= i <= s@.len(),
            digits == s@.skip(start as int),
            digits == unsigned_digits(s@),
            digits.len() > 0,
            forall|j: int| 0 <= j < i - start ==> is_digit(#[trigger] digits[j]),
        decreases s@.len() - i,
    {
        assert(digits[i - start] == s@[i as int]);
        if s[i] < 48 || s[i] > 57 {
            assert(!is_digit(digits[i - start]));
            assert(!all_digits(digits));
            return None;
        }
        i = i + 1;
    }
    let mut value: usize = 0;
    let mut i: usize = start;
    while i < s.len()
        invariant
            start <= i <= s@.len(),
            digits == s@.skip(start as int),
            digits == unsigned_digits(s@),
            digits.len() > 0,
            all_digits(digits),
            value as nat == digits_value(digits.subrange(0, i - start)),
        decreases s@.len() - i,
    {
        let ghost prefix = digits.subrange(0, i - start);
        let ghost next = digits.subrange(0, i + 1 - start);
        assert(digits[i - start] == s@[i as int]);
        assert(next.drop_last() == prefix);
        assert(next.last() == s@[i as int]);
        let d: usize = (s[i] - 48) as usize;
        assert(digits_value(next) == value * 10 + d);
        if value > (usize::MAX - d) / 10 {
            proof {
                assert(value * 10 + d > usize::MAX) by (nonlinear_arith)
                    requires
                        value > (usize::MAX - d) / 10,
                        d <= 9,
                ;
                lemma_digits_value_prefix(digits, i + 1 - start);
                assert(digits_value(digits) > usize::MAX);
            }
            return None;
        }
        proof {
            assert(value * 10 + d <= usize::MAX) by (nonlinear_arith)
                requires
                    value <= (usize::MAX - d) / 10,
            ;
        }
        value = value * 10 + d;
        i = i + 1;
    }
    assert(digits.subrange(0, digits.len() as int) == digits);
    Some(value)
}

/// A prefix of a digit string never has a larger value than the whole.
proof fn lemma_digits_value_prefix(s: Seq<u8>, k: int)
    requires
        0 <= k <= s.len(),
        all_digits(s),
    ensures
        digits_value(s.subrange(0, k)) <= digits_value(s),
    decreases s.len() - k,
{
    if k < s.len() {
        lemma_digits_value_prefix(s.drop_last(), k);
        assert(s.drop_last().subrange(0, k) == s.subrange(0, k));
        assert(digits_value(s.drop_last()) <= digits_value(s)) by (nonlinear_arith)
            requires
                digits_value(s) == digits_value(s.drop_last()) * 10 + (s.last() - 48) as nat,
        ;
    } else {
        assert(s.subrange(0, k) == s);
    }
}

/// The decimal digits of a number are digits and have the number's value.
pub proof fn lemma_decimal(n: nat)
    ensures
        decimal(n).len() > 0,
        forall|i: int| 0 <= i < decimal(n).len() ==> is_digit(#[trigger] decimal(n)[i]),
        digits_value(decimal(n)) == n,
        decimal(n)[0] != 43u8,
    decreases n,
{
    if n < 10 {
        assert(decimal(n).drop_last() =~= Seq::<u8>::empty());
        assert(digits_value(decimal(n)) == digits_value(Seq::<u8>::empty()) * 10 + (decimal(n).last() - 48) as nat);
    } else {
        lemma_decimal(n / 10);
        let d = decimal(n / 10);
        assert(decimal(n).drop_last() == d);
        assert(decimal(n).last() == (48 + n % 10) as u8);
        assert((decimal(n).last() - 48) as nat == n % 10);
        assert(n == (n / 10) * 10 + n % 10);
        assert(digits_value(decimal(n)) == digits_value(d) * 10 + (decimal(n).last() - 48) as nat);
        assert forall|i: int| 0 <= i < decimal(n).len() implies is_digit(#[trigger] decimal(n)[i]) by {
            if i < d.len() {
                assert(decimal(n)[i] == d[i]);
            }
        }
        assert(decimal(n)[0] == d[0]);
    }
}

/// Parsing the decimal digits of a `usize` gives it back.
pub proof fn lemma_parse_decimal(n: usize)
    ensures
        parse_usize_spec(decimal(n as nat)) == Some(n),
{
    lemma_decimal(n as nat);
}

// ---------------------------------------------------------------------------
// Trimming and splitting
// ---------------------------------------------------------------------------

/// Unicode's `White_Space` property, which `char::is_whitespace` tests.
pub open spec fn is_white(c: char) -> bool {
    let v = c as u32;
    ||| 0x09 <= v <= 0x0d
    ||| v == 0x20
    ||| v == 0x85
    ||| v == 0xa0
    ||| v == 0x1680
    ||| 0x2000 <= v <= 0x200a
    ||| v == 0x2028
    ||| v == 0x2029
    ||| v == 0x202f
    ||| v == 0x205f
    ||| v == 0x3000
}

/// `s` without its leading white space.
pub open spec fn trim_start(s: Seq<char>) -> Seq<char>
    decreases s.len(),
{
    if s.len() > 0 && is_white(s[0]) {
        trim_start(s.drop_first())
    } else {
        s
    }
}

/// `s` without its trailing white space.
pub open spec fn trim_end(s: Seq<char>) -> Seq<char>
    decreases s.len(),
{
    if s.len() > 0 && is_white(s.last()) {
        trim_end(s.drop_last())
    } else {
        s
    }
}

/// Leading white space is taken off a longer text as off its start.
proof fn lemma_trim_start_push(x: Seq<char>, c: char)
    ensures
        trim_start(x.push(c)) == if trim_start(x).len() > 0 {
            trim_start(x).push(c)
        } else {
            trim_start(seq![c])
        },
    decreases x.len(),
{
    if x.len() == 0 {
        assert(x.push(c) =~= seq![c]);
    } else if is_white(x[0]) {
        assert(x.push(c).drop_first() =~= x.drop_first().push(c));
        lemma_trim_start_push(x.drop_first(), c);
    }
}

/// A trailing white character makes no difference to the trimmed text.
pub proof fn lemma_trim_drop_white(l: Seq<char>)
    requires
        l.len() > 0,
        is_white(l.last()),
    ensures
        trim(l) == trim(l.drop_last()),
{
    let x = l.drop_last();
    let c = l.last();
    assert(x.push(c) =~= l);
    lemma_trim_start_push(x, c);
    let t = trim_start(x);
    if t.len() > 0 {
        assert(t.push(c).drop_last() =~= t);
    } else {
        assert(seq![c].drop_first() =~= Seq::<char>::empty());
        assert(trim_start(Seq::<char>::empty()) == Seq::<char>::empty());
        assert(seq![c][0] == c);
        assert(trim_start(seq![c]) == trim_start(seq![c].drop_first()));
    }
}

/// `s` without white space at either end, as `str::trim` gives it.
pub open spec fn trim(s: Seq<char>) -> Seq<char> {
    trim_end(trim_start(s))
}

/// Whether the character has Unicode's `White_Space` property, as
/// `char::is_whitespace` tests it.
pub(crate) fn char_is_whitespace(c: char) -> (out: bool)
    ensures
        out == is_white(c),
{
    let v = c as u32;
    (0x09 <= v && v <= 0x0d) || v == 0x20 || v == 0x85 || v == 0xa0 || v == 0x1680 || (0x2000 <= v && v <= 0x200a)
        || v == 0x2028 || v == 0x2029 || v == 0x202f || v == 0x205f || v == 0x3000
}

/// The bounds of `cs[from..to]` with white space taken off both ends.
pub fn trim_range(cs: &[char], from: usize, to: usize) -> (out: (usize, usize))
    requires
        from <= to <= cs@.len(),
    ensures
        from <= out.0 <= out.1 <= to,
        cs@.subrange(out.0 as int, out.1 as int) == trim(cs@.subrange(from as int, to as int)),
{
    let mut i: usize = from;
    while i < to && char_is_whitespace(cs[i])
        invariant
            from <= i <= to <= cs@.len(),
            trim_start(cs@.subrange(from as int, to as int)) == trim_start(cs@.subrange(i as int, to as int)),
        decreases to - i,
    {
        assert(cs@.subrange(i as int, to as int).drop_first() == cs@.subrange(i + 1, to as int));
        i = i + 1;
    }
    let mut j: usize = to;
    while j > i && char_is_whitespace(cs[j - 1])
        invariant
            from <= i <= j <= to <= cs@.len(),
            trim_end(cs@.subrange(i as int, to as int)) == trim_end(cs@.subrange(i as int, j as int)),
        decreases j - i,
    {
        assert(cs@.subrange(i as int, j as int).drop_last() == cs@.subrange(i as int, j - 1));
        j = j - 1;
    }
    (i, j)
}

/// The pieces of `s` between occurrences of `c`, as `str::split` yields them.
pub open spec fn split_at_char(s: Seq<char>, c: char) -> Seq<Seq<char>>
    decreases s.len(),
{
    match find_from(s, c, 0) {
        None => seq![s],
        Some(j) => {
            proof {
                lemma_find_from(s, c, 0);
            }
            seq![s.take(j)] + split_at_char(s.skip(j + 1), c)
        },
    }
}

/// Splits `cs` at each occurrence of `c`.
pub fn split_chars(cs: &[char], c: char) -> (out: Vec<Vec<char>>)
    ensures
        out@.len() == split_at_char(cs@, c).len(),
        forall|i: int| 0 <= i < out@.len() ==> (#[trigger] out@[i])@ == split_at_char(cs@, c)[i],
{
    let mut out: Vec<Vec<char>> = Vec::new();
    let ghost mut done: Seq<Seq<char>> = Seq::empty();
    let mut start: usize = 0;
    let n = cs.len();
    assert(cs@.skip(0) == cs@);
    loop
        invariant
            n == cs@.len(),
            start <= cs@.len(),
            out@.len() == done.len(),
            forall|i: int| 0 <= i < out@.len() ==> (#[trigger] out@[i])@ == done[i],
            done + split_at_char(cs@.skip(start as int), c) == split_at_char(cs@, c),
        decreases cs@.len() - start,
    {
        let ghost rest = cs@.skip(start as int);
        match find_char(cs, c, start) {
            None => {
                proof {
                    lemma_find_from(cs@, c, start as int);
                    lemma_find_from(rest, c, 0);
                    if find_from(rest, c, 0) is Some {
                        let j = find_from(rest, c, 0)->0;
                        assert(cs@[start + j] == c);
                    }
                }
                let piece = copy_chars(cs, start, cs.len());
                assert(piece@ == rest);
                out.push(piece);
                proof {
                    done = done.push(rest);
                    assert(split_at_char(rest, c) == seq![rest]);
                }
                assert(done == split_at_char(cs@, c));
                return out;
            },
            Some(j) => {
                proof {
                    lemma_find_from(cs@, c, start as int);
                    lemma_find_from_at(rest, c, 0, j - start);
                }
                let piece = copy_chars(cs, start, j);
                assert(piece@ == rest.take(j - start));
                out.push(piece);
                proof {
                    assert(rest.skip(j - start + 1) == cs@.skip(j + 1));
                    assert(split_at_char(rest, c) == seq![rest.take(j - start)] + split_at_char(cs@.skip(j + 1), c));
                    assert(done + split_at_char(rest, c) == done.push(rest.take(j - start)) + split_at_char(
                        cs@.skip(j + 1),
                        c,
                    ));
                    done = done.push(rest.take(j - start));
                }
                start = j + 1;
            },
        }
    }
}

/// The first position of `x` in `cs[from..to]`, counted from `from`.
pub fn find_char_in(cs: &[char], x: char, from: usize, to: usize) -> (out: Option<usize>)
    requires
        from <= to <= cs@.len(),
    ensures
        match out {
            Some(j) => from <= j < to && find_from(cs@.subrange(from as int, to as int), x, 0) == Some(
                j - from,
            ),
            None => find_from(cs@.subrange(from as int, to as int), x, 0) is None,
        },
{
    let ghost sub = cs@.subrange(from as int, to as int);
    let mut i: usize = from;
    while i < to
        invariant
            from <= i <= to <= cs@.len(),
            sub == cs@.subrange(from as int, to as int),
            forall|k: int| 0 <= k < i - from ==> sub[k] != x,
        decreases to - i,
    {
        if cs[i] == x {
            proof {
                lemma_find_from_at(sub, x, 0, i - from);
            }
            return Some(i);
        }
        i = i + 1;
    }
    proof {
        lemma_find_from(sub, x, 0);
        if find_from(sub, x, 0) is Some {
            let j = find_from(sub, x, 0)->0;
            assert(sub[j] == x);
        }
    }
    None
}

/// `true` when the two characters `a`, `b` occur next to each other in `cs`.
pub fn has_pair(cs: &[char], a: char, b: char) -> (out: bool)
    ensures
        out == contains_seq(cs@, seq![a, b]),
{
    let mut i: usize = 0;
    while cs.len() >= 2 && i < cs.len() - 1
        invariant
            i <= cs@.len(),
            forall|k: int| 0 <= k < i && k + 1 < cs@.len() ==> !(#[trigger] cs@[k] == a && cs@[k + 1] == b),
        decreases cs@.len() - i,
    {
        if cs[i] == a && cs[i + 1] == b {
            assert(cs@.subrange(i as int, i + 2) =~= seq![a, b]);
            assert(occurs_at(cs@, seq![a, b], i as int));
            return true;
        }
        i = i + 1;
    }
    assert(!contains_seq(cs@, seq![a, b])) by {
        if contains_seq(cs@, seq![a, b]) {
            let k = choose|k: int| occurs_at(cs@, seq![a, b], k);
            assert(cs@.subrange(k, k + 2)[0] == cs@[k]);
            assert(cs@.subrange(k, k + 2)[1] == cs@[k + 1]);
        }
    }
    false
}

/// `true` when `c` occurs in `cs`.
pub fn has_char(cs: &[char], c: char) -> (out: bool)
    ensures
        out == cs@.contains(c),
{
    proof {
        lemma_find_from(cs@, c, 0);
    }
    match find_char(cs, c, 0) {
        Some(j) => {
            assert(cs@[j as int] == c);
            true
        },
        None => false,
    }
}

/// The text after `prefix` when `s` starts with it.
pub fn strip_prefix(s: &str, prefix: &str) -> (out: Option<String>)
    ensures
        out is Some <==> starts_with(s@, prefix@),
        out matches Some(r) ==> r@ == s@.skip(prefix@.len() as int),
{
    let cs = chars_of(s);
    let ps = chars_of(prefix);
    let n = cs.len();
    if has_at(cs.as_slice(), 0, n, ps.as_slice()) {
        assert(cs@.subrange(0, n as int) == cs@);
        let r = string_from_chars(cs.as_slice(), ps.len(), n);
        assert(cs@.subrange(ps@.len() as int, n as int) == cs@.skip(ps@.len() as int));
        Some(r)
    } else {
        assert(cs@.subrange(0, n as int) == cs@);
        None
    }
}

/// A string slice without white space at either end.
pub fn trimmed(s: &str) -> (out: String)
    ensures
        out@ == trim(s@),
{
    let cs = chars_of(s);
    let (a, b) = trim_range(cs.as_slice(), 0, cs.len());
    assert(cs@.subrange(0, cs@.len() as int) == cs@);
    string_from_chars(cs.as_slice(), a, b)
}

} // verus!
