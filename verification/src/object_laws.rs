//! What the object format promises as a whole: writing an object and
//! reading it back gives the same object, and hex names survive the trip
//! through binary.

use vstd::prelude::*;
use vstd::utf8::*;
use crate::text::{lemma_find_from_shift, utf8, lemma_utf8_ascii, lemma_utf8_ascii_byte, find_from, lemma_find_from_at, find_seq_from, occurs_at, lines_from, strip_cr, starts_with, lemma_find_from};
use crate::object::{hex_decode, hex_decode_from, hex_encode, hex_char, hex_digit_value, hex_pair_value, is_lower_sha, TreeEntryModel, tree_entry_bytes, tree_bytes, parse_entries_from, unsafe_entry_name, CommitModel, TagModel, commit_text, tag_text, header_line, parent_lines, kw_tree, kw_parent, kw_author, kw_committer, kw_object, kw_type, kw_tag, kw_tagger, commit_line, fold_commit, tag_line, fold_tag, parse_commit_spec, parse_tag_spec, ObjectModel, object_bytes, body_bytes, kind_name, serializable, parse_object_spec, bytes_blob, bytes_tree, bytes_commit, bytes_tag, MAX_OBJECT_SIZE, tree_shas_decode};
use crate::text::{decimal, lemma_decimal, lemma_parse_decimal, is_digit};
use crate::codec::zlib_inflate;
use crate::object::{object_error, entries_error_from};
use crate::text::parse_usize_spec;
use crate::diff::dec_chars;

verus! {

broadcast use vstd::seq::group_seq_axioms;

/// A lowercase hex digit character and its value.
proof fn lemma_hex_digit_char(c: char)
    requires
        48 <= (c as u32) <= 57 || 97 <= (c as u32) <= 102,
    ensures
        hex_digit_value((c as u32) as u8) is Some,
        hex_digit_value((c as u32) as u8)->0 < 16,
        hex_char(hex_digit_value((c as u32) as u8)->0) == c,
        (c as u32) as u8 != 43u8,
{
    let u = c as u32;
    vstd::utf8::char_u32_cast(c, u);
    assert((u as u8) as u32 == u) by (bit_vector)
        requires
            u < 256,
    ;
}

/// Decoding the hex text of `sha` from pair `k` on gives the bytes whose
/// hex text is the rest of `sha`.
proof fn lemma_hex_decode_suffix(sha: Seq<char>, k: int)
    requires
        is_lower_sha(sha),
        0 <= k <= 20,
    ensures
        hex_decode_from(utf8(sha), 2 * k) is Some,
        hex_decode_from(utf8(sha), 2 * k)->0.len() == 20 - k,
        hex_encode(hex_decode_from(utf8(sha), 2 * k)->0) == sha.skip(2 * k),
    decreases 20 - k,
{
    lemma_utf8_ascii(sha);
    let b = utf8(sha);
    if k == 20 {
        assert(sha.skip(40) =~= Seq::<char>::empty());
    } else {
        lemma_hex_decode_suffix(sha, k + 1);
        let c0 = sha[2 * k];
        let c1 = sha[2 * k + 1];
        lemma_hex_digit_char(c0);
        lemma_hex_digit_char(c1);
        assert(b[2 * k] == (c0 as u32) as u8);
        assert(b[2 * k + 1] == (c1 as u32) as u8);
        let h = hex_digit_value(b[2 * k])->0;
        let l = hex_digit_value(b[2 * k + 1])->0;
        let v = (h * 16 + l) as u8;
        assert(hex_pair_value(b[2 * k], b[2 * k + 1]) == Some(v));
        assert(v / 16 == h && v % 16 == l) by (nonlinear_arith)
            requires
                h < 16,
                l < 16,
                v == h * 16 + l,
        ;
        let rest = hex_decode_from(b, 2 * k + 2)->0;
        assert(hex_decode_from(b, 2 * k) == Some(seq![v] + rest));
        let d = seq![v] + rest;
        assert(d.drop_first() == rest);
        assert(hex_encode(d) == seq![hex_char(v / 16), hex_char(v % 16)] + hex_encode(rest));
        assert(sha.skip(2 * k) =~= seq![c0, c1] + sha.skip(2 * k + 2));
    }
}

/// A canonical hex name decodes to 20 bytes whose hex text is the name.
pub proof fn lemma_hex_roundtrip(sha: Seq<char>)
    requires
        is_lower_sha(sha),
    ensures
        hex_decode(utf8(sha)) is Some,
        hex_decode(utf8(sha))->0.len() == 20,
        hex_encode(hex_decode(utf8(sha))->0) == sha,
{
    lemma_utf8_ascii(sha);
    lemma_hex_decode_suffix(sha, 0);
    assert(sha.skip(0) == sha);
}


/// Facts about the hex text of bytes: two lowercase hex digits per byte.
proof fn lemma_hex_encode_shape(bytes: Seq<u8>)
    ensures
        hex_encode(bytes).len() == 2 * bytes.len(),
        forall|i: int| 0 <= i < bytes.len() ==> #[trigger] hex_encode(bytes)[2 * i] == hex_char(bytes[i] / 16)
            && hex_encode(bytes)[2 * i + 1] == hex_char(bytes[i] % 16),
    decreases bytes.len(),
{
    if bytes.len() > 0 {
        lemma_hex_encode_shape(bytes.drop_first());
        let head = seq![hex_char(bytes[0] / 16), hex_char(bytes[0] % 16)];
        let tail = hex_encode(bytes.drop_first());
        assert(hex_encode(bytes) == head + tail);
        assert forall|i: int| 0 <= i < bytes.len() implies #[trigger] hex_encode(bytes)[2 * i] == hex_char(
            bytes[i] / 16,
        ) && hex_encode(bytes)[2 * i + 1] == hex_char(bytes[i] % 16) by {
            if i > 0 {
                assert(bytes.drop_first()[i - 1] == bytes[i]);
                assert(hex_encode(bytes)[2 * i] == tail[2 * (i - 1)]);
                assert(hex_encode(bytes)[2 * i + 1] == tail[2 * (i - 1) + 1]);
            }
        }
    }
}

/// The character of a hex digit value, and what reading it back gives.
proof fn lemma_hex_char_value(v: u8)
    requires
        v < 16,
    ensures
        (hex_char(v) as u32) < 0x80,
        hex_digit_value((hex_char(v) as u32) as u8) == Some(v),
        (hex_char(v) as u32) as u8 != 43u8,
{
}

/// Decoding the text of `bytes` from pair `k` gives the bytes from `k` on.
proof fn lemma_hex_encode_decode_suffix(bytes: Seq<u8>, k: int)
    requires
        0 <= k <= bytes.len(),
        forall|i: int| 0 <= i < hex_encode(bytes).len() ==> (#[trigger] hex_encode(bytes)[i] as u32) < 0x80,
        utf8(hex_encode(bytes)).len() == hex_encode(bytes).len(),
        forall|i: int|
            0 <= i < hex_encode(bytes).len() ==> #[trigger] utf8(hex_encode(bytes))[i] == (hex_encode(
                bytes,
            )[i] as u32) as u8,
        hex_encode(bytes).len() == 2 * bytes.len(),
        forall|i: int| 0 <= i < bytes.len() ==> #[trigger] hex_encode(bytes)[2 * i] == hex_char(bytes[i] / 16)
            && hex_encode(bytes)[2 * i + 1] == hex_char(bytes[i] % 16),
    ensures
        hex_decode_from(utf8(hex_encode(bytes)), 2 * k) == Some(bytes.skip(k)),
    decreases bytes.len() - k,
{
    let t = utf8(hex_encode(bytes));
    if k == bytes.len() {
        assert(bytes.skip(k) =~= Seq::<u8>::empty());
    } else {
        lemma_hex_encode_decode_suffix(bytes, k + 1);
        let x = bytes[k];
        assert(hex_encode(bytes)[2 * k] == hex_char(x / 16));
        lemma_hex_char_value(x / 16);
        lemma_hex_char_value(x % 16);
        assert(t[2 * k] == (hex_char(x / 16) as u32) as u8);
        assert(t[2 * k + 1] == (hex_char(x % 16) as u32) as u8);
        assert(((x / 16) * 16 + x % 16) as u8 == x);
        assert(hex_pair_value(t[2 * k], t[2 * k + 1]) == Some(x));
        assert(bytes.skip(k) =~= seq![x] + bytes.skip(k + 1));
    }
}

/// Hex text read back gives the original bytes.
pub proof fn lemma_bytes_hex_roundtrip(bytes: Seq<u8>)
    ensures
        hex_decode(utf8(hex_encode(bytes))) == Some(bytes),
{
    lemma_hex_encode_shape(bytes);
    let h = hex_encode(bytes);
    assert forall|i: int| 0 <= i < h.len() implies (#[trigger] h[i] as u32) < 0x80 by {
        let j = i / 2;
        assert(i == 2 * j || i == 2 * j + 1);
        if i == 2 * j {
            assert(h[2 * j] == hex_char(bytes[j] / 16));
            lemma_hex_char_value(bytes[j] / 16);
        } else {
            assert(h[2 * j] == hex_char(bytes[j] / 16));
            assert(h[2 * j + 1] == hex_char(bytes[j] % 16));
            lemma_hex_char_value(bytes[j] % 16);
        }
    }
    lemma_utf8_ascii(h);
    lemma_hex_encode_decode_suffix(bytes, 0);
    assert(bytes.skip(0) == bytes);
}


// ---------------------------------------------------------------------------
// Trees
// ---------------------------------------------------------------------------

/// A tree entry that the byte format can carry and give back: a mode
/// without spaces, a safe name, and a canonical hex name.
pub open spec fn entry_roundtrips(e: TreeEntryModel) -> bool {
    &&& !e.mode.contains(' ')
    &&& !unsafe_entry_name(e.name)
    &&& is_lower_sha(e.sha)
}

/// A tree body split off at its first entry.
proof fn lemma_tree_bytes_front(es: Seq<TreeEntryModel>)
    requires
        es.len() > 0,
    ensures
        tree_bytes(es) == tree_entry_bytes(es[0]) + tree_bytes(es.drop_first()),
    decreases es.len(),
{
    if es.len() == 1 {
        assert(es.drop_last() =~= Seq::<TreeEntryModel>::empty());
        assert(es.drop_first() =~= Seq::<TreeEntryModel>::empty());
        assert(tree_bytes(es) == tree_bytes(es.drop_last()) + tree_entry_bytes(es.last()));
    } else {
        lemma_tree_bytes_front(es.drop_last());
        assert(es.drop_last()[0] == es[0]);
        assert(es.drop_last().drop_first() == es.drop_first().drop_last());
        assert(es.drop_first().last() == es.last());
        assert(tree_bytes(es.drop_first()) == tree_bytes(es.drop_first().drop_last())
            + tree_entry_bytes(es.drop_first().last()));
    }
}

/// Parsing `prefix + tree_bytes(es)` from the end of the prefix gives `es`.
proof fn lemma_parse_entries(prefix: Seq<u8>, es: Seq<TreeEntryModel>)
    requires
        forall|k: int| 0 <= k < es.len() ==> entry_roundtrips(#[trigger] es[k]),
    ensures
        parse_entries_from(prefix + tree_bytes(es), prefix.len() as int) == Some(es),
    decreases es.len(),
{
    let d = prefix + tree_bytes(es);
    let i = prefix.len() as int;
    if es.len() == 0 {
        assert(d.len() == i);
    } else {
        let e = es[0];
        assert(entry_roundtrips(e));
        lemma_tree_bytes_front(es);
        lemma_hex_roundtrip(e.sha);
        let m = utf8(e.mode);
        let n = utf8(e.name);
        let h = hex_decode(utf8(e.sha))->0;
        let eb = tree_entry_bytes(e);
        assert(eb == m + seq![32u8] + n + seq![0u8] + h);
        let rest = es.drop_first();
        assert(d == (prefix + eb) + tree_bytes(rest));
        let sp = i + m.len();
        let nul = sp + 1 + n.len();
        assert(((' ' as u32) as u8) == 32u8);
        assert((('\0' as u32) as u8) == 0u8);
        lemma_utf8_ascii_byte(e.mode, ' ');
        assert(!e.name.contains('\0'));
        lemma_utf8_ascii_byte(e.name, '\0');
        assert forall|j: int| i <= j < sp implies d[j] != 32u8 by {
            assert(d[j] == m[j - i]);
        }
        assert(d[sp] == 32u8);
        lemma_find_from_at(d, 32u8, i, sp);
        assert forall|j: int| sp <= j < nul implies d[j] != 0u8 by {
            if j > sp {
                assert(d[j] == n[j - sp - 1]);
            }
        }
        assert(d[nul] == 0u8);
        lemma_find_from_at(d, 0u8, sp, nul);
        assert(d.subrange(i, sp) == m);
        assert(d.subrange(sp + 1, nul) == n);
        vstd::utf8::encode_utf8_valid_utf8(e.mode);
        vstd::utf8::encode_utf8_valid_utf8(e.name);
        vstd::utf8::encode_utf8_decode_utf8(e.mode);
        vstd::utf8::encode_utf8_decode_utf8(e.name);
        assert(d.subrange(nul + 1, nul + 21) == h);
        assert(nul + 21 == (prefix + eb).len());
        assert forall|k: int| 0 <= k < rest.len() implies entry_roundtrips(#[trigger] rest[k]) by {
            assert(rest[k] == es[k + 1]);
        }
        lemma_parse_entries(prefix + eb, rest);
        assert(seq![e] + rest == es);
    }
}

/// A tree body parses back to its entries.
pub proof fn lemma_tree_roundtrip(es: Seq<TreeEntryModel>)
    requires
        forall|k: int| 0 <= k < es.len() ==> entry_roundtrips(#[trigger] es[k]),
    ensures
        parse_entries_from(tree_bytes(es), 0) == Some(es),
{
    lemma_parse_entries(Seq::empty(), es);
    assert(Seq::<u8>::empty() + tree_bytes(es) == tree_bytes(es));
}


// ---------------------------------------------------------------------------
// Header blocks of commits and tags
// ---------------------------------------------------------------------------

/// Lines joined with a newline after each.
pub open spec fn block(ls: Seq<Seq<char>>) -> Seq<char>
    decreases ls.len(),
{
    if ls.len() == 0 {
        Seq::empty()
    } else {
        ls[0] + seq!['\n'] + block(ls.drop_first())
    }
}

/// A header line that the format carries unchanged: not empty, no newline.
pub open spec fn plain_line(l: Seq<char>) -> bool {
    l.len() > 0 && !l.contains('\n')
}

/// A line that `str::lines` gives back unchanged when a newline follows it.
pub open spec fn keeps_cr(l: Seq<char>) -> bool {
    strip_cr(l) == l
}

proof fn lemma_block_concat(a: Seq<Seq<char>>, b: Seq<Seq<char>>)
    ensures
        block(a + b) == block(a) + block(b),
    decreases a.len(),
{
    if a.len() == 0 {
        assert(a + b == b);
    } else {
        assert((a + b).drop_first() == a.drop_first() + b);
        assert((a + b)[0] == a[0]);
        lemma_block_concat(a.drop_first(), b);
    }
}

/// A block of plain lines ends with a newline and never has two in a row.
proof fn lemma_block_shape(ls: Seq<Seq<char>>)
    requires
        forall|k: int| 0 <= k < ls.len() ==> plain_line(#[trigger] ls[k]),
    ensures
        block(ls).len() >= ls.len(),
        ls.len() > 0 ==> block(ls).len() > 0 && block(ls).last() == '\n',
        ls.len() > 0 ==> block(ls)[0] == ls[0][0],
        forall|i: int|
            0 <= i < block(ls).len() - 1 ==> !(#[trigger] block(ls)[i] == '\n' && block(ls)[i + 1] == '\n'),
    decreases ls.len(),
{
    if ls.len() > 0 {
        let l = ls[0];
        let rest = ls.drop_first();
        assert forall|k: int| 0 <= k < rest.len() implies plain_line(#[trigger] rest[k]) by {
            assert(rest[k] == ls[k + 1]);
        }
        lemma_block_shape(rest);
        assert(plain_line(ls[0]));
        let b = block(ls);
        let r = block(rest);
        assert(b == l + seq!['\n'] + r);
        assert forall|i: int| 0 <= i < b.len() - 1 implies !(#[trigger] b[i] == '\n' && b[i + 1] == '\n') by {
            if i < l.len() {
                assert(b[i] == l[i]);
                assert(l.contains(l[i]));
            } else if i == l.len() {
                if rest.len() > 0 {
                    assert(b[i + 1] == r[0]);
                    assert(plain_line(rest[0]));
                    assert(rest[0].contains(rest[0][0]));
                }
            } else {
                assert(b[i] == r[i - l.len() - 1]);
                assert(b[i + 1] == r[i - l.len()]);
            }
        }
        if rest.len() == 0 {
            assert(b.last() == '\n');
        } else {
            assert(b.last() == r.last());
        }
        assert(b[0] == l[0]);
    }
}

/// The first occurrence of a pattern is at `p` when it occurs there and
/// nowhere before (from `from`).
proof fn lemma_find_seq_at(s: Seq<char>, pat: Seq<char>, from: int, p: int)
    requires
        0 <= from <= p,
        occurs_at(s, pat, p),
        forall|j: int| from <= j < p ==> !occurs_at(s, pat, j),
    ensures
        find_seq_from(s, pat, from) == Some(p),
    decreases p - from,
{
    if from < p {
        lemma_find_seq_at(s, pat, from + 1, p);
    }
}

/// The blank line after a header block is found right after the block.
proof fn lemma_find_blank(ls: Seq<Seq<char>>, m: Seq<char>)
    requires
        ls.len() > 0,
        forall|k: int| 0 <= k < ls.len() ==> plain_line(#[trigger] ls[k]),
    ensures
        find_seq_from(block(ls) + seq!['\n'] + m, seq!['\n', '\n'], 0) == Some(block(ls).len() - 1),
{
    lemma_block_shape(ls);
    let b = block(ls);
    let t = b + seq!['\n'] + m;
    let pat = seq!['\n', '\n'];
    let p = b.len() - 1;
    assert(t.subrange(p, p + 2) =~= pat);
    assert forall|j: int| 0 <= j < p implies !occurs_at(t, pat, j) by {
        if occurs_at(t, pat, j) {
            assert(t.subrange(j, j + 2)[0] == t[j]);
            assert(t.subrange(j, j + 2)[1] == t[j + 1]);
            assert(t[j] == b[j]);
            assert(t[j + 1] == b[j + 1]);
        }
    }
    lemma_find_seq_at(t, pat, 0, p);
}

/// `lines_from` in `a + b` past `a` gives the lines of `b`.
proof fn lemma_lines_shift(a: Seq<char>, b: Seq<char>, i: int)
    requires
        0 <= i,
    ensures
        lines_from(a + b, a.len() + i) == lines_from(b, i),
    decreases b.len() - i,
{
    let s = a + b;
    lemma_find_from_shift(a, b, '\n', i);
    if i < b.len() {
        lemma_find_from(b, '\n', i);
        match find_from(b, '\n', i) {
            None => {
                assert(s.subrange(a.len() + i, s.len() as int) == b.subrange(i, b.len() as int));
            },
            Some(j) => {
                assert(s.subrange(a.len() + i, a.len() + j) == b.subrange(i, j));
                lemma_lines_shift(a, b, j + 1);
            },
        }
    }
}

/// The lines of a block without its last newline are the block's lines.
proof fn lemma_block_lines(ls: Seq<Seq<char>>)
    requires
        ls.len() > 0,
        forall|k: int| 0 <= k < ls.len() ==> plain_line(#[trigger] ls[k]),
        forall|k: int| 0 <= k < ls.len() - 1 ==> keeps_cr(#[trigger] ls[k]),
    ensures
        lines_from(block(ls).drop_last(), 0) == ls,
    decreases ls.len(),
{
    let l = ls[0];
    let rest = ls.drop_first();
    assert(plain_line(l));
    assert(block(rest) == block(ls.drop_first()));
    if rest.len() == 0 {
        assert(block(ls) == l + seq!['\n']);
        assert(block(ls).drop_last() == l);
        assert(find_from(l, '\n', 0) is None) by {
            lemma_find_from(l, '\n', 0);
            if find_from(l, '\n', 0) is Some {
                let j = find_from(l, '\n', 0)->0;
                assert(l.contains(l[j]));
            }
        }
        assert(l.subrange(0, l.len() as int) == l);
        assert(lines_from(l, 0) == seq![l]);
        assert(seq![l] =~= ls);
    } else {
        assert forall|k: int| 0 <= k < rest.len() implies plain_line(#[trigger] rest[k]) by {
            assert(rest[k] == ls[k + 1]);
        }
        assert forall|k: int| 0 <= k < rest.len() - 1 implies keeps_cr(#[trigger] rest[k]) by {
            assert(rest[k] == ls[k + 1]);
        }
        lemma_block_lines(rest);
        lemma_block_shape(rest);
        let a = l + seq!['\n'];
        let r = block(rest).drop_last();
        assert(block(ls).drop_last() == a + r);
        let s = a + r;
        assert forall|j: int| 0 <= j < l.len() implies s[j] != '\n' by {
            assert(s[j] == l[j]);
            assert(l.contains(l[j]));
        }
        lemma_find_from_at(s, '\n', 0, l.len() as int);
        assert(keeps_cr(ls[0]));
        assert(s.subrange(0, l.len() as int) == l);
        lemma_lines_shift(a, r, 0);
        assert(lines_from(s, 0) == seq![l] + lines_from(s, (l.len() + 1) as int));
        assert(seq![l] + rest == ls);
    }
}

/// `t` starts with `k` when `t == k + v`, and what follows is `v`.
proof fn lemma_starts_kw(k: Seq<char>, v: Seq<char>)
    ensures
        starts_with(k + v, k),
        (k + v).skip(k.len() as int) == v,
{
    assert((k + v).subrange(0, k.len() as int) == k);
    assert((k + v).skip(k.len() as int) == v);
}

/// A line does not start with `k` when they differ at position `j`.
proof fn lemma_not_starts(t: Seq<char>, k: Seq<char>, j: int)
    requires
        0 <= j < t.len(),
        j < k.len(),
        t[j] != k[j],
    ensures
        !starts_with(t, k),
{
    if starts_with(t, k) {
        assert(t.subrange(0, k.len() as int)[j] == t[j]);
    }
}

proof fn lemma_fold_commit_concat(acc: CommitModel, a: Seq<Seq<char>>, b: Seq<Seq<char>>)
    ensures
        fold_commit(acc, a + b) == fold_commit(fold_commit(acc, a), b),
    decreases a.len(),
{
    if a.len() == 0 {
        assert(a + b == b);
    } else {
        assert((a + b).drop_first() == a.drop_first() + b);
        assert((a + b)[0] == a[0]);
        lemma_fold_commit_concat(commit_line(acc, a[0]), a.drop_first(), b);
    }
}

proof fn lemma_fold_tag_concat(acc: TagModel, a: Seq<Seq<char>>, b: Seq<Seq<char>>)
    ensures
        fold_tag(acc, a + b) == fold_tag(fold_tag(acc, a), b),
    decreases a.len(),
{
    if a.len() == 0 {
        assert(a + b == b);
    } else {
        assert((a + b).drop_first() == a.drop_first() + b);
        assert((a + b)[0] == a[0]);
        lemma_fold_tag_concat(tag_line(acc, a[0]), a.drop_first(), b);
    }
}

/// A header line as a line of text: `"<key> <value>"`.
pub open spec fn kv(key: Seq<char>, value: Seq<char>) -> Seq<char> {
    key + seq![' '] + value
}

/// The `parent` lines of a commit.
pub open spec fn parent_kvs(ps: Seq<Seq<char>>) -> Seq<Seq<char>> {
    Seq::new(ps.len(), |i: int| kv(kw_parent(), ps[i]))
}

/// The header lines of a commit.
pub open spec fn commit_kvs(c: CommitModel) -> Seq<Seq<char>> {
    seq![kv(kw_tree(), c.tree)] + parent_kvs(c.parents) + seq![
        kv(kw_author(), c.author),
        kv(kw_committer(), c.committer),
    ]
}

/// The header lines of a tag.
pub open spec fn tag_kvs(t: TagModel) -> Seq<Seq<char>> {
    seq![
        kv(kw_object(), t.object),
        kv(kw_type(), t.object_type),
        kv(kw_tag(), t.tag_name),
        kv(kw_tagger(), t.tagger),
    ]
}

proof fn lemma_header_line_block(key: Seq<char>, value: Seq<char>)
    ensures
        header_line(key, value) == block(seq![kv(key, value)]),
{
    let one = seq![kv(key, value)];
    assert(one.drop_first() =~= Seq::<Seq<char>>::empty());
    assert(block(Seq::<Seq<char>>::empty()) == Seq::<char>::empty());
    assert(block(one) == one[0] + seq!['\n'] + block(one.drop_first()));
    assert(header_line(key, value) =~= kv(key, value) + seq!['\n'] + Seq::<char>::empty());
}

proof fn lemma_fold_commit_one(acc: CommitModel, l: Seq<char>)
    ensures
        fold_commit(acc, seq![l]) == commit_line(acc, l),
{
    let one = seq![l];
    assert(one.drop_first() =~= Seq::<Seq<char>>::empty());
    assert(fold_commit(commit_line(acc, l), Seq::<Seq<char>>::empty()) == commit_line(acc, l));
}

proof fn lemma_fold_tag_one(acc: TagModel, l: Seq<char>)
    ensures
        fold_tag(acc, seq![l]) == tag_line(acc, l),
{
    let one = seq![l];
    assert(one.drop_first() =~= Seq::<Seq<char>>::empty());
    assert(fold_tag(tag_line(acc, l), Seq::<Seq<char>>::empty()) == tag_line(acc, l));
}

proof fn lemma_parent_lines_block(ps: Seq<Seq<char>>)
    ensures
        parent_lines(ps) == block(parent_kvs(ps)),
    decreases ps.len(),
{
    if ps.len() > 0 {
        lemma_parent_lines_block(ps.drop_last());
        assert(parent_kvs(ps) =~= parent_kvs(ps.drop_last()) + seq![kv(kw_parent(), ps.last())]);
        lemma_block_concat(parent_kvs(ps.drop_last()), seq![kv(kw_parent(), ps.last())]);
        lemma_header_line_block(kw_parent(), ps.last());
    } else {
        assert(parent_kvs(ps) =~= Seq::<Seq<char>>::empty());
    }
}

/// A commit's text is the block of its header lines, a blank line, and the message.
proof fn lemma_commit_text_block(c: CommitModel)
    ensures
        commit_text(c) == block(commit_kvs(c)) + seq!['\n'] + c.message,
{
    lemma_header_line_block(kw_tree(), c.tree);
    lemma_parent_lines_block(c.parents);
    lemma_header_line_block(kw_author(), c.author);
    lemma_header_line_block(kw_committer(), c.committer);
    let t = seq![kv(kw_tree(), c.tree)];
    let p = parent_kvs(c.parents);
    let a = seq![kv(kw_author(), c.author)];
    let m = seq![kv(kw_committer(), c.committer)];
    assert(commit_kvs(c) == t + p + (a + m));
    lemma_block_concat(t + p, a + m);
    lemma_block_concat(t, p);
    lemma_block_concat(a, m);
}

/// A tag's text is the block of its header lines, a blank line, and the message.
proof fn lemma_tag_text_block(t: TagModel)
    ensures
        tag_text(t) == block(tag_kvs(t)) + seq!['\n'] + t.message,
{
    let o = seq![kv(kw_object(), t.object)];
    let y = seq![kv(kw_type(), t.object_type)];
    let g = seq![kv(kw_tag(), t.tag_name)];
    let r = seq![kv(kw_tagger(), t.tagger)];
    lemma_header_line_block(kw_object(), t.object);
    lemma_header_line_block(kw_type(), t.object_type);
    lemma_header_line_block(kw_tag(), t.tag_name);
    lemma_header_line_block(kw_tagger(), t.tagger);
    assert(tag_kvs(t) == o + (y + (g + r)));
    lemma_block_concat(o, y + (g + r));
    lemma_block_concat(y, g + r);
    lemma_block_concat(g, r);
}

/// A header value the format carries: no newline.
pub open spec fn plain_value(v: Seq<char>) -> bool {
    !v.contains('\n')
}

/// A header value that is not the last header line: also no trailing `\r`,
/// which `str::lines` would drop.
pub open spec fn inner_value(v: Seq<char>) -> bool {
    plain_value(v) && !(v.len() > 0 && v.last() == '\r')
}

/// A commit that the byte format carries and gives back.
pub open spec fn commit_roundtrips(c: CommitModel) -> bool {
    &&& inner_value(c.tree)
    &&& forall|i: int| 0 <= i < c.parents.len() ==> inner_value(#[trigger] c.parents[i])
    &&& inner_value(c.author)
    &&& plain_value(c.committer)
}

/// A tag that the byte format carries and gives back.
pub open spec fn tag_roundtrips(t: TagModel) -> bool {
    &&& inner_value(t.object)
    &&& inner_value(t.object_type)
    &&& inner_value(t.tag_name)
    &&& plain_value(t.tagger)
}

/// `kv(key, v)` is a plain line when `v` is plain, and keeps a `\r`-free end.
proof fn lemma_kv_line(key: Seq<char>, v: Seq<char>)
    requires
        key.len() > 0,
        !key.contains('\n'),
        plain_value(v),
    ensures
        plain_line(kv(key, v)),
        inner_value(v) ==> keeps_cr(kv(key, v)),
{
    let l = kv(key, v);
    if l.contains('\n') {
        let j = choose|j: int| 0 <= j < l.len() && l[j] == '\n';
        if j < key.len() {
            assert(key.contains(key[j]));
        } else if j > key.len() {
            assert(l[j] == v[j - key.len() - 1]);
            assert(v.contains(v[j - key.len() - 1]));
        }
    }
    if inner_value(v) {
        if v.len() > 0 {
            assert(l.last() == v.last());
        }
    }
}

/// Reading the parent lines appends the parents.
proof fn lemma_fold_parents(acc: CommitModel, ps: Seq<Seq<char>>)
    ensures
        fold_commit(acc, parent_kvs(ps)) == (CommitModel { parents: acc.parents + ps, ..acc }),
    decreases ps.len(),
{
    if ps.len() == 0 {
        assert(parent_kvs(ps) =~= Seq::<Seq<char>>::empty());
        assert(acc.parents + ps =~= acc.parents);
    } else {
        let l = kv(kw_parent(), ps[0]);
        assert(parent_kvs(ps) =~= seq![l] + parent_kvs(ps.drop_first()));
        lemma_fold_commit_concat(acc, seq![l], parent_kvs(ps.drop_first()));
        lemma_not_starts(l, kw_tree() + seq![' '], 0);
        lemma_starts_kw(kw_parent() + seq![' '], ps[0]);
        assert(l == (kw_parent() + seq![' ']) + ps[0]);
        let acc2 = CommitModel { parents: acc.parents.push(ps[0]), ..acc };
        lemma_fold_commit_one(acc, l);
        assert(commit_line(acc, l) == acc2);
        lemma_fold_parents(acc2, ps.drop_first());
        assert(acc.parents.push(ps[0]) + ps.drop_first() =~= acc.parents + ps);
    }
}

/// A commit body parses back to the commit.
pub proof fn lemma_commit_roundtrip(c: CommitModel)
    requires
        commit_roundtrips(c),
    ensures
        parse_commit_spec(utf8(commit_text(c))) == Some(c),
{
    let ls = commit_kvs(c);
    let t = commit_text(c);
    lemma_commit_text_block(c);
    vstd::utf8::encode_utf8_valid_utf8(t);
    vstd::utf8::encode_utf8_decode_utf8(t);
    lemma_kv_line(kw_tree(), c.tree);
    lemma_kv_line(kw_author(), c.author);
    lemma_kv_line(kw_committer(), c.committer);
    assert forall|k: int| 0 <= k < ls.len() implies plain_line(#[trigger] ls[k]) && (k < ls.len() - 1
        ==> keeps_cr(ls[k])) by {
        if 1 <= k < ls.len() - 2 {
            assert(ls[k] == kv(kw_parent(), c.parents[k - 1]));
            assert(inner_value(c.parents[k - 1]));
            lemma_kv_line(kw_parent(), c.parents[k - 1]);
        }
    }
    lemma_find_blank(ls, c.message);
    lemma_block_shape(ls);
    let b = block(ls);
    let k = b.len() - 1;
    assert(t.subrange(0, k) == b.drop_last());
    assert(t.subrange(k + 2, t.len() as int) == c.message);
    lemma_block_lines(ls);
    let init = CommitModel {
        tree: Seq::empty(),
        parents: Seq::empty(),
        author: Seq::empty(),
        committer: Seq::empty(),
        message: c.message,
    };
    let lt = kv(kw_tree(), c.tree);
    let la = kv(kw_author(), c.author);
    let lc = kv(kw_committer(), c.committer);
    let pk = parent_kvs(c.parents);
    assert(ls == seq![lt] + pk + seq![la, lc]);
    lemma_fold_commit_concat(init, seq![lt] + pk, seq![la, lc]);
    lemma_fold_commit_concat(init, seq![lt], pk);
    lemma_starts_kw(kw_tree() + seq![' '], c.tree);
    assert(lt == (kw_tree() + seq![' ']) + c.tree);
    let s1 = CommitModel { tree: c.tree, ..init };
    lemma_fold_commit_one(init, lt);
    assert(fold_commit(init, seq![lt]) == s1);
    lemma_fold_parents(s1, c.parents);
    let s2 = CommitModel { parents: c.parents, ..s1 };
    assert(s1.parents + c.parents =~= c.parents);
    lemma_not_starts(la, kw_tree() + seq![' '], 0);
    lemma_not_starts(la, kw_parent() + seq![' '], 0);
    lemma_starts_kw(kw_author() + seq![' '], c.author);
    assert(la == (kw_author() + seq![' ']) + c.author);
    lemma_not_starts(lc, kw_tree() + seq![' '], 0);
    lemma_not_starts(lc, kw_parent() + seq![' '], 0);
    lemma_not_starts(lc, kw_author() + seq![' '], 0);
    lemma_starts_kw(kw_committer() + seq![' '], c.committer);
    assert(lc == (kw_committer() + seq![' ']) + c.committer);
    let s3 = CommitModel { author: c.author, ..s2 };
    let s4 = CommitModel { committer: c.committer, ..s3 };
    assert(commit_line(s2, la) == s3);
    assert(commit_line(s3, lc) == s4);
    assert(seq![la, lc] == seq![la] + seq![lc]);
    lemma_fold_commit_concat(s2, seq![la], seq![lc]);
    lemma_fold_commit_one(s2, la);
    lemma_fold_commit_one(s3, lc);
    assert(fold_commit(s2, seq![la, lc]) == s4);
    assert(s4 == c);
}

/// A tag body parses back to the tag.
pub proof fn lemma_tag_roundtrip(g: TagModel)
    requires
        tag_roundtrips(g),
    ensures
        parse_tag_spec(utf8(tag_text(g))) == Some(g),
{
    let ls = tag_kvs(g);
    let t = tag_text(g);
    lemma_tag_text_block(g);
    vstd::utf8::encode_utf8_valid_utf8(t);
    vstd::utf8::encode_utf8_decode_utf8(t);
    lemma_kv_line(kw_object(), g.object);
    lemma_kv_line(kw_type(), g.object_type);
    lemma_kv_line(kw_tag(), g.tag_name);
    lemma_kv_line(kw_tagger(), g.tagger);
    lemma_find_blank(ls, g.message);
    lemma_block_shape(ls);
    let b = block(ls);
    let k = b.len() - 1;
    assert(t.subrange(0, k) == b.drop_last());
    assert(t.subrange(k + 2, t.len() as int) == g.message);
    lemma_block_lines(ls);
    let init = TagModel {
        object: Seq::empty(),
        object_type: Seq::empty(),
        tag_name: Seq::empty(),
        tagger: Seq::empty(),
        message: g.message,
    };
    let lo = kv(kw_object(), g.object);
    let ly = kv(kw_type(), g.object_type);
    let lg = kv(kw_tag(), g.tag_name);
    let lr = kv(kw_tagger(), g.tagger);
    lemma_starts_kw(kw_object() + seq![' '], g.object);
    assert(lo == (kw_object() + seq![' ']) + g.object);
    lemma_not_starts(ly, kw_object() + seq![' '], 0);
    lemma_starts_kw(kw_type() + seq![' '], g.object_type);
    assert(ly == (kw_type() + seq![' ']) + g.object_type);
    lemma_not_starts(lg, kw_object() + seq![' '], 0);
    lemma_not_starts(lg, kw_type() + seq![' '], 1);
    lemma_starts_kw(kw_tag() + seq![' '], g.tag_name);
    assert(lg == (kw_tag() + seq![' ']) + g.tag_name);
    lemma_not_starts(lr, kw_object() + seq![' '], 0);
    lemma_not_starts(lr, kw_type() + seq![' '], 1);
    lemma_not_starts(lr, kw_tag() + seq![' '], 3);
    lemma_starts_kw(kw_tagger() + seq![' '], g.tagger);
    assert(lr == (kw_tagger() + seq![' ']) + g.tagger);
    let s1 = TagModel { object: g.object, ..init };
    let s2 = TagModel { object_type: g.object_type, ..s1 };
    let s3 = TagModel { tag_name: g.tag_name, ..s2 };
    let s4 = TagModel { tagger: g.tagger, ..s3 };
    assert(tag_line(init, lo) == s1);
    assert(tag_line(s1, ly) == s2);
    assert(tag_line(s2, lg) == s3);
    assert(tag_line(s3, lr) == s4);
    assert(ls == seq![lo] + (seq![ly] + (seq![lg] + seq![lr])));
    lemma_fold_tag_concat(init, seq![lo], seq![ly] + (seq![lg] + seq![lr]));
    lemma_fold_tag_concat(s1, seq![ly], seq![lg] + seq![lr]);
    lemma_fold_tag_concat(s2, seq![lg], seq![lr]);
    lemma_fold_tag_one(init, lo);
    lemma_fold_tag_one(s1, ly);
    lemma_fold_tag_one(s2, lg);
    lemma_fold_tag_one(s3, lr);
    assert(fold_tag(init, ls) == s4);
    assert(s4 == g);
}


// ---------------------------------------------------------------------------
// Whole objects
// ---------------------------------------------------------------------------

/// An object that the byte format carries and gives back.
pub open spec fn object_roundtrips(o: ObjectModel) -> bool {
    match o {
        ObjectModel::Blob(_) => true,
        ObjectModel::Tree(es) => forall|k: int| 0 <= k < es.len() ==> entry_roundtrips(#[trigger] es[k]),
        ObjectModel::Commit(c) => commit_roundtrips(c),
        ObjectModel::Tag(t) => tag_roundtrips(t),
    }
}

/// The header bytes of the four kinds.
proof fn lemma_kind_bytes(o: ObjectModel)
    ensures
        utf8(kind_name(o)) == (match o {
            ObjectModel::Blob(_) => bytes_blob(),
            ObjectModel::Tree(_) => bytes_tree(),
            ObjectModel::Commit(_) => bytes_commit(),
            ObjectModel::Tag(_) => bytes_tag(),
        }),
        forall|i: int| 0 <= i < utf8(kind_name(o)).len() ==> 97 <= #[trigger] utf8(kind_name(o))[i] <= 122,
{
    let k = kind_name(o);
    lemma_utf8_ascii(k);
    let b = match o {
        ObjectModel::Blob(_) => bytes_blob(),
        ObjectModel::Tree(_) => bytes_tree(),
        ObjectModel::Commit(_) => bytes_commit(),
        ObjectModel::Tag(_) => bytes_tag(),
    };
    assert(utf8(k) =~= b);
}

/// The bytes of an ASCII header `"<kind> <size>"` are valid UTF-8.
proof fn lemma_header_valid(kind: Seq<u8>, digits: Seq<u8>)
    requires
        forall|i: int| 0 <= i < kind.len() ==> 97 <= #[trigger] kind[i] <= 122,
        forall|i: int| 0 <= i < digits.len() ==> is_digit(#[trigger] digits[i]),
    ensures
        valid_utf8(kind + seq![32u8] + digits),
{
    let h = kind + seq![32u8] + digits;
    let cs = Seq::new(h.len(), |i: int| (h[i] as u32) as char);
    assert forall|i: int| 0 <= i < cs.len() implies (#[trigger] cs[i] as u32) < 0x80 by {
        let x = h[i] as u32;
        assert(x < 0x80);
        assert(((x as char) as u32) == x);
    }
    lemma_utf8_ascii(cs);
    assert forall|i: int| 0 <= i < h.len() implies #[trigger] utf8(cs)[i] == h[i] by {
        let x = h[i] as u32;
        assert(((x as char) as u32) == x);
        assert((x as u8) == h[i]);
    }
    assert(utf8(cs) =~= h);
    vstd::utf8::encode_utf8_valid_utf8(cs);
}

/// An object's serialized form parses back to the object.
pub proof fn lemma_object_roundtrip(o: ObjectModel)
    requires
        object_roundtrips(o),
        body_bytes(o).len() <= usize::MAX,
    ensures
        serializable(o),
        parse_object_spec(object_bytes(o)) == Some(o),
{
    match o {
        ObjectModel::Tree(es) => {
            assert forall|k: int| 0 <= k < es.len() implies (#[trigger] hex_decode(utf8(es[k].sha))) is Some by {
                assert(entry_roundtrips(es[k]));
                lemma_hex_roundtrip(es[k].sha);
            }
            assert(tree_shas_decode(es));
        },
        _ => {},
    }
    let body = body_bytes(o);
    let n = body.len();
    let kind = utf8(kind_name(o));
    lemma_kind_bytes(o);
    lemma_decimal(n);
    lemma_parse_decimal(n as usize);
    let d = decimal(n);
    let data = object_bytes(o);
    assert(data == kind + seq![32u8] + d + seq![0u8] + body);
    let nul: int = (kind.len() + 1 + d.len()) as int;
    assert forall|j: int| 0 <= j < nul implies data[j] != 0u8 by {
        if j < kind.len() {
            assert(data[j] == kind[j]);
        } else if j > kind.len() {
            assert(data[j] == d[j - kind.len() - 1]);
        }
    }
    assert(data[nul] == 0u8);
    lemma_find_from_at(data, 0u8, 0, nul);
    let header = data.subrange(0, nul);
    assert(header == kind + seq![32u8] + d);
    lemma_header_valid(kind, d);
    assert forall|j: int| 0 <= j < kind.len() implies header[j] != 32u8 by {
        assert(header[j] == kind[j]);
    }
    lemma_find_from_at(header, 32u8, 0, kind.len() as int);
    assert(header.subrange(0, kind.len() as int) == kind);
    assert(header.subrange((kind.len() + 1) as int, header.len() as int) == d);
    assert(data.subrange(nul + 1, data.len() as int) == body);
    match o {
        ObjectModel::Blob(_) => {},
        ObjectModel::Tree(es) => {
            lemma_tree_roundtrip(es);
        },
        ObjectModel::Commit(c) => {
            lemma_commit_roundtrip(c);
        },
        ObjectModel::Tag(t) => {
            lemma_tag_roundtrip(t);
        },
    }
}

/// What the store reads back is what it wrote: compressed bytes that decode
/// to an object's serialized form (as `Object::encode_for_store` promises)
/// are read by `Object::decode_stored` as that object, for every object
/// that the format carries and that stays under the size limit.
pub proof fn law_store_roundtrip(o: ObjectModel, c: Seq<u8>)
    requires
        object_roundtrips(o),
        object_bytes(o).len() < MAX_OBJECT_SIZE,
        forall|lim: nat| lim >= object_bytes(o).len() ==> #[trigger] zlib_inflate(c, lim) == Some(object_bytes(o)),
    ensures
        zlib_inflate(c, MAX_OBJECT_SIZE as nat) == Some(object_bytes(o)),
        object_bytes(o).len() < MAX_OBJECT_SIZE,
        parse_object_spec(object_bytes(o)) == Some(o),
{
    assert(zlib_inflate(c, MAX_OBJECT_SIZE as nat) == Some(object_bytes(o)));
    assert(body_bytes(o).len() <= object_bytes(o).len());
    lemma_object_roundtrip(o);
}

/// Every entry of a parsed tree body has a name that stays inside the
/// repository.
proof fn lemma_parsed_entries_safe(data: Seq<u8>, i: int)
    ensures
        parse_entries_from(data, i) matches Some(es) ==> forall|k: int| 0 <= k < es.len() ==> !unsafe_entry_name(#[trigger] es[k].name),
    decreases data.len() - i,
{
    if 0 <= i < data.len() {
        if let Some(sp) = find_from(data, 32u8, i) {
            if let Some(nul) = find_from(data, 0u8, sp) {
                lemma_find_from(data, 32u8, i);
                lemma_find_from(data, 0u8, sp);
                if nul + 21 <= data.len() {
                    lemma_parsed_entries_safe(data, nul + 21);
                    if let Some(es) = parse_entries_from(data, i) {
                        let rest = parse_entries_from(data, nul + 21)->0;
                        assert forall|k: int| 0 <= k < es.len() implies !unsafe_entry_name(#[trigger] es[k].name) by {
                            if k > 0 {
                                assert(es[k] == rest[k - 1]);
                            }
                        }
                    }
                }
            }
        }
    }
}

/// A tree is only read when none of its entry names contains `..`, starts
/// with `/` or contains a NUL: a tree naming such an entry is refused.
pub proof fn law_tree_names_refused(data: Seq<u8>)
    ensures
        parse_object_spec(data) matches Some(ObjectModel::Tree(es)) ==> forall|k: int| 0 <= k < es.len() ==> !unsafe_entry_name(#[trigger] es[k].name),
{
    if let Some(nul) = find_from(data, 0u8, 0) {
        lemma_find_from(data, 0u8, 0);
        lemma_parsed_entries_safe(data.subrange(nul + 1, data.len() as int), 0);
    }
}

/// Malformed stored objects are refused, with the error that names the
/// fault: no NUL after the header; a size in the header that differs from
/// the body's length; a type other than blob, tree, commit and tag.
pub proof fn law_malformed_objects_refused(data: Seq<u8>, nul: int, sp: int)
    ensures
        (forall|k: int| 0 <= k < data.len() ==> data[k] != 0u8) ==> parse_object_spec(data) is None
            && object_error(data) == "invalid object: no null byte in header"@,
        ({
            let header = data.subrange(0, nul);
            let body = data.subrange(nul + 1, data.len() as int);
            &&& 0 <= nul < data.len()
            &&& data[nul] == 0u8
            &&& forall|k: int| 0 <= k < nul ==> data[k] != 0u8
            &&& valid_utf8(header)
            &&& 0 <= sp < header.len()
            &&& header[sp] == 32u8
            &&& forall|k: int| 0 <= k < sp ==> header[k] != 32u8
            &&& parse_usize_spec(header.subrange(sp + 1, header.len() as int)) is Some
        }) ==> ({
            let header = data.subrange(0, nul);
            let body = data.subrange(nul + 1, data.len() as int);
            let kind = header.subrange(0, sp);
            let size = parse_usize_spec(header.subrange(sp + 1, header.len() as int))->0;
            &&& size != body.len() ==> parse_object_spec(data) is None && object_error(data)
                == "object size mismatch: header says "@ + dec_chars(size as int) + ", body is "@ + dec_chars(
                body.len() as int,
            )
            &&& size == body.len() && kind != bytes_blob() && kind != bytes_tree() && kind != bytes_commit()
                && kind != bytes_tag() ==> parse_object_spec(data) is None && starts_with(
                object_error(data),
                "unknown object type"@,
            )
        }),
{
    lemma_find_from(data, 0u8, 0);
    let header = data.subrange(0, nul);
    if 0 <= nul < data.len() && data[nul] == 0u8 && (forall|k: int| 0 <= k < nul ==> data[k] != 0u8) {
        lemma_find_from_at(data, 0u8, 0, nul);
        if 0 <= sp < header.len() && header[sp] == 32u8 && (forall|k: int| 0 <= k < sp ==> header[k] != 32u8) {
            lemma_find_from_at(header, 32u8, 0, sp);
            let kind = header.subrange(0, sp);
            reveal_strlit("unknown object type: ");
            reveal_strlit("unknown object type");
            if valid_utf8(kind) {
                assert(("unknown object type: "@ + decode_utf8(kind)).subrange(0, 19) =~= "unknown object type"@);
            } else {
                assert("unknown object type"@.subrange(0, 19) =~= "unknown object type"@);
            }
        }
    }
}

/// A tree record whose name contains `..`, starts with `/` or holds a NUL
/// stops the reading of the tree, with a message that names it.
pub proof fn law_unsafe_entry_name_message(body: Seq<u8>, i: int, sp: int, nul: int)
    requires
        0 <= i < body.len(),
        find_from(body, 32u8, i) == Some(sp),
        find_from(body, 0u8, sp) == Some(nul),
        valid_utf8(body.subrange(i, sp)),
        valid_utf8(body.subrange(sp + 1, nul)),
        unsafe_entry_name(decode_utf8(body.subrange(sp + 1, nul))),
    ensures
        parse_entries_from(body, i) is None,
        entries_error_from(body, i) == "invalid tree entry name: "@ + decode_utf8(body.subrange(sp + 1, nul)),
        starts_with(entries_error_from(body, i), "invalid tree entry name: "@),
{
    let msg = "invalid tree entry name: "@ + decode_utf8(body.subrange(sp + 1, nul));
    assert(msg.subrange(0, "invalid tree entry name: "@.len() as int) =~= "invalid tree entry name: "@);
}

} // verus!
