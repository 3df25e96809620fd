//! Content-addressable object model: blob, tree, commit and tag, their byte
//! format `"<type> <size>\0<body>"`, and the hex form of SHA-1 names.

use vstd::prelude::*;
use vstd::utf8::*;
use vstd::slice::slice_subrange;
use crate::text::{
    utf8, decimal, string_push, usize_to_decimal, push_str_bytes, push_bytes, bytes_of, find_from,
    find_seq_from, lines_from, starts_with, contains_seq, lemma_find_from, parse_usize_spec, find_byte,
    find_blank_line, next_line, has_at, bytes_eq, copy_bytes, copy_chars, chars_of, string_from_chars,
    string_from_utf8, is_valid_utf8, parse_usize, string_from_utf8_lossy, utf8_lossy,
};
use crate::codec::{sha1_digest, sha1_bytes, zlib_inflate, zlib_compress, zlib_decompress, CompressFailure};
use crate::diff::{dec_chars, push_decimal};

verus! {

broadcast use vstd::seq::group_seq_axioms;

// ---------------------------------------------------------------------------
// Hex encoding
// ---------------------------------------------------------------------------

/// The value of a hex digit byte, either case (`char::is_ascii_hexdigit`).
pub open spec fn hex_digit_value(b: u8) -> Option<u8> {
    if 48 <= b <= 57 {
        Some((b - 48) as u8)
    } else if 97 <= b <= 102 {
        Some((b - 87) as u8)
    } else if 65 <= b <= 70 {
        Some((b - 55) as u8)
    } else {
        None
    }
}

/// The byte that two hex digits stand for; `None` unless both are hex digits.
pub open spec fn hex_pair_value(b0: u8, b1: u8) -> Option<u8> {
    match (hex_digit_value(b0), hex_digit_value(b1)) {
        (Some(h), Some(l)) => Some((h * 16 + l) as u8),
        _ => None,
    }
}

/// Decoding of the bytes of a hex string, two bytes per output byte.
pub open spec fn hex_decode_from(s: Seq<u8>, i: int) -> Option<Seq<u8>>
    decreases s.len() - i,
{
    if i < 0 || i + 2 > s.len() {
        Some(Seq::empty())
    } else {
        match (hex_pair_value(s[i], s[i + 1]), hex_decode_from(s, i + 2)) {
            (Some(b), Some(rest)) => Some(seq![b] + rest),
            _ => None,
        }
    }
}

/// What `hex_to_bytes` gives for the bytes of a string: `None` for an odd
/// length or a pair that is not hex.
pub open spec fn hex_decode(s: Seq<u8>) -> Option<Seq<u8>> {
    if s.len() % 2 != 0 {
        None
    } else {
        hex_decode_from(s, 0)
    }
}

/// The lowercase hex digit for a value below 16.
pub open spec fn hex_char(v: u8) -> char {
    if v < 10 {
        (48 + v) as char
    } else {
        (87 + v) as char
    }
}

/// Lowercase hex text of a byte string.
pub open spec fn hex_encode(bytes: Seq<u8>) -> Seq<char>
    decreases bytes.len(),
{
    if bytes.len() == 0 {
        Seq::empty()
    } else {
        seq![hex_char(bytes[0] / 16), hex_char(bytes[0] % 16)] + hex_encode(bytes.drop_first())
    }
}

/// `true` for the ASCII hex digits accepted by `char::is_ascii_hexdigit`.
pub open spec fn is_hex_byte(b: u8) -> bool {
    hex_digit_value(b) is Some
}

/// A valid object name: 40 bytes, all hex digits.
pub open spec fn is_sha_text(s: Seq<u8>) -> bool {
    s.len() == 40 && forall|i: int| 0 <= i < s.len() ==> is_hex_byte(#[trigger] s[i])
}

/// A canonical object name: 40 lowercase hex digits.
pub open spec fn is_lower_sha(s: Seq<char>) -> bool {
    s.len() == 40 && forall|i: int|
        0 <= i < s.len() ==> (48 <= #[trigger] (s[i] as u32) <= 57 || 97 <= (s[i] as u32) <= 102)
}

/// The position of the first pair, from `i` on, that is not hex.
pub open spec fn first_bad_pair(s: Seq<u8>, i: int) -> Option<int>
    decreases s.len() - i,
{
    if i < 0 || i + 2 > s.len() {
        None
    } else if hex_pair_value(s[i], s[i + 1]) is None {
        Some(i)
    } else {
        first_bad_pair(s, i + 2)
    }
}

/// The text of a pair of bytes as shown in a message: the characters they
/// encode, or their lossy reading when they are not whole UTF-8.
pub open spec fn pair_text(p: Seq<u8>) -> Seq<char> {
    if valid_utf8(p) {
        decode_utf8(p)
    } else {
        utf8_lossy(p)
    }
}

/// The message for bytes that do not decode: the odd length, or the
/// position and text of the first pair that is not two hex digits.
pub open spec fn hex_error(s: Seq<u8>) -> Seq<char> {
    if s.len() % 2 != 0 {
        "hex string has odd length: "@ + dec_chars(s.len() as int)
    } else {
        match first_bad_pair(s, 0) {
            Some(i) => "invalid hex byte at position "@ + dec_chars(i) + ": "@ + pair_text(s.subrange(i, i + 2)),
            None => Seq::empty(),
        }
    }
}

/// Bytes that decode have no pair that is not hex.
pub proof fn lemma_decoded_no_bad_pair(s: Seq<u8>, i: int)
    requires
        0 <= i,
        hex_decode_from(s, i) is Some,
    ensures
        first_bad_pair(s, i) is None,
    decreases s.len() - i,
{
    if i + 2 <= s.len() {
        lemma_decoded_no_bad_pair(s, i + 2);
    }
}

/// The value of one hex digit byte.
fn hex_digit(b: u8) -> (out: Option<u8>)
    ensures
        out == hex_digit_value(b),
{
    if 48 <= b && b <= 57 {
        Some(b - 48)
    } else if 97 <= b && b <= 102 {
        Some(b - 87)
    } else if 65 <= b && b <= 70 {
        Some(b - 55)
    } else {
        None
    }
}

/// Decodes a hex string into bytes. Fails on an odd length or on a pair of
/// bytes that are not both hex digits; the message names the length, or the
/// position and text of that pair.
pub fn hex_to_bytes(hex: &str) -> (out: Result<Vec<u8>, String>)
    ensures
        out is Ok <==> hex_decode(utf8(hex@)) is Some,
        out matches Ok(v) ==> v@ == hex_decode(utf8(hex@))->0,
        out matches Err(e) ==> e@ == hex_error(utf8(hex@)),
{
    let b = hex.as_bytes();
    if b.len() % 2 != 0 {
        let mut msg = String::from_str("hex string has odd length: ");
        push_decimal(&mut msg, b.len());
        return Err(msg);
    }
    let mut out: Vec<u8> = Vec::with_capacity(b.len() / 2);
    let mut i: usize = 0;
    while i < b.len()
        invariant
            b@ == utf8(hex@),
            b@.len() % 2 == 0,
            i <= b@.len(),
            i % 2 == 0,
            hex_decode_from(b@, 0) is Some ==> (hex_decode_from(b@, i as int) is Some
                && hex_decode_from(b@, 0)->0 == out@ + hex_decode_from(b@, i as int)->0),
            hex_decode_from(b@, i as int) is None ==> hex_decode_from(b@, 0) is None,
            hex_decode_from(b@, 0) is Some || hex_decode_from(b@, i as int) is None,
            first_bad_pair(b@, 0) == first_bad_pair(b@, i as int),
        decreases b@.len() - i,
    {
        let b0 = b[i];
        let b1 = b[i + 1];
        let value = match (hex_digit(b0), hex_digit(b1)) {
            (Some(h), Some(l)) => Some(h * 16 + l),
            _ => None,
        };
        let v: u8 = match value {
            Some(v) => v,
            None => {
                let mut msg = String::from_str("invalid hex byte at position ");
                push_decimal(&mut msg, i);
                msg.append(": ");
                let pair = copy_bytes(b, i, i + 2);
                let p = string_from_utf8_lossy(pair.as_slice());
                msg.append(p.as_str());
                return Err(msg);
            },
        };
        assert(hex_pair_value(b0, b1) == Some(v));
        out.push(v);
        i = i + 2;
    }
    assert(hex_decode_from(b@, i as int) == Some(Seq::<u8>::empty()));
    Ok(out)
}

/// The lowercase hex digit character for a value below 16.
fn hex_digit_char(v: u8) -> (c: char)
    requires
        v < 16,
    ensures
        c == hex_char(v),
{
    if v < 10 {
        (48 + v) as char
    } else {
        (87 + v) as char
    }
}

/// Lowercase hex text of a byte string.
pub fn bytes_to_hex(bytes: &[u8]) -> (s: String)
    ensures
        s@ == hex_encode(bytes@),
{
    let mut s = String::new();
    let mut i: usize = 0;
    assert(bytes@.skip(0) == bytes@);
    assert(s@ + hex_encode(bytes@) == hex_encode(bytes@));
    while i < bytes.len()
        invariant
            i <= bytes@.len(),
            s@ + hex_encode(bytes@.skip(i as int)) == hex_encode(bytes@),
        decreases bytes@.len() - i,
    {
        let x = bytes[i];
        assert(bytes@.skip(i as int).drop_first() == bytes@.skip(i + 1));
        string_push(&mut s, hex_digit_char(x / 16));
        string_push(&mut s, hex_digit_char(x % 16));
        i = i + 1;
    }
    assert(bytes@.skip(i as int).len() == 0);
    s
}


// ---------------------------------------------------------------------------
// The object model
// ---------------------------------------------------------------------------

/// One entry of a tree: file mode (octal text), name, and the hex name of
/// the blob or subtree.
#[derive(Debug, PartialEq, Clone)]
pub struct TreeEntry {
    pub mode: String,
    pub name: String,
    pub sha: String,
}

/// The fields of a commit.
#[derive(Debug, PartialEq, Clone)]
pub struct CommitData {
    pub tree: String,
    pub parents: Vec<String>,
    pub author: String,
    pub committer: String,
    pub message: String,
}

/// The fields of an annotated tag.
#[derive(Debug, PartialEq, Clone)]
pub struct TagData {
    pub object: String,
    pub object_type: String,
    pub tag_name: String,
    pub tagger: String,
    pub message: String,
}

/// The four object types of the content-addressable store.
#[derive(Debug, PartialEq)]
pub enum Object {
    Blob(Vec<u8>),
    Tree(Vec<TreeEntry>),
    Commit(CommitData),
    Tag(TagData),
}

/// Mathematical view of a tree entry.
pub struct TreeEntryModel {
    pub mode: Seq<char>,
    pub name: Seq<char>,
    pub sha: Seq<char>,
}

/// Mathematical view of a commit.
pub struct CommitModel {
    pub tree: Seq<char>,
    pub parents: Seq<Seq<char>>,
    pub author: Seq<char>,
    pub committer: Seq<char>,
    pub message: Seq<char>,
}

/// Mathematical view of an annotated tag.
pub struct TagModel {
    pub object: Seq<char>,
    pub object_type: Seq<char>,
    pub tag_name: Seq<char>,
    pub tagger: Seq<char>,
    pub message: Seq<char>,
}

/// Mathematical view of an object.
pub enum ObjectModel {
    Blob(Seq<u8>),
    Tree(Seq<TreeEntryModel>),
    Commit(CommitModel),
    Tag(TagModel),
}

impl View for TreeEntry {
    type V = TreeEntryModel;

    open spec fn view(&self) -> TreeEntryModel {
        TreeEntryModel { mode: self.mode@, name: self.name@, sha: self.sha@ }
    }
}

/// The views of a list of strings.
pub open spec fn string_views(v: Seq<String>) -> Seq<Seq<char>> {
    v.map_values(|p: String| p@)
}

impl View for CommitData {
    type V = CommitModel;

    open spec fn view(&self) -> CommitModel {
        CommitModel {
            tree: self.tree@,
            parents: string_views(self.parents@),
            author: self.author@,
            committer: self.committer@,
            message: self.message@,
        }
    }
}

impl View for TagData {
    type V = TagModel;

    open spec fn view(&self) -> TagModel {
        TagModel {
            object: self.object@,
            object_type: self.object_type@,
            tag_name: self.tag_name@,
            tagger: self.tagger@,
            message: self.message@,
        }
    }
}

/// The views of a list of tree entries.
pub open spec fn entry_views(v: Seq<TreeEntry>) -> Seq<TreeEntryModel> {
    v.map_values(|e: TreeEntry| e@)
}

impl View for Object {
    type V = ObjectModel;

    open spec fn view(&self) -> ObjectModel {
        match self {
            Object::Blob(d) => ObjectModel::Blob(d@),
            Object::Tree(es) => ObjectModel::Tree(entry_views(es@)),
            Object::Commit(c) => ObjectModel::Commit(c@),
            Object::Tag(t) => ObjectModel::Tag(t@),
        }
    }
}

// ---------------------------------------------------------------------------
// The byte format
// ---------------------------------------------------------------------------

pub open spec fn kw_blob() -> Seq<char> { seq!['b', 'l', 'o', 'b'] }
pub open spec fn kw_tree() -> Seq<char> { seq!['t', 'r', 'e', 'e'] }
pub open spec fn kw_commit() -> Seq<char> { seq!['c', 'o', 'm', 'm', 'i', 't'] }
pub open spec fn kw_tag() -> Seq<char> { seq!['t', 'a', 'g'] }
pub open spec fn kw_parent() -> Seq<char> { seq!['p', 'a', 'r', 'e', 'n', 't'] }
pub open spec fn kw_author() -> Seq<char> { seq!['a', 'u', 't', 'h', 'o', 'r'] }
pub open spec fn kw_committer() -> Seq<char> { seq!['c', 'o', 'm', 'm', 'i', 't', 't', 'e', 'r'] }
pub open spec fn kw_object() -> Seq<char> { seq!['o', 'b', 'j', 'e', 'c', 't'] }
pub open spec fn kw_type() -> Seq<char> { seq!['t', 'y', 'p', 'e'] }
pub open spec fn kw_tagger() -> Seq<char> { seq!['t', 'a', 'g', 'g', 'e', 'r'] }

/// The type name written in an object header.
pub open spec fn kind_name(o: ObjectModel) -> Seq<char> {
    match o {
        ObjectModel::Blob(_) => kw_blob(),
        ObjectModel::Tree(_) => kw_tree(),
        ObjectModel::Commit(_) => kw_commit(),
        ObjectModel::Tag(_) => kw_tag(),
    }
}

/// A header line `"<key> <value>\n"`.
pub open spec fn header_line(key: Seq<char>, value: Seq<char>) -> Seq<char> {
    key + seq![' '] + value + seq!['\n']
}

/// One `parent` line per parent, in order.
pub open spec fn parent_lines(ps: Seq<Seq<char>>) -> Seq<char>
    decreases ps.len(),
{
    if ps.len() == 0 {
        Seq::empty()
    } else {
        parent_lines(ps.drop_last()) + header_line(kw_parent(), ps.last())
    }
}

/// The text of a commit body.
pub open spec fn commit_text(c: CommitModel) -> Seq<char> {
    header_line(kw_tree(), c.tree) + parent_lines(c.parents) + header_line(kw_author(), c.author)
        + header_line(kw_committer(), c.committer) + seq!['\n'] + c.message
}

/// The text of a tag body.
pub open spec fn tag_text(t: TagModel) -> Seq<char> {
    header_line(kw_object(), t.object) + header_line(kw_type(), t.object_type) + header_line(
        kw_tag(),
        t.tag_name,
    ) + header_line(kw_tagger(), t.tagger) + seq!['\n'] + t.message
}

/// Bytes of one tree entry: `"<mode> <name>\0"` and the 20-byte binary name.
pub open spec fn tree_entry_bytes(e: TreeEntryModel) -> Seq<u8> {
    utf8(e.mode) + seq![32u8] + utf8(e.name) + seq![0u8] + hex_decode(utf8(e.sha))->0
}

/// Bytes of a tree body.
pub open spec fn tree_bytes(es: Seq<TreeEntryModel>) -> Seq<u8>
    decreases es.len(),
{
    if es.len() == 0 {
        Seq::empty()
    } else {
        tree_bytes(es.drop_last()) + tree_entry_bytes(es.last())
    }
}

/// Every entry's hex name decodes (the serializer requires it).
pub open spec fn tree_shas_decode(es: Seq<TreeEntryModel>) -> bool {
    forall|i: int| 0 <= i < es.len() ==> (#[trigger] hex_decode(utf8(es[i].sha))) is Some
}

/// Objects that can be serialized: trees need decodable entry names.
pub open spec fn serializable(o: ObjectModel) -> bool {
    match o {
        ObjectModel::Tree(es) => tree_shas_decode(es),
        _ => true,
    }
}

/// The body bytes of an object.
pub open spec fn body_bytes(o: ObjectModel) -> Seq<u8> {
    match o {
        ObjectModel::Blob(d) => d,
        ObjectModel::Tree(es) => tree_bytes(es),
        ObjectModel::Commit(c) => utf8(commit_text(c)),
        ObjectModel::Tag(t) => utf8(tag_text(t)),
    }
}

/// The full serialized form: `"<type> <size>\0"` followed by the body.
pub open spec fn object_bytes(o: ObjectModel) -> Seq<u8> {
    utf8(kind_name(o)) + seq![32u8] + decimal(body_bytes(o).len()) + seq![0u8] + body_bytes(o)
}

/// The name of an object: lowercase hex of the SHA-1 of its serialized form.
pub open spec fn object_sha(o: ObjectModel) -> Seq<char> {
    hex_encode(sha1_digest(object_bytes(o)))
}

// ---------------------------------------------------------------------------
// Serialization
// ---------------------------------------------------------------------------

/// Appends `"<key> "` (a literal) to `s`.
fn push_chars(s: &mut String, cs: &[char])
    ensures
        final(s)@ == old(s)@ + cs@,
{
    let mut i: usize = 0;
    while i < cs.len()
        invariant
            i <= cs@.len(),
            s@ == old(s)@ + cs@.subrange(0, i as int),
        decreases cs@.len() - i,
    {
        string_push(s, cs[i]);
        i = i + 1;
        assert(cs@.subrange(0, i as int) == cs@.subrange(0, i - 1).push(cs@[i - 1]));
    }
    assert(cs@.subrange(0, cs@.len() as int) == cs@);
}

/// Appends a header line `"<key> <value>\n"` to `s`.
fn push_header(s: &mut String, key: &[char], value: &str)
    ensures
        final(s)@ == old(s)@ + header_line(key@, value@),
{
    push_chars(s, key);
    string_push(s, ' ');
    s.append(value);
    string_push(s, '\n');
    assert(final(s)@ == old(s)@ + header_line(key@, value@));
}

fn serialize_tree(entries: &[TreeEntry]) -> (out: Vec<u8>)
    requires
        tree_shas_decode(entry_views(entries@)),
    ensures
        out@ == tree_bytes(entry_views(entries@)),
{
    let mut buf: Vec<u8> = Vec::new();
    let mut i: usize = 0;
    while i < entries.len()
        invariant
            i <= entries@.len(),
            tree_shas_decode(entry_views(entries@)),
            buf@ == tree_bytes(entry_views(entries@.subrange(0, i as int))),
        decreases entries@.len() - i,
    {
        let entry = &entries[i];
        push_str_bytes(&mut buf, entry.mode.as_str());
        buf.push(32u8);
        push_str_bytes(&mut buf, entry.name.as_str());
        buf.push(0u8);
        assert(entry_views(entries@)[i as int] == entry@);
        assert(hex_decode(utf8(entry_views(entries@)[i as int].sha)) is Some);
        proof {
            lemma_decoded_no_bad_pair(utf8(entry.sha@), 0);
        }
        let sha_bytes = match hex_to_bytes(entry.sha.as_str()) {
            Ok(v) => v,
            Err(_) => {
                assert(false);
                Vec::new()
            },
        };
        push_bytes(&mut buf, sha_bytes.as_slice(), 0, sha_bytes.len());
        proof {
            let es = entry_views(entries@.subrange(0, i + 1));
            assert(es.drop_last() == entry_views(entries@.subrange(0, i as int)));
            assert(es.last() == entry@);
            assert(sha_bytes@.subrange(0, sha_bytes@.len() as int) == sha_bytes@);
        }
        i = i + 1;
    }
    assert(entries@.subrange(0, entries@.len() as int) == entries@);
    buf
}


fn serialize_commit(data: &CommitData) -> (out: Vec<u8>)
    ensures
        out@ == utf8(commit_text(data@)),
{
    let s = commit_string(data);
    bytes_of(s.as_str())
}

/// The text of a commit body.
fn commit_string(data: &CommitData) -> (out: String)
    ensures
        out@ == commit_text(data@),
{
    let mut s = String::new();
    push_header(&mut s, &['t', 'r', 'e', 'e'], data.tree.as_str());
    let ghost head = s@;
    let mut i: usize = 0;
    while i < data.parents.len()
        invariant
            i <= data.parents@.len(),
            s@ == head + parent_lines(string_views(data.parents@.subrange(0, i as int))),
        decreases data.parents@.len() - i,
    {
        push_header(&mut s, &['p', 'a', 'r', 'e', 'n', 't'], data.parents[i].as_str());
        proof {
            let ps = string_views(data.parents@.subrange(0, i + 1));
            assert(ps.drop_last() == string_views(data.parents@.subrange(0, i as int)));
            assert(ps.last() == data.parents@[i as int]@);
        }
        i = i + 1;
    }
    assert(data.parents@.subrange(0, data.parents@.len() as int) == data.parents@);
    push_header(&mut s, &['a', 'u', 't', 'h', 'o', 'r'], data.author.as_str());
    push_header(&mut s, &['c', 'o', 'm', 'm', 'i', 't', 't', 'e', 'r'], data.committer.as_str());
    string_push(&mut s, '\n');
    s.append(data.message.as_str());
    assert(s@ == commit_text(data@));
    s
}

fn serialize_tag(data: &TagData) -> (out: Vec<u8>)
    ensures
        out@ == utf8(tag_text(data@)),
{
    let s = tag_string(data);
    bytes_of(s.as_str())
}

/// The text of a tag body.
fn tag_string(data: &TagData) -> (out: String)
    ensures
        out@ == tag_text(data@),
{
    let mut s = String::new();
    push_header(&mut s, &['o', 'b', 'j', 'e', 'c', 't'], data.object.as_str());
    push_header(&mut s, &['t', 'y', 'p', 'e'], data.object_type.as_str());
    push_header(&mut s, &['t', 'a', 'g'], data.tag_name.as_str());
    push_header(&mut s, &['t', 'a', 'g', 'g', 'e', 'r'], data.tagger.as_str());
    string_push(&mut s, '\n');
    s.append(data.message.as_str());
    assert(s@ == tag_text(data@));
    s
}

/// How a tree is shown: one `"<mode> <sha> <name>\n"` line per entry.
pub open spec fn tree_listing(es: Seq<TreeEntryModel>) -> Seq<char>
    decreases es.len(),
{
    if es.len() == 0 {
        Seq::empty()
    } else {
        tree_listing(es.drop_last()) + es.last().mode + seq![' '] + es.last().sha + seq![' '] + es.last().name
            + seq!['\n']
    }
}

/// How an object is shown: a blob as its text (invalid UTF-8 replaced), a
/// tree as its listing, a commit or tag as the text of its body.
pub open spec fn display_of(o: ObjectModel) -> Seq<char> {
    match o {
        ObjectModel::Blob(d) => utf8_lossy(d),
        ObjectModel::Tree(es) => tree_listing(es),
        ObjectModel::Commit(c) => commit_text(c),
        ObjectModel::Tag(t) => tag_text(t),
    }
}

/// The listing of a tree.
fn tree_string(entries: &[TreeEntry]) -> (out: String)
    ensures
        out@ == tree_listing(entry_views(entries@)),
{
    let mut s = String::new();
    let mut i: usize = 0;
    while i < entries.len()
        invariant
            i <= entries@.len(),
            s@ == tree_listing(entry_views(entries@.subrange(0, i as int))),
        decreases entries@.len() - i,
    {
        let e = &entries[i];
        s.append(e.mode.as_str());
        string_push(&mut s, ' ');
        s.append(e.sha.as_str());
        string_push(&mut s, ' ');
        s.append(e.name.as_str());
        string_push(&mut s, '\n');
        proof {
            let es = entry_views(entries@.subrange(0, i + 1));
            assert(es.drop_last() == entry_views(entries@.subrange(0, i as int)));
            assert(es.last() == e@);
        }
        i = i + 1;
    }
    assert(entries@.subrange(0, entries@.len() as int) == entries@);
    s
}

impl Object {
    /// The type name of the object: `blob`, `tree`, `commit` or `tag`.
    pub fn type_str(&self) -> (out: &str)
        ensures
            out@ == kind_name(self@),
    {
        match self {
            Object::Blob(_) => {
                proof {
                    reveal_strlit("blob");
                }
                assert("blob"@ =~= kw_blob());
                "blob"
            },
            Object::Tree(_) => {
                proof {
                    reveal_strlit("tree");
                }
                assert("tree"@ =~= kw_tree());
                "tree"
            },
            Object::Commit(_) => {
                proof {
                    reveal_strlit("commit");
                }
                assert("commit"@ =~= kw_commit());
                "commit"
            },
            Object::Tag(_) => {
                proof {
                    reveal_strlit("tag");
                }
                assert("tag"@ =~= kw_tag());
                "tag"
            },
        }
    }

    /// The object body, without the header.
    pub fn serialize_body(&self) -> (out: Vec<u8>)
        requires
            serializable(self@),
        ensures
            out@ == body_bytes(self@),
    {
        match self {
            Object::Blob(data) => {
                let mut out: Vec<u8> = Vec::new();
                push_bytes(&mut out, data.as_slice(), 0, data.len());
                assert(data@.subrange(0, data@.len() as int) == data@);
                out
            },
            Object::Tree(entries) => serialize_tree(entries.as_slice()),
            Object::Commit(data) => serialize_commit(data),
            Object::Tag(data) => serialize_tag(data),
        }
    }

    /// The object as `cat-file -p` shows it.
    pub fn display_text(&self) -> (out: String)
        ensures
            out@ == display_of(self@),
            self@ is Blob && valid_utf8(self@->Blob_0) ==> out@ == decode_utf8(self@->Blob_0),
    {
        match self {
            Object::Blob(data) => string_from_utf8_lossy(data.as_slice()),
            Object::Tree(entries) => tree_string(entries.as_slice()),
            Object::Commit(data) => commit_string(data),
            Object::Tag(data) => tag_string(data),
        }
    }

    /// The full serialized form `"<type> <size>\0<body>"`.
    pub fn serialize(&self) -> (out: Vec<u8>)
        requires
            serializable(self@),
        ensures
            out@ == object_bytes(self@),
    {
        let body = self.serialize_body();
        let mut out: Vec<u8> = Vec::new();
        push_str_bytes(&mut out, self.type_str());
        out.push(32u8);
        let digits = usize_to_decimal(body.len());
        push_bytes(&mut out, digits.as_slice(), 0, digits.len());
        out.push(0u8);
        push_bytes(&mut out, body.as_slice(), 0, body.len());
        assert(digits@.subrange(0, digits@.len() as int) == digits@);
        assert(body@.subrange(0, body@.len() as int) == body@);
        out
    }

    /// The object's name: lowercase hex SHA-1 of the serialized form.
    pub fn sha(&self) -> (out: String)
        requires
            serializable(self@),
        ensures
            out@ == object_sha(self@),
    {
        let data = self.serialize();
        let digest = sha1_bytes(data.as_slice());
        bytes_to_hex(digest.as_slice())
    }
}


// ---------------------------------------------------------------------------
// Parsing
// ---------------------------------------------------------------------------

/// A tree entry name that could escape the repository when written to disk.
pub open spec fn unsafe_entry_name(n: Seq<char>) -> bool {
    contains_seq(n, seq!['.', '.']) || (n.len() > 0 && n[0] == '/') || n.contains('\0')
}

/// The entries of a tree body from byte position `i` on.
pub open spec fn parse_entries_from(data: Seq<u8>, i: int) -> Option<Seq<TreeEntryModel>>
    decreases data.len() - i,
{
    if i < 0 || i >= data.len() {
        Some(Seq::empty())
    } else {
        match find_from(data, 32u8, i) {
            None => None,
            Some(sp) => match find_from(data, 0u8, sp) {
                None => None,
                Some(nul) => {
                    let mode = data.subrange(i, sp);
                    let name = data.subrange(sp + 1, nul);
                    if !valid_utf8(mode) || !valid_utf8(name) || unsafe_entry_name(decode_utf8(name))
                        || nul + 21 > data.len() {
                        None
                    } else {
                        proof {
                            lemma_find_from(data, 32u8, i);
                            lemma_find_from(data, 0u8, sp);
                        }
                        match parse_entries_from(data, nul + 21) {
                            None => None,
                            Some(rest) => Some(
                                seq![
                                    TreeEntryModel {
                                        mode: decode_utf8(mode),
                                        name: decode_utf8(name),
                                        sha: hex_encode(data.subrange(nul + 1, nul + 21)),
                                    },
                                ] + rest,
                            ),
                        }
                    }
                },
            },
        }
    }
}

/// The commit fields after one header line has been read.
pub open spec fn commit_line(acc: CommitModel, line: Seq<char>) -> CommitModel {
    if starts_with(line, kw_tree() + seq![' ']) {
        CommitModel { tree: line.skip(5), ..acc }
    } else if starts_with(line, kw_parent() + seq![' ']) {
        CommitModel { parents: acc.parents.push(line.skip(7)), ..acc }
    } else if starts_with(line, kw_author() + seq![' ']) {
        CommitModel { author: line.skip(7), ..acc }
    } else if starts_with(line, kw_committer() + seq![' ']) {
        CommitModel { committer: line.skip(10), ..acc }
    } else {
        acc
    }
}

/// The commit fields after reading the given header lines in order.
pub open spec fn fold_commit(acc: CommitModel, ls: Seq<Seq<char>>) -> CommitModel
    decreases ls.len(),
{
    if ls.len() == 0 {
        acc
    } else {
        fold_commit(commit_line(acc, ls[0]), ls.drop_first())
    }
}

/// What a commit body parses to.
pub open spec fn parse_commit_spec(body: Seq<u8>) -> Option<CommitModel> {
    if !valid_utf8(body) {
        None
    } else {
        let t = decode_utf8(body);
        match find_seq_from(t, seq!['\n', '\n'], 0) {
            None => None,
            Some(k) => Some(
                fold_commit(
                    CommitModel {
                        tree: Seq::empty(),
                        parents: Seq::empty(),
                        author: Seq::empty(),
                        committer: Seq::empty(),
                        message: t.subrange(k + 2, t.len() as int),
                    },
                    lines_from(t.subrange(0, k), 0),
                ),
            ),
        }
    }
}

/// The tag fields after one header line has been read.
pub open spec fn tag_line(acc: TagModel, line: Seq<char>) -> TagModel {
    if starts_with(line, kw_object() + seq![' ']) {
        TagModel { object: line.skip(7), ..acc }
    } else if starts_with(line, kw_type() + seq![' ']) {
        TagModel { object_type: line.skip(5), ..acc }
    } else if starts_with(line, kw_tag() + seq![' ']) {
        TagModel { tag_name: line.skip(4), ..acc }
    } else if starts_with(line, kw_tagger() + seq![' ']) {
        TagModel { tagger: line.skip(7), ..acc }
    } else {
        acc
    }
}

/// The tag fields after reading the given header lines in order.
pub open spec fn fold_tag(acc: TagModel, ls: Seq<Seq<char>>) -> TagModel
    decreases ls.len(),
{
    if ls.len() == 0 {
        acc
    } else {
        fold_tag(tag_line(acc, ls[0]), ls.drop_first())
    }
}

/// What a tag body parses to.
pub open spec fn parse_tag_spec(body: Seq<u8>) -> Option<TagModel> {
    if !valid_utf8(body) {
        None
    } else {
        let t = decode_utf8(body);
        match find_seq_from(t, seq!['\n', '\n'], 0) {
            None => None,
            Some(k) => Some(
                fold_tag(
                    TagModel {
                        object: Seq::empty(),
                        object_type: Seq::empty(),
                        tag_name: Seq::empty(),
                        tagger: Seq::empty(),
                        message: t.subrange(k + 2, t.len() as int),
                    },
                    lines_from(t.subrange(0, k), 0),
                ),
            ),
        }
    }
}

/// The message for the first problem in a tree body from byte position
/// `i` on (the empty text when there is none).
pub open spec fn entries_error_from(data: Seq<u8>, i: int) -> Seq<char>
    decreases data.len() - i,
{
    if i < 0 || i >= data.len() {
        Seq::empty()
    } else {
        match find_from(data, 32u8, i) {
            None => "invalid tree entry: no space"@,
            Some(sp) => match find_from(data, 0u8, sp) {
                None => "invalid tree entry: no null"@,
                Some(nul) => {
                    let mode = data.subrange(i, sp);
                    let name = data.subrange(sp + 1, nul);
                    if !valid_utf8(mode) {
                        "invalid mode in tree entry"@
                    } else if !valid_utf8(name) {
                        "invalid name in tree entry"@
                    } else if unsafe_entry_name(decode_utf8(name)) {
                        "invalid tree entry name: "@ + decode_utf8(name)
                    } else if nul + 21 > data.len() {
                        "tree entry truncated"@
                    } else {
                        proof {
                            lemma_find_from(data, 32u8, i);
                            lemma_find_from(data, 0u8, sp);
                        }
                        entries_error_from(data, nul + 21)
                    }
                },
            },
        }
    }
}

/// The message for a commit body that does not parse.
pub open spec fn commit_error(body: Seq<u8>) -> Seq<char> {
    if !valid_utf8(body) {
        "invalid commit: not UTF-8"@
    } else {
        "invalid commit: no blank line separating headers and message"@
    }
}

/// The message for a tag body that does not parse.
pub open spec fn tag_error(body: Seq<u8>) -> Seq<char> {
    if !valid_utf8(body) {
        "invalid tag: not UTF-8"@
    } else {
        "invalid tag: no blank line separating headers and message"@
    }
}

/// The message for the first problem found in a raw object, checked in the
/// order: header end, header text, header form, size, size against the
/// body, then the body of the named kind.
pub open spec fn object_error(data: Seq<u8>) -> Seq<char> {
    match find_from(data, 0u8, 0) {
        None => "invalid object: no null byte in header"@,
        Some(nul) => {
            let header = data.subrange(0, nul);
            let body = data.subrange(nul + 1, data.len() as int);
            if !valid_utf8(header) {
                "invalid object header"@
            } else {
                match find_from(header, 32u8, 0) {
                    None => "invalid object header format"@,
                    Some(sp) => {
                        let kind = header.subrange(0, sp);
                        match parse_usize_spec(header.subrange(sp + 1, header.len() as int)) {
                            None => "invalid object size"@,
                            Some(size) => if body.len() != size {
                                "object size mismatch: header says "@ + dec_chars(size as int) + ", body is "@
                                    + dec_chars(body.len() as int)
                            } else if kind == bytes_blob() {
                                Seq::empty()
                            } else if kind == bytes_tree() {
                                entries_error_from(body, 0)
                            } else if kind == bytes_commit() {
                                commit_error(body)
                            } else if kind == bytes_tag() {
                                tag_error(body)
                            } else if valid_utf8(kind) {
                                "unknown object type: "@ + decode_utf8(kind)
                            } else {
                                "unknown object type"@
                            },
                        }
                    },
                }
            }
        },
    }
}

pub open spec fn bytes_blob() -> Seq<u8> { seq![98u8, 108u8, 111u8, 98u8] }
pub open spec fn bytes_tree() -> Seq<u8> { seq![116u8, 114u8, 101u8, 101u8] }
pub open spec fn bytes_commit() -> Seq<u8> { seq![99u8, 111u8, 109u8, 109u8, 105u8, 116u8] }
pub open spec fn bytes_tag() -> Seq<u8> { seq![116u8, 97u8, 103u8] }

/// What a raw object (header and body) parses to.
pub open spec fn parse_object_spec(data: Seq<u8>) -> Option<ObjectModel> {
    match find_from(data, 0u8, 0) {
        None => None,
        Some(nul) => {
            let header = data.subrange(0, nul);
            let body = data.subrange(nul + 1, data.len() as int);
            if !valid_utf8(header) {
                None
            } else {
                match find_from(header, 32u8, 0) {
                    None => None,
                    Some(sp) => {
                        let kind = header.subrange(0, sp);
                        match parse_usize_spec(header.subrange(sp + 1, header.len() as int)) {
                            None => None,
                            Some(size) => if body.len() != size {
                                None
                            } else if kind == bytes_blob() {
                                Some(ObjectModel::Blob(body))
                            } else if kind == bytes_tree() {
                                match parse_entries_from(body, 0) {
                                    Some(es) => Some(ObjectModel::Tree(es)),
                                    None => None,
                                }
                            } else if kind == bytes_commit() {
                                match parse_commit_spec(body) {
                                    Some(c) => Some(ObjectModel::Commit(c)),
                                    None => None,
                                }
                            } else if kind == bytes_tag() {
                                match parse_tag_spec(body) {
                                    Some(t) => Some(ObjectModel::Tag(t)),
                                    None => None,
                                }
                            } else {
                                None
                            },
                        }
                    },
                }
            }
        },
    }
}

/// Builds an error message from a literal.
fn message(text: &str) -> (out: String)
    ensures
        out@ == text@,
{
    String::from_str(text)
}

/// Builds an error message from a literal and a string.
fn message_with(text: &str, detail: &str) -> (out: String)
    ensures
        out@ == text@ + detail@,
{
    let mut s = String::from_str(text);
    s.append(detail);
    s
}

/// `true` when a tree entry name could escape the repository.
fn is_unsafe_name(cs: &[char]) -> (out: bool)
    ensures
        out == unsafe_entry_name(cs@),
{
    let mut i: usize = 0;
    while i < cs.len()
        invariant
            i <= cs@.len(),
            forall|k: int| 0 <= k < i ==> cs@[k] != '\0',
            forall|k: int| 0 <= k < i && k + 1 < cs@.len() ==> !(#[trigger] cs@[k] == '.' && cs@[k + 1] == '.'),
        decreases cs@.len() - i,
    {
        if cs[i] == '\0' {
            assert(cs@.contains('\0'));
            return true;
        }
        if i + 1 < cs.len() && cs[i] == '.' && cs[i + 1] == '.' {
            assert(cs@.subrange(i as int, i + 2) =~= seq!['.', '.']);
            assert(crate::text::occurs_at(cs@, seq!['.', '.'], i as int));
            return true;
        }
        i = i + 1;
    }
    assert(!contains_seq(cs@, seq!['.', '.'])) by {
        if contains_seq(cs@, seq!['.', '.']) {
            let k = choose|k: int| crate::text::occurs_at(cs@, seq!['.', '.'], k);
            assert(cs@.subrange(k, k + 2)[0] == cs@[k]);
            assert(cs@.subrange(k, k + 2)[1] == cs@[k + 1]);
        }
    }
    cs.len() > 0 && cs[0] == '/'
}

/// Parses a tree body.
fn parse_tree(data: &[u8]) -> (out: Result<Object, String>)
    ensures
        out is Ok <==> parse_entries_from(data@, 0) is Some,
        out matches Ok(o) ==> o@ == ObjectModel::Tree(parse_entries_from(data@, 0)->0),
        out matches Err(e) ==> e@ == entries_error_from(data@, 0),
{
    let mut entries: Vec<TreeEntry> = Vec::new();
    let mut i: usize = 0;
    while i < data.len()
        invariant
            i <= data@.len(),
            parse_entries_from(data@, 0) is Some <==> parse_entries_from(data@, i as int) is Some,
            parse_entries_from(data@, 0) is Some ==> parse_entries_from(data@, 0)->0 == entry_views(
                entries@,
            ) + parse_entries_from(data@, i as int)->0,
            entries_error_from(data@, 0) == entries_error_from(data@, i as int),
        decreases data@.len() - i,
    {
        proof {
            lemma_find_from(data@, 32u8, i as int);
        }
        let sp = match find_byte(data, 32u8, i) {
            Some(p) => p,
            None => {
                return Err(message("invalid tree entry: no space"));
            },
        };
        proof {
            lemma_find_from(data@, 0u8, sp as int);
        }
        let nul = match find_byte(data, 0u8, sp) {
            Some(p) => p,
            None => {
                return Err(message("invalid tree entry: no null"));
            },
        };
        let mode_bytes = copy_bytes(data, i, sp);
        let mode = match string_from_utf8(mode_bytes) {
            Some(m) => m,
            None => {
                return Err(message("invalid mode in tree entry"));
            },
        };
        let name_bytes = copy_bytes(data, sp + 1, nul);
        let name = match string_from_utf8(name_bytes) {
            Some(n) => n,
            None => {
                return Err(message("invalid name in tree entry"));
            },
        };
        let name_chars = chars_of(name.as_str());
        if is_unsafe_name(name_chars.as_slice()) {
            return Err(message_with("invalid tree entry name: ", name.as_str()));
        }
        if nul >= data.len() || data.len() - nul - 1 < 20 {
            return Err(message("tree entry truncated"));
        }
        let sha = bytes_to_hex(slice_subrange(data, nul + 1, nul + 21));
        let entry = TreeEntry { mode, name, sha };
        let ghost before = entries@;
        entries.push(entry);
        proof {
            assert(entry_views(entries@) == entry_views(before) + seq![entry@]);
            let rest = parse_entries_from(data@, nul + 21);
            if rest is Some {
                assert(parse_entries_from(data@, i as int)->0 == seq![entry@] + rest->0);
            }
        }
        i = nul + 21;
    }
    assert(parse_entries_from(data@, i as int) == Some(Seq::<TreeEntryModel>::empty()));
    assert(entry_views(entries@) + Seq::<TreeEntryModel>::empty() == entry_views(entries@));
    Ok(Object::Tree(entries))
}


/// `true` when the line `cs[at..end]` starts with `key` followed by a space.
fn has_key(cs: &[char], at: usize, end: usize, key: &[char], Ghost(word): Ghost<Seq<char>>) -> (out: bool)
    requires
        at <= end <= cs@.len(),
        key@ =~= word + seq![' '],
    ensures
        out == starts_with(cs@.subrange(at as int, end as int), word + seq![' ']),
        out ==> end - at >= key@.len(),
{
    has_at(cs, at, end, key)
}

/// Copies a byte slice into a string when it is valid UTF-8.
fn text_of(data: &[u8]) -> (out: Option<Vec<char>>)
    ensures
        out is Some <==> valid_utf8(data@),
        out matches Some(cs) ==> cs@ == decode_utf8(data@),
{
    let bytes = copy_bytes(data, 0, data.len());
    assert(data@.subrange(0, data@.len() as int) == data@);
    match string_from_utf8(bytes) {
        Some(t) => Some(chars_of(t.as_str())),
        None => None,
    }
}

/// Parses a commit body.
fn parse_commit(data: &[u8]) -> (out: Result<Object, String>)
    ensures
        out is Ok <==> parse_commit_spec(data@) is Some,
        out matches Ok(o) ==> o@ == ObjectModel::Commit(parse_commit_spec(data@)->0),
        out matches Err(e) ==> e@ == commit_error(data@),
{
    let cs = match text_of(data) {
        Some(cs) => cs,
        None => {
            return Err(message("invalid commit: not UTF-8"));
        },
    };
    let found = find_blank_line(cs.as_slice());
    let k = match found {
        Some(k) => {
            assert(k + 2 <= cs@.len());
            k
        },
        None => {
            return Err(message("invalid commit: no blank line separating headers and message"));
        },
    };
    let headers = copy_chars(cs.as_slice(), 0, k);
    let total = cs.len();
    let message = string_from_chars(cs.as_slice(), k + 2, total);
    let mut tree = String::new();
    let mut parents: Vec<String> = Vec::new();
    let mut author = String::new();
    let mut committer = String::new();
    let ghost init = CommitModel {
        tree: Seq::empty(),
        parents: Seq::empty(),
        author: Seq::empty(),
        committer: Seq::empty(),
        message: message@,
    };
    let mut pos: usize = 0;
    assert(string_views(parents@) =~= Seq::<Seq<char>>::empty());
    while pos < headers.len()
        invariant
            pos <= headers@.len(),
            fold_commit(init, lines_from(headers@, 0)) == fold_commit(
                CommitModel {
                    tree: tree@,
                    parents: string_views(parents@),
                    author: author@,
                    committer: committer@,
                    message: message@,
                },
                lines_from(headers@, pos as int),
            ),
        decreases headers@.len() - pos,
    {
        let (end, next) = next_line(headers.as_slice(), pos);
        let ghost line = headers@.subrange(pos as int, end as int);
        assert(lines_from(headers@, pos as int)[0] == line);
        assert(lines_from(headers@, pos as int).drop_first() == lines_from(headers@, next as int));
        let ghost acc = CommitModel {
            tree: tree@,
            parents: string_views(parents@),
            author: author@,
            committer: committer@,
            message: message@,
        };
        if has_key(headers.as_slice(), pos, end, &['t', 'r', 'e', 'e', ' '], Ghost(kw_tree())) {
            tree = string_from_chars(headers.as_slice(), pos + 5, end);
            assert(tree@ == line.skip(5));
        } else if has_key(headers.as_slice(), pos, end, &['p', 'a', 'r', 'e', 'n', 't', ' '], Ghost(kw_parent())) {
            let p = string_from_chars(headers.as_slice(), pos + 7, end);
            assert(p@ == line.skip(7));
            parents.push(p);
            assert(string_views(parents@) =~= acc.parents.push(line.skip(7)));
        } else if has_key(headers.as_slice(), pos, end, &['a', 'u', 't', 'h', 'o', 'r', ' '], Ghost(kw_author())) {
            author = string_from_chars(headers.as_slice(), pos + 7, end);
            assert(author@ == line.skip(7));
        } else if has_key(headers.as_slice(), pos, end, &['c', 'o', 'm', 'm', 'i', 't', 't', 'e', 'r', ' '], Ghost(kw_committer())) {
            committer = string_from_chars(headers.as_slice(), pos + 10, end);
            assert(committer@ == line.skip(10));
        }
        assert(commit_line(acc, line) == CommitModel {
            tree: tree@,
            parents: string_views(parents@),
            author: author@,
            committer: committer@,
            message: message@,
        });
        pos = next;
    }
    assert(lines_from(headers@, pos as int) == Seq::<Seq<char>>::empty());
    let data = CommitData { tree, parents, author, committer, message };
    Ok(Object::Commit(data))
}

/// Parses a tag body.
fn parse_tag(data: &[u8]) -> (out: Result<Object, String>)
    ensures
        out is Ok <==> parse_tag_spec(data@) is Some,
        out matches Ok(o) ==> o@ == ObjectModel::Tag(parse_tag_spec(data@)->0),
        out matches Err(e) ==> e@ == tag_error(data@),
{
    let cs = match text_of(data) {
        Some(cs) => cs,
        None => {
            return Err(message("invalid tag: not UTF-8"));
        },
    };
    let found = find_blank_line(cs.as_slice());
    let k = match found {
        Some(k) => {
            assert(k + 2 <= cs@.len());
            k
        },
        None => {
            return Err(message("invalid tag: no blank line separating headers and message"));
        },
    };
    let headers = copy_chars(cs.as_slice(), 0, k);
    let total = cs.len();
    let message = string_from_chars(cs.as_slice(), k + 2, total);
    let mut object = String::new();
    let mut object_type = String::new();
    let mut tag_name = String::new();
    let mut tagger = String::new();
    let ghost init = TagModel {
        object: Seq::empty(),
        object_type: Seq::empty(),
        tag_name: Seq::empty(),
        tagger: Seq::empty(),
        message: message@,
    };
    let mut pos: usize = 0;
    while pos < headers.len()
        invariant
            pos <= headers@.len(),
            fold_tag(init, lines_from(headers@, 0)) == fold_tag(
                TagModel {
                    object: object@,
                    object_type: object_type@,
                    tag_name: tag_name@,
                    tagger: tagger@,
                    message: message@,
                },
                lines_from(headers@, pos as int),
            ),
        decreases headers@.len() - pos,
    {
        let (end, next) = next_line(headers.as_slice(), pos);
        let ghost line = headers@.subrange(pos as int, end as int);
        assert(lines_from(headers@, pos as int)[0] == line);
        assert(lines_from(headers@, pos as int).drop_first() == lines_from(headers@, next as int));
        let ghost acc = TagModel {
            object: object@,
            object_type: object_type@,
            tag_name: tag_name@,
            tagger: tagger@,
            message: message@,
        };
        if has_key(headers.as_slice(), pos, end, &['o', 'b', 'j', 'e', 'c', 't', ' '], Ghost(kw_object())) {
            object = string_from_chars(headers.as_slice(), pos + 7, end);
            assert(object@ == line.skip(7));
        } else if has_key(headers.as_slice(), pos, end, &['t', 'y', 'p', 'e', ' '], Ghost(kw_type())) {
            object_type = string_from_chars(headers.as_slice(), pos + 5, end);
            assert(object_type@ == line.skip(5));
        } else if has_key(headers.as_slice(), pos, end, &['t', 'a', 'g', ' '], Ghost(kw_tag())) {
            tag_name = string_from_chars(headers.as_slice(), pos + 4, end);
            assert(tag_name@ == line.skip(4));
        } else if has_key(headers.as_slice(), pos, end, &['t', 'a', 'g', 'g', 'e', 'r', ' '], Ghost(kw_tagger())) {
            tagger = string_from_chars(headers.as_slice(), pos + 7, end);
            assert(tagger@ == line.skip(7));
        }
        assert(tag_line(acc, line) == TagModel {
            object: object@,
            object_type: object_type@,
            tag_name: tag_name@,
            tagger: tagger@,
            message: message@,
        });
        pos = next;
    }
    assert(lines_from(headers@, pos as int) == Seq::<Seq<char>>::empty());
    let data = TagData { object, object_type, tag_name, tagger, message };
    Ok(Object::Tag(data))
}


/// Parses a raw object (`"<type> <size>\0<body>"`) into an object.
pub fn parse_object(data: &[u8]) -> (out: Result<Object, String>)
    ensures
        out is Ok <==> parse_object_spec(data@) is Some,
        out matches Ok(o) ==> o@ == parse_object_spec(data@)->0,
        out matches Err(e) ==> e@ == object_error(data@),
{
    proof {
        lemma_find_from(data@, 0u8, 0);
    }
    let nul = match find_byte(data, 0u8, 0) {
        Some(p) => p,
        None => {
            return Err(message("invalid object: no null byte in header"));
        },
    };
    let header = slice_subrange(data, 0, nul);
    if !is_valid_utf8(header) {
        return Err(message("invalid object header"));
    }
    proof {
        lemma_find_from(header@, 32u8, 0);
    }
    let sp = match find_byte(header, 32u8, 0) {
        Some(p) => p,
        None => {
            return Err(message("invalid object header format"));
        },
    };
    let size = match parse_usize(slice_subrange(header, sp + 1, header.len())) {
        Some(n) => n,
        None => {
            return Err(message("invalid object size"));
        },
    };
    let dlen = data.len();
    let body = slice_subrange(data, nul + 1, dlen);
    if body.len() != size {
        let mut msg = message("object size mismatch: header says ");
        push_decimal(&mut msg, size);
        msg.append(", body is ");
        push_decimal(&mut msg, body.len());
        return Err(msg);
    }
    let kind = slice_subrange(header, 0, sp);
    if bytes_eq(kind, &[98u8, 108u8, 111u8, 98u8]) {
        let blob = copy_bytes(body, 0, body.len());
        assert(body@.subrange(0, body@.len() as int) == body@);
        Ok(Object::Blob(blob))
    } else if bytes_eq(kind, &[116u8, 114u8, 101u8, 101u8]) {
        parse_tree(body)
    } else if bytes_eq(kind, &[99u8, 111u8, 109u8, 109u8, 105u8, 116u8]) {
        parse_commit(body)
    } else if bytes_eq(kind, &[116u8, 97u8, 103u8]) {
        parse_tag(body)
    } else {
        assert(kind@.subrange(0, kind@.len() as int) == kind@);
        match string_from_utf8(copy_bytes(kind, 0, kind.len())) {
            Some(k) => Err(message_with("unknown object type: ", k.as_str())),
            None => Err(message("unknown object type")),
        }
    }
}


// ---------------------------------------------------------------------------
// The loose-object store
// ---------------------------------------------------------------------------

/// The largest decompressed object the store accepts, exclusive (100 MB).
pub const MAX_OBJECT_SIZE: u64 = 104857600;

/// Checks that a string names an object: 40 hex digits. This also keeps the
/// name from steering a path outside the object directory.
pub fn validate_sha(sha: &str) -> (out: Result<(), String>)
    ensures
        out is Ok <==> is_sha_text(utf8(sha@)),
        out matches Err(e) ==> e@ == "invalid SHA: "@ + sha@,
{
    let b = sha.as_bytes();
    if b.len() != 40 {
        return Err(message_with("invalid SHA: ", sha));
    }
    let mut i: usize = 0;
    while i < b.len()
        invariant
            b@ == utf8(sha@),
            i <= b@.len(),
            forall|k: int| 0 <= k < i ==> is_hex_byte(#[trigger] b@[k]),
        decreases b@.len() - i,
    {
        if hex_digit(b[i]).is_none() {
            return Err(message_with("invalid SHA: ", sha));
        }
        i = i + 1;
    }
    Ok(())
}

/// The directory (first two hex digits) and file name (the other 38) under
/// which the object with this name is stored.
pub fn object_location(sha: &str) -> (out: Result<(String, String), String>)
    ensures
        out is Ok <==> is_sha_text(utf8(sha@)),
        out matches Ok((d, f)) ==> d@ + f@ == sha@ && d@.len() == 2,
        out matches Err(e) ==> e@ == "invalid SHA: "@ + sha@,
{
    validate_sha(sha)?;
    let cs = chars_of(sha);
    proof {
        lemma_sha_text_chars(sha@);
    }
    let dir = string_from_chars(cs.as_slice(), 0, 2);
    let file = string_from_chars(cs.as_slice(), 2, cs.len());
    assert(dir@ + file@ =~= sha@);
    Ok((dir, file))
}

/// A valid object name is 40 characters long.
proof fn lemma_sha_text_chars(s: Seq<char>)
    requires
        is_sha_text(utf8(s)),
    ensures
        s.len() == 40,
{
    lemma_utf8_len(s);
    // every byte is ASCII, so each character is one byte
    if s.len() != 40 {
        lemma_utf8_all_ascii_bytes(s);
    }
}

/// The encoding is at least as long as the text.
proof fn lemma_utf8_len(s: Seq<char>)
    ensures
        utf8(s).len() >= s.len(),
    decreases s.len(),
{
    if s.len() > 0 {
        lemma_utf8_len(s.drop_first());
        assert(encode_scalar(s[0] as u32).len() >= 1);
    }
}

/// When every byte of the encoding is ASCII, the encoding has one byte per character.
proof fn lemma_utf8_all_ascii_bytes(s: Seq<char>)
    requires
        forall|i: int| 0 <= i < utf8(s).len() ==> #[trigger] utf8(s)[i] < 0x80,
    ensures
        utf8(s).len() == s.len(),
    decreases s.len(),
{
    if s.len() > 0 {
        let v = s[0] as u32;
        vstd::utf8::char_is_scalar(s[0]);
        let e = encode_scalar(v);
        assert(utf8(s) == e + utf8(s.drop_first()));
        if v >= 0x80 {
            crate::text::lemma_scalar_high_bytes(v);
            assert(utf8(s)[0] == e[0]);
        }
        assert forall|i: int| 0 <= i < utf8(s.drop_first()).len() implies #[trigger] utf8(
            s.drop_first(),
        )[i] < 0x80 by {
            assert(utf8(s)[i + e.len()] == utf8(s.drop_first())[i]);
        }
        lemma_utf8_all_ascii_bytes(s.drop_first());
    }
}

impl Object {
    /// The object's name and its serialized form, compressed for the store.
    pub fn encode_for_store(&self) -> (out: Result<(String, Vec<u8>), String>)
        requires
            serializable(self@),
        ensures
            out matches Ok((sha, c)) ==> sha@ == object_sha(self@) && forall|lim: nat|
                lim >= object_bytes(self@).len() ==> #[trigger] zlib_inflate(c@, lim) == Some(
                    object_bytes(self@),
                ),
            out is Ok,
    {
        let data = self.serialize();
        let digest = sha1_bytes(data.as_slice());
        let sha = bytes_to_hex(digest.as_slice());
        let compressed = match zlib_compress(data.as_slice()) {
            Ok(c) => c,
            Err(CompressFailure::Write(e)) => {
                let msg = message_with("zlib compress failed: ", e.as_str());
                proof {
                    assert(msg@.subrange(0, "zlib compress failed: "@.len() as int) =~= "zlib compress failed: "@);
                }
                return Err(msg);
            },
            Err(CompressFailure::Finish(e)) => {
                let msg = message_with("zlib finish failed: ", e.as_str());
                proof {
                    assert(msg@.subrange(0, "zlib finish failed: "@.len() as int) =~= "zlib finish failed: "@);
                }
                return Err(msg);
            },
        };
        Ok((sha, compressed))
    }

    /// Reads an object back from its compressed stored form. At most
    /// `MAX_OBJECT_SIZE` bytes are decompressed; an object that reaches the
    /// limit is refused.
    pub fn decode_stored(compressed: &[u8]) -> (out: Result<Object, String>)
        ensures
            out is Ok <==> (zlib_inflate(compressed@, MAX_OBJECT_SIZE as nat) matches Some(d) && d.len()
                < MAX_OBJECT_SIZE && parse_object_spec(d) is Some),
            out matches Ok(o) ==> o@ == parse_object_spec(
                zlib_inflate(compressed@, MAX_OBJECT_SIZE as nat)->0,
            )->0,
            out matches Err(e) ==> match zlib_inflate(compressed@, MAX_OBJECT_SIZE as nat) {
                None => starts_with(e@, "zlib decompress failed: "@),
                Some(d) => e@ == if d.len() >= MAX_OBJECT_SIZE {
                    "object exceeds maximum size (100 MB)"@
                } else {
                    object_error(d)
                },
            },
    {
        let data = match zlib_decompress(compressed, MAX_OBJECT_SIZE) {
            Ok(d) => d,
            Err(e) => {
                let msg = message_with("zlib decompress failed: ", e.as_str());
                proof {
                    assert(msg@.subrange(0, "zlib decompress failed: "@.len() as int) =~= "zlib decompress failed: "@);
                }
                return Err(msg);
            },
        };
        if data.len() as u64 >= MAX_OBJECT_SIZE {
            return Err(message("object exceeds maximum size (100 MB)"));
        }
        parse_object(data.as_slice())
    }
}

} // verus!
