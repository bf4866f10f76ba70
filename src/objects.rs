//! Decoding of git's loose objects.
//!
//! A loose object is a zlib stream; inflated, it reads
//! `<type> <size>\0<body>`. Commits and trees name other objects by hash:
//! a commit its tree and parents, a tree each of its entries.

use vstd::prelude::*;
use vstd::utf8::{decode_utf8, valid_utf8};
use crate::bytes::{
    bytes_equal_at, find_byte, find_byte_from, first_from, has_prefix, has_prefix_at, lemma_first_from,
    lemma_first_from_facts,
};

verus! {

/// The length of a raw hash in a tree entry.
pub const HASH_SIZE: usize = 20;

/// Why a buffer could not be decoded as an object.
#[derive(PartialEq, Eq, Structural, Debug, Clone, Copy)]
pub enum DecodeError {
    /// The compressed stream could not be inflated.
    Inflate,
    /// The object's type is not one that this decoder knows.
    UnknownType,
    /// A commit or tree header has no NUL byte after its size.
    MissingHeaderTerminator,
    /// The header announces more body bytes than the buffer holds.
    BodyTruncated,
    /// A tree entry has no space between its mode and its name.
    EntryMissingSpace,
    /// A tree entry has no NUL byte after its name.
    EntryMissingNul,
    /// A tree entry ends before its twenty hash bytes.
    EntryTruncated,
    /// A text field is not valid UTF-8.
    NotUtf8,
}

/// One entry of a tree: `<mode> <name>\0<20 raw hash bytes>`.
pub struct TreeEntry {
    pub mode: String,
    pub name: String,
    /// The hash, as forty lowercase hexadecimal digits.
    pub hash: String,
    /// The number of bytes that the entry takes in the tree's body.
    pub size: usize,
}

/// What a tree entry says, as character sequences.
pub struct EntryView {
    pub mode: Seq<char>,
    pub name: Seq<char>,
    pub hash: Seq<char>,
}

impl View for TreeEntry {
    type V = EntryView;

    open spec fn view(&self) -> EntryView {
        EntryView { mode: self.mode@, name: self.name@, hash: self.hash@ }
    }
}

/// The character for a value below sixteen, in lowercase.
pub open spec fn hex_digit(n: u8) -> char {
    if n < 10 {
        ((48 + n) as u8) as char
    } else {
        ((87 + n) as u8) as char
    }
}

/// Two lowercase hexadecimal digits for each byte, high half first.
pub open spec fn hex_chars(b: Seq<u8>) -> Seq<char>
    decreases b.len(),
{
    if b.len() == 0 {
        Seq::empty()
    } else {
        seq![hex_digit(b[0] / 16), hex_digit(b[0] % 16)] + hex_chars(b.subrange(1, b.len() as int))
    }
}

/// Relies on hex::encode: two lowercase digits for each byte, in order.
#[verifier::external_body]
fn hex_string(b: &[u8]) -> (r: String)
    ensures
        r@ == hex_chars(b@),
{
    hex::encode(b)
}

/// Relies on std::str::from_utf8: it accepts exactly the valid UTF-8 byte
/// sequences, and the text it gives back is their decoding.
#[verifier::external_body]
fn utf8_text(b: &[u8]) -> (r: Option<String>)
    ensures
        r is Some <==> valid_utf8(b@),
        r matches Some(s) ==> s@ == decode_utf8(b@),
{
    match std::str::from_utf8(b) {
        Ok(s) => Some(s.to_string()),
        Err(_) => None,
    }
}

/// The entry at the start of `b`, with the number of bytes it takes.
pub open spec fn entry_spec(b: Seq<u8>) -> Result<(EntryView, int), DecodeError> {
    match first_from(b, 32, 0) {
        None => Err(DecodeError::EntryMissingSpace),
        Some(sp) => match first_from(b, 0, sp + 1) {
            None => Err(DecodeError::EntryMissingNul),
            Some(nul) => if nul + 1 + HASH_SIZE > b.len() {
                Err(DecodeError::EntryTruncated)
            } else if !valid_utf8(b.subrange(0, sp)) || !valid_utf8(b.subrange(sp + 1, nul)) {
                Err(DecodeError::NotUtf8)
            } else {
                Ok(
                    (
                        EntryView {
                            mode: decode_utf8(b.subrange(0, sp)),
                            name: decode_utf8(b.subrange(sp + 1, nul)),
                            hash: hex_chars(b.subrange(nul + 1, nul + 1 + HASH_SIZE)),
                        },
                        nul + 1 + HASH_SIZE,
                    ),
                )
            },
        },
    }
}

/// Reads the tree entry at the start of `data`; the bytes after it are left.
pub fn read_tree_entry(data: &[u8]) -> (r: Result<TreeEntry, DecodeError>)
    ensures
        entry_spec(data@) == match r {
            Ok(e) => Ok((e@, e.size as int)),
            Err(x) => Err(x),
        },
        r matches Ok(e) ==> HASH_SIZE < e.size <= data@.len(),
{
    let len = data.len();
    let sp = match find_byte(32, data) {
        Some(i) => i,
        None => {
            proof {
                lemma_first_from(data@, 32, 0, None);
            }
            return Err(DecodeError::EntryMissingSpace);
        },
    };
    proof {
        lemma_first_from(data@, 32, 0, Some(sp as int));
    }
    let nul = match find_byte_from(0, data, sp + 1) {
        Some(i) => i,
        None => return Err(DecodeError::EntryMissingNul),
    };
    if len - nul - 1 < HASH_SIZE {
        return Err(DecodeError::EntryTruncated);
    }
    let mode = utf8_text(vstd::slice::slice_subrange(data, 0, sp));
    let name = utf8_text(vstd::slice::slice_subrange(data, sp + 1, nul));
    match (mode, name) {
        (Some(mode), Some(name)) => {
            let hash = hex_string(vstd::slice::slice_subrange(data, nul + 1, nul + 1 + HASH_SIZE));
            Ok(TreeEntry { mode, name, hash, size: nul + 1 + HASH_SIZE })
        },
        _ => Err(DecodeError::NotUtf8),
    }
}

} // verus!

verus! {

/// The decoded type of an object, with the hashes it refers to.
pub enum ObjectType {
    /// A header that is not `commit`, `tree` or `blob`.
    Unknown,
    Commit { tree: Option<String>, parents: Vec<String> },
    Tree { entries: Vec<TreeEntry> },
    Blob,
}

/// An object's type and the size that its header announces.
pub struct ObjectHeader {
    pub object_type: ObjectType,
    pub size: usize,
}

/// What an object says, as character sequences.
pub enum ObjectView {
    Unknown,
    Commit { tree: Option<Seq<char>>, parents: Seq<Seq<char>> },
    Tree { entries: Seq<EntryView> },
    Blob,
}

pub open spec fn entries_view(entries: Seq<TreeEntry>) -> Seq<EntryView> {
    entries.map_values(|e: TreeEntry| e@)
}

pub open spec fn strings_view(strings: Seq<String>) -> Seq<Seq<char>> {
    strings.map_values(|s: String| s@)
}

impl View for ObjectType {
    type V = ObjectView;

    open spec fn view(&self) -> ObjectView {
        match self {
            ObjectType::Unknown => ObjectView::Unknown,
            ObjectType::Commit { tree, parents } => ObjectView::Commit {
                tree: match tree {
                    Some(t) => Some(t@),
                    None => None,
                },
                parents: strings_view(parents@),
            },
            ObjectType::Tree { entries } => ObjectView::Tree { entries: entries_view(entries@) },
            ObjectType::Blob => ObjectView::Blob,
        }
    }
}

/// The entries of a tree body, laid back to back until the body ends.
pub open spec fn tree_entries(body: Seq<u8>) -> Result<Seq<EntryView>, DecodeError>
    decreases body.len(),
{
    if body.len() == 0 {
        Ok(Seq::empty())
    } else {
        match entry_spec(body) {
            Err(e) => Err(e),
            Ok((v, n)) => if 0 < n <= body.len() {
                match tree_entries(body.subrange(n, body.len() as int)) {
                    Ok(rest) => Ok(seq![v] + rest),
                    Err(e) => Err(e),
                }
            } else {
                Err(DecodeError::EntryTruncated)
            },
        }
    }
}

pub open spec fn prepend_entries(
    done: Seq<EntryView>,
    rest: Result<Seq<EntryView>, DecodeError>,
) -> Result<Seq<EntryView>, DecodeError> {
    match rest {
        Ok(r) => Ok(done + r),
        Err(e) => Err(e),
    }
}

/// Reads every entry of a tree body, each starting where the last one ended.
pub fn read_tree(body: &[u8]) -> (r: Result<Vec<TreeEntry>, DecodeError>)
    ensures
        tree_entries(body@) == match r {
            Ok(v) => Ok(entries_view(v@)),
            Err(e) => Err(e),
        },
{
    let len = body.len();
    let mut entries: Vec<TreeEntry> = Vec::new();
    let mut pos: usize = 0;
    assert(body@.subrange(0, len as int) =~= body@);
    while pos < len
        invariant
            len == body@.len(),
            pos <= len,
            tree_entries(body@) == prepend_entries(
                entries_view(entries@),
                tree_entries(body@.subrange(pos as int, len as int)),
            ),
        decreases len - pos,
    {
        let rest = vstd::slice::slice_subrange(body, pos, len);
        let entry = match read_tree_entry(rest) {
            Ok(e) => e,
            Err(e) => return Err(e),
        };
        let ghost n = entry.size as int;
        proof {
            assert(rest@.subrange(n, rest@.len() as int) =~= body@.subrange(
                pos + n,
                len as int,
            ));
            assert(entries_view(entries@.push(entry)) =~= entries_view(entries@) + seq![entry@]);
            let tail = tree_entries(body@.subrange(pos + n, len as int));
            assert(tree_entries(rest@) == prepend_entries(seq![entry@], tail));
            match tail {
                Ok(x) => {
                    assert(entries_view(entries@) + (seq![entry@] + x) =~= (entries_view(entries@)
                        + seq![entry@]) + x);
                },
                Err(_) => {},
            }
        }
        pos = pos + entry.size;
        entries.push(entry);
    }
    Ok(entries)
}

/// The decimal value of a run of ASCII digits.
pub open spec fn digits_value(s: Seq<u8>) -> nat
    decreases s.len(),
{
    if s.len() == 0 {
        0
    } else {
        digits_value(s.drop_last()) * 10 + (s.last() - 48) as nat
    }
}

pub open spec fn all_digits(s: Seq<u8>) -> bool {
    forall|i: int| 0 <= i < s.len() ==> 48 <= #[trigger] s[i] <= 57
}

/// The size field without its optional leading `+`.
pub open spec fn size_digits(s: Seq<u8>) -> Seq<u8> {
    if s.len() > 0 && s[0] == 43 {
        s.subrange(1, s.len() as int)
    } else {
        s
    }
}

/// The header's size field as `usize::from_str` reads it (an optional `+`,
/// then digits, within range), and zero where it does not read.
pub open spec fn size_field(s: Seq<u8>) -> nat {
    let d = size_digits(s);
    if d.len() > 0 && all_digits(d) && digits_value(d) <= usize::MAX {
        digits_value(d)
    } else {
        0
    }
}

proof fn lemma_digits_value_grows(s: Seq<u8>, k: int)
    requires
        0 <= k <= s.len(),
        all_digits(s),
    ensures
        digits_value(s.subrange(0, k)) <= digits_value(s),
    decreases s.len(),
{
    if k < s.len() {
        assert(s.drop_last() =~= s.subrange(0, s.len() - 1));
        assert(s.drop_last().subrange(0, k) =~= s.subrange(0, k));
        lemma_digits_value_grows(s.drop_last(), k);
    } else {
        assert(s.subrange(0, k) =~= s);
    }
}

/// Reads the size field `data[start..end]`; zero where it is not a number.
pub fn parse_size(data: &[u8], start: usize, end: usize) -> (r: usize)
    requires
        start <= end <= data@.len(),
    ensures
        r as nat == size_field(data@.subrange(start as int, end as int)),
{
    let ghost s = data@.subrange(start as int, end as int);
    let mut i = start;
    if i < end && data[i] == 43 {
        i = i + 1;
    }
    let first = i;
    let ghost d = data@.subrange(first as int, end as int);
    assert(d =~= size_digits(s));
    if first == end {
        return 0;
    }
    let mut value: usize = 0;
    assert(d.subrange(0, 0) =~= Seq::<u8>::empty());
    while i < end
        invariant
            start <= first <= i <= end <= data@.len(),
            s == data@.subrange(start as int, end as int),
            d == size_digits(s),
            d == data@.subrange(first as int, end as int),
            all_digits(d.subrange(0, i - first)),
            value as nat == digits_value(d.subrange(0, i - first)),
        decreases end - i,
    {
        let b = data[i];
        assert(d[i - first] == b);
        if b < 48 || b > 57 {
            assert(!all_digits(d));
            assert(size_field(s) == 0);
            return 0;
        }
        let ghost next = d.subrange(0, i - first + 1);
        assert(next.drop_last() =~= d.subrange(0, i - first));
        assert(all_digits(next));
        assert(digits_value(next) == value * 10 + (b - 48) as nat);
        let grown = match value.checked_mul(10) {
            Some(m) => m.checked_add((b - 48) as usize),
            None => None,
        };
        match grown {
            Some(v) => {
                value = v;
            },
            None => {
                proof {
                    if all_digits(d) {
                        lemma_digits_value_grows(d, i - first + 1);
                    }
                    assert(size_field(s) == 0);
                }
                return 0;
            },
        }
        i = i + 1;
    }
    assert(d.subrange(0, i - first) =~= d);
    value
}

} // verus!

verus! {

/// A line without the `\r` of a `\r\n` ending.
pub open spec fn strip_cr(l: Seq<u8>) -> Seq<u8> {
    if l.len() > 0 && l.last() == 13 {
        l.drop_last()
    } else {
        l
    }
}

/// The lines of `s`, the current one having begun with `cur`: split at each
/// `\n`, a `\r` before it dropped, and no empty line after a final `\n`.
pub open spec fn lines_acc(s: Seq<u8>, cur: Seq<u8>) -> Seq<Seq<u8>>
    decreases s.len(),
{
    if s.len() == 0 {
        if cur.len() == 0 {
            Seq::empty()
        } else {
            seq![cur]
        }
    } else if s[0] == 10 {
        seq![strip_cr(cur)] + lines_acc(s.subrange(1, s.len() as int), Seq::empty())
    } else {
        lines_acc(s.subrange(1, s.len() as int), cur.push(s[0]))
    }
}

/// The lines of a text, as `str::lines` gives them.
pub open spec fn text_lines(s: Seq<u8>) -> Seq<Seq<u8>> {
    lines_acc(s, Seq::empty())
}

pub open spec fn tree_prefix() -> Seq<u8> {
    seq![116u8, 114, 101, 101, 32]
}

pub open spec fn parent_prefix() -> Seq<u8> {
    seq![112u8, 97, 114, 101, 110, 116, 32]
}

/// The hashes of the `parent ` lines at the start of `lines`, up to the
/// first line that is not one.
pub open spec fn parent_run(lines: Seq<Seq<u8>>) -> Seq<Seq<u8>>
    decreases lines.len(),
{
    if lines.len() > 0 && has_prefix(lines[0], parent_prefix()) {
        seq![lines[0].subrange(7, lines[0].len() as int)] + parent_run(
            lines.subrange(1, lines.len() as int),
        )
    } else {
        Seq::empty()
    }
}

/// The hash of a `tree ` first line.
pub open spec fn commit_tree(lines: Seq<Seq<u8>>) -> Option<Seq<u8>> {
    if lines.len() > 0 && has_prefix(lines[0], tree_prefix()) {
        Some(lines[0].subrange(5, lines[0].len() as int))
    } else {
        None
    }
}

/// The parent hashes: the `parent ` lines that follow the first line.
pub open spec fn commit_parents(lines: Seq<Seq<u8>>) -> Seq<Seq<u8>> {
    if lines.len() > 0 {
        parent_run(lines.subrange(1, lines.len() as int))
    } else {
        Seq::empty()
    }
}

pub open spec fn decode_all(texts: Seq<Seq<u8>>) -> Seq<Seq<char>> {
    texts.map_values(|t: Seq<u8>| decode_utf8(t))
}

/// A commit body: its tree and parents, whose hashes must be UTF-8 text.
pub open spec fn commit_view(body: Seq<u8>) -> Result<ObjectView, DecodeError> {
    let lines = text_lines(body);
    let tree = commit_tree(lines);
    let parents = commit_parents(lines);
    if (tree matches Some(t) && !valid_utf8(t)) || (exists|i: int|
        0 <= i < parents.len() && !valid_utf8(#[trigger] parents[i])) {
        Err(DecodeError::NotUtf8)
    } else {
        Ok(
            ObjectView::Commit {
                tree: match tree {
                    Some(t) => Some(decode_utf8(t)),
                    None => None,
                },
                parents: decode_all(parents),
            },
        )
    }
}

proof fn lemma_lines_acc_newline(s: Seq<u8>, cur: Seq<u8>, e: int)
    requires
        0 <= e < s.len(),
        s[e] == 10,
        forall|j: int| 0 <= j < e ==> s[j] != 10,
    ensures
        lines_acc(s, cur) == seq![strip_cr(cur + s.subrange(0, e))] + lines_acc(
            s.subrange(e + 1, s.len() as int),
            Seq::empty(),
        ),
    decreases e,
{
    if e == 0 {
        assert(cur + s.subrange(0, 0) =~= cur);
    } else {
        let s1 = s.subrange(1, s.len() as int);
        lemma_lines_acc_newline(s1, cur.push(s[0]), e - 1);
        assert(cur.push(s[0]) + s1.subrange(0, e - 1) =~= cur + s.subrange(0, e));
        assert(s1.subrange(e, s1.len() as int) =~= s.subrange(e + 1, s.len() as int));
    }
}

proof fn lemma_lines_acc_last(s: Seq<u8>, cur: Seq<u8>)
    requires
        forall|j: int| 0 <= j < s.len() ==> s[j] != 10,
    ensures
        lines_acc(s, cur) == if (cur + s).len() == 0 {
            Seq::<Seq<u8>>::empty()
        } else {
            seq![cur + s]
        },
    decreases s.len(),
{
    if s.len() == 0 {
        assert(cur + s =~= cur);
    } else {
        let s1 = s.subrange(1, s.len() as int);
        lemma_lines_acc_last(s1, cur.push(s[0]));
        assert(cur.push(s[0]) + s1 =~= cur + s);
    }
}

/// The line that starts at `pos`: where its text ends, and where the next
/// line starts.
fn line_at(body: &[u8], pos: usize) -> (r: (usize, usize))
    requires
        pos < body@.len(),
    ensures
        pos <= r.0 <= r.1 <= body@.len(),
        pos < r.1,
        text_lines(body@.subrange(pos as int, body@.len() as int)) == seq![
            body@.subrange(pos as int, r.0 as int),
        ] + text_lines(body@.subrange(r.1 as int, body@.len() as int)),
{
    let len = body.len();
    let ghost s = body@.subrange(pos as int, len as int);
    match find_byte_from(10, body, pos) {
        Some(e) => {
            let end = if e > pos && body[e - 1] == 13 {
                e - 1
            } else {
                e
            };
            proof {
                lemma_lines_acc_newline(s, Seq::empty(), e - pos);
                assert(Seq::<u8>::empty() + s.subrange(0, e - pos) =~= body@.subrange(
                    pos as int,
                    e as int,
                ));
                assert(s.subrange(e - pos + 1, s.len() as int) =~= body@.subrange(
                    e + 1,
                    len as int,
                ));
                assert(strip_cr(body@.subrange(pos as int, e as int)) =~= body@.subrange(
                    pos as int,
                    end as int,
                ));
            }
            (end, e + 1)
        },
        None => {
            proof {
                lemma_lines_acc_last(s, Seq::empty());
                assert(Seq::<u8>::empty() + s =~= s);
                assert(body@.subrange(len as int, len as int) =~= Seq::<u8>::empty());
                assert(text_lines(Seq::<u8>::empty()) =~= Seq::<Seq<u8>>::empty());
                assert(seq![s] + Seq::<Seq<u8>>::empty() =~= seq![s]);
            }
            (len, len)
        },
    }
}

/// Reads a commit body: the tree named on its first line, and the parents
/// named on the `parent ` lines that follow it.
pub fn read_commit(body: &[u8]) -> (r: Result<ObjectType, DecodeError>)
    ensures
        commit_view(body@) == match r {
            Ok(o) => Ok(o@),
            Err(e) => Err(e),
        },
{
    let len = body.len();
    let mut parents: Vec<String> = Vec::new();
    if len == 0 {
        assert(text_lines(body@) =~= Seq::<Seq<u8>>::empty());
        assert(strings_view(parents@) =~= decode_all(commit_parents(text_lines(body@))));
        return Ok(ObjectType::Commit { tree: None, parents });
    }
    let ghost lines = text_lines(body@);
    let (first_end, mut pos) = line_at(body, 0);
    assert(body@.subrange(0, len as int) =~= body@);
    assert(lines[0] == body@.subrange(0, first_end as int));
    assert(lines.subrange(1, lines.len() as int) =~= text_lines(
        body@.subrange(pos as int, len as int),
    ));
    let tree_word: Vec<u8> = vec![116u8, 114, 101, 101, 32];
    assert(tree_word@ =~= tree_prefix());
    let mut tree: Option<String> = None;
    if has_prefix_at(body, 0, first_end, tree_word.as_slice()) {
        assert(body@.subrange(5, first_end as int) =~= lines[0].subrange(5, lines[0].len() as int));
        match utf8_text(vstd::slice::slice_subrange(body, 5, first_end)) {
            Some(t) => {
                tree = Some(t);
            },
            None => return Err(DecodeError::NotUtf8),
        }
    }
    let parent_word: Vec<u8> = vec![112u8, 97, 114, 101, 110, 116, 32];
    assert(parent_word@ =~= parent_prefix());
    let ghost mut raw: Seq<Seq<u8>> = Seq::empty();
    let mut done = false;
    while pos < len && !done
        invariant
            len == body@.len(),
            pos <= len,
            parent_word@ == parent_prefix(),
            lines == text_lines(body@),
            lines.len() > 0,
            commit_parents(lines) == raw + parent_run(
                text_lines(body@.subrange(pos as int, len as int)),
            ),
            done ==> parent_run(text_lines(body@.subrange(pos as int, len as int)))
                == Seq::<Seq<u8>>::empty(),
            strings_view(parents@) =~= decode_all(raw),
            forall|i: int| 0 <= i < raw.len() ==> valid_utf8(#[trigger] raw[i]),
        decreases len - pos + if done {
            0int
        } else {
            1int
        },
    {
        let (end, next) = line_at(body, pos);
        let ghost line = body@.subrange(pos as int, end as int);
        let ghost rest = text_lines(body@.subrange(next as int, len as int));
        if !has_prefix_at(body, pos, end, parent_word.as_slice()) {
            done = true;
        } else {
            let ghost hash = line.subrange(7, line.len() as int);
            assert(body@.subrange(pos + 7, end as int) =~= hash);
            assert((seq![line] + rest).subrange(1, rest.len() + 1 as int) =~= rest);
            let ghost before = parents@;
            let ghost raw_before = raw;
            assert(strings_view(before).len() == before.len());
            assert(decode_all(raw_before).len() == raw_before.len());
            assert(before.len() == raw_before.len());
            match utf8_text(vstd::slice::slice_subrange(body, pos + 7, end)) {
                Some(p) => {
                    assert(p@ == decode_utf8(hash));
                    parents.push(p);
                },
                None => {
                    assert(commit_parents(lines) =~= (raw + seq![hash]) + parent_run(rest));
                    assert(commit_parents(lines)[raw.len() as int] == hash);
                    return Err(DecodeError::NotUtf8);
                },
            }
            proof {
                assert(raw + (seq![hash] + parent_run(rest)) =~= raw.push(hash) + parent_run(
                    rest,
                ));
                raw = raw.push(hash);
                assert forall|i: int| 0 <= i < raw.len() implies strings_view(parents@)[i]
                    == decode_utf8(raw[i]) by {
                    if i < raw_before.len() {
                        assert(strings_view(before)[i] == decode_utf8(raw_before[i]));
                        assert(parents@[i] == before[i]);
                    }
                }
                assert(strings_view(parents@) =~= decode_all(raw));
            }
            pos = next;
        }
    }
    if !done {
        assert(body@.subrange(len as int, len as int) =~= Seq::<u8>::empty());
        assert(text_lines(Seq::<u8>::empty()) =~= Seq::<Seq<u8>>::empty());
    }
    assert(raw + Seq::<Seq<u8>>::empty() =~= raw);
    Ok(ObjectType::Commit { tree, parents })
}

} // verus!

verus! {

pub open spec fn commit_tag() -> Seq<u8> {
    seq![99u8, 111, 109, 109, 105, 116]
}

pub open spec fn tree_tag() -> Seq<u8> {
    seq![116u8, 114, 101, 101]
}

pub open spec fn blob_tag() -> Seq<u8> {
    seq![98u8, 108, 111, 98]
}

/// An inflated object `<type> <size>\0<body>`, decoded: its view and size.
/// The type ends at the first space and the size at the first NUL after it;
/// the body is the `size` bytes after that NUL.
pub open spec fn decoded(data: Seq<u8>) -> Result<(ObjectView, nat), DecodeError> {
    match first_from(data, 32, 0) {
        None => Ok((ObjectView::Unknown, 0)),
        Some(sp) => {
            let tag = data.subrange(0, sp);
            let nul = first_from(data, 0, sp + 1);
            let size = match nul {
                Some(z) => size_field(data.subrange(sp + 1, z)),
                None => 0,
            };
            if tag == blob_tag() {
                Ok((ObjectView::Blob, size))
            } else if tag == commit_tag() || tag == tree_tag() {
                match nul {
                    None => Err(DecodeError::MissingHeaderTerminator),
                    Some(z) => if z + 1 + size > data.len() {
                        Err(DecodeError::BodyTruncated)
                    } else {
                        let body = data.subrange(z + 1, z + 1 + size);
                        let view = if tag == commit_tag() {
                            commit_view(body)
                        } else {
                            match tree_entries(body) {
                                Ok(e) => Ok(ObjectView::Tree { entries: e }),
                                Err(e) => Err(e),
                            }
                        };
                        match view {
                            Ok(v) => Ok((v, size)),
                            Err(e) => Err(e),
                        }
                    },
                }
            } else {
                Ok((ObjectView::Unknown, 0))
            }
        },
    }
}

pub open spec fn header_result(r: Result<ObjectHeader, DecodeError>) -> Result<
    (ObjectView, nat),
    DecodeError,
> {
    match r {
        Ok(h) => Ok((h.object_type@, h.size as nat)),
        Err(e) => Err(e),
    }
}

/// Decodes an inflated object.
pub fn read_object_header(data: &[u8]) -> (r: Result<ObjectHeader, DecodeError>)
    ensures
        header_result(r) == decoded(data@),
{
    let len = data.len();
    let sp = match find_byte(32, data) {
        Some(i) => i,
        None => {
            proof {
                lemma_first_from(data@, 32, 0, None);
            }
            return Ok(ObjectHeader { object_type: ObjectType::Unknown, size: 0 });
        },
    };
    proof {
        lemma_first_from(data@, 32, 0, Some(sp as int));
    }
    let nul = find_byte_from(0, data, sp + 1);
    let size = match nul {
        Some(z) => parse_size(data, sp + 1, z),
        None => 0,
    };
    let blob_word: Vec<u8> = vec![98u8, 108, 111, 98];
    let commit_word: Vec<u8> = vec![99u8, 111, 109, 109, 105, 116];
    let tree_word: Vec<u8> = vec![116u8, 114, 101, 101];
    assert(blob_word@ =~= blob_tag());
    assert(commit_word@ =~= commit_tag());
    assert(tree_word@ =~= tree_tag());
    if bytes_equal_at(data, 0, sp, blob_word.as_slice()) {
        return Ok(ObjectHeader { object_type: ObjectType::Blob, size });
    }
    let is_commit = bytes_equal_at(data, 0, sp, commit_word.as_slice());
    if !is_commit && !bytes_equal_at(data, 0, sp, tree_word.as_slice()) {
        return Ok(ObjectHeader { object_type: ObjectType::Unknown, size: 0 });
    }
    let z = match nul {
        Some(z) => z,
        None => return Err(DecodeError::MissingHeaderTerminator),
    };
    if len - z - 1 < size {
        return Err(DecodeError::BodyTruncated);
    }
    let body = vstd::slice::slice_subrange(data, z + 1, z + 1 + size);
    let object_type = if is_commit {
        match read_commit(body) {
            Ok(o) => o,
            Err(e) => return Err(e),
        }
    } else {
        match read_tree(body) {
            Ok(entries) => ObjectType::Tree { entries },
            Err(e) => return Err(e),
        }
    };
    Ok(ObjectHeader { object_type, size })
}

/// What a zlib stream inflates to.
pub uninterp spec fn zlib_inflated(compressed: Seq<u8>) -> Seq<u8>;

/// Whether a zlib stream inflates without error.
pub uninterp spec fn zlib_inflates(compressed: Seq<u8>) -> bool;

/// Relies on flate2::read::ZlibDecoder: read to its end, it yields the
/// decompressed bytes of the zlib stream or fails; which of the two, and the
/// bytes, depend on the stream alone.
#[verifier::external_body]
fn inflate(compressed: &[u8]) -> (r: Option<Vec<u8>>)
    ensures
        r is Some <==> zlib_inflates(compressed@),
        r matches Some(v) ==> v@ == zlib_inflated(compressed@),
{
    let mut decoder = flate2::read::ZlibDecoder::new(compressed);
    let mut out = Vec::new();
    match std::io::Read::read_to_end(&mut decoder, &mut out) {
        Ok(_) => Some(out),
        Err(_) => None,
    }
}

pub open spec fn object_result(r: Result<ObjectType, DecodeError>) -> Result<
    ObjectView,
    DecodeError,
> {
    match r {
        Ok(o) => Ok(o@),
        Err(e) => Err(e),
    }
}

pub open spec fn decoded_view(data: Seq<u8>) -> Result<ObjectView, DecodeError> {
    match decoded(data) {
        Ok((v, _)) => Ok(v),
        Err(e) => Err(e),
    }
}

proof fn lemma_tree_entries_not_inflate(body: Seq<u8>)
    ensures
        tree_entries(body) != Err::<Seq<EntryView>, DecodeError>(DecodeError::Inflate),
    decreases body.len(),
{
    if body.len() > 0 {
        if let Ok((v, n)) = entry_spec(body) {
            if 0 < n <= body.len() {
                lemma_tree_entries_not_inflate(body.subrange(n, body.len() as int));
            }
        }
    }
}

/// Decoding fails in many ways, but never as a failure to inflate.
proof fn lemma_decoded_not_inflate(data: Seq<u8>)
    ensures
        decoded_view(data) != Err::<ObjectView, DecodeError>(DecodeError::Inflate),
{
    if let Some(sp) = first_from(data, 32, 0) {
        if let Some(z) = first_from(data, 0, sp + 1) {
            let size = size_field(data.subrange(sp + 1, z));
            if z + 1 + size <= data.len() {
                lemma_tree_entries_not_inflate(data.subrange(z + 1, z + 1 + size));
            }
        }
    }
}

/// Inflates and decodes the contents of a loose object's file: the
/// `Inflate` error exactly when the stream does not inflate, and otherwise
/// the result of decoding what it inflates to.
pub fn read_loose_object(compressed: &[u8]) -> (r: Result<ObjectType, DecodeError>)
    ensures
        r == Err::<ObjectType, DecodeError>(DecodeError::Inflate) <==> !zlib_inflates(
            compressed@,
        ),
        zlib_inflates(compressed@) ==> object_result(r) == decoded_view(
            zlib_inflated(compressed@),
        ),
{
    let data = match inflate(compressed) {
        Some(d) => d,
        None => return Err(DecodeError::Inflate),
    };
    proof {
        lemma_decoded_not_inflate(data@);
    }
    match read_object_header(data.as_slice()) {
        Ok(h) => Ok(h.object_type),
        Err(e) => Err(e),
    }
}

pub open spec fn hashes_of(entries: Seq<EntryView>) -> Seq<Seq<char>> {
    entries.map_values(|e: EntryView| e.hash)
}

/// The hashes that an object refers to: a commit's tree and then its
/// parents, a tree's entries in order, nothing for a blob. An object of an
/// unknown type has none to give.
pub open spec fn references_of(v: ObjectView) -> Option<Seq<Seq<char>>> {
    match v {
        ObjectView::Unknown => None,
        ObjectView::Commit { tree, parents } => Some(
            match tree {
                Some(t) => seq![t] + parents,
                None => parents,
            },
        ),
        ObjectView::Tree { entries } => Some(hashes_of(entries)),
        ObjectView::Blob => Some(Seq::empty()),
    }
}

pub open spec fn references_result(r: Result<Vec<String>, DecodeError>) -> Result<
    Seq<Seq<char>>,
    DecodeError,
> {
    match r {
        Ok(v) => Ok(strings_view(v@)),
        Err(e) => Err(e),
    }
}

/// The hashes that a decoded object refers to.
pub fn collect_references(object: &ObjectType) -> (r: Result<Vec<String>, DecodeError>)
    ensures
        references_result(r) == match references_of(object@) {
            Some(refs) => Ok(refs),
            None => Err(DecodeError::UnknownType),
        },
{
    let mut found: Vec<String> = Vec::new();
    match object {
        ObjectType::Unknown => {
            return Err(DecodeError::UnknownType);
        },
        ObjectType::Commit { tree, parents } => {
            let ghost head: Seq<Seq<char>> = match tree {
                Some(t) => seq![t@],
                None => Seq::empty(),
            };
            if let Some(t) = tree {
                found.push(t.clone());
            }
            assert(strings_view(found@) =~= head);
            let mut i: usize = 0;
            while i < parents.len()
                invariant
                    i <= parents@.len(),
                    strings_view(found@) =~= head + strings_view(parents@).subrange(0, i as int),
                decreases parents@.len() - i,
            {
                let ghost before = found@;
                found.push(parents[i].clone());
                assert(strings_view(found@) =~= strings_view(before).push(parents@[i as int]@));
                assert(strings_view(found@) =~= head + strings_view(parents@).subrange(
                    0,
                    i + 1,
                ));
                i = i + 1;
            }
            assert(strings_view(parents@).subrange(0, i as int) =~= strings_view(parents@));
            assert(head + strings_view(parents@) =~= references_of(object@)->0);
        },
        ObjectType::Tree { entries } => {
            let mut i: usize = 0;
            while i < entries.len()
                invariant
                    i <= entries@.len(),
                    strings_view(found@) =~= hashes_of(entries_view(entries@)).subrange(0, i as int),
                decreases entries@.len() - i,
            {
                let ghost before = found@;
                found.push(entries[i].hash.clone());
                assert(strings_view(found@) =~= strings_view(before).push(entries@[i as int].hash@));
                assert(strings_view(found@) =~= hashes_of(entries_view(entries@)).subrange(
                    0,
                    i + 1,
                ));
                i = i + 1;
            }
            assert(hashes_of(entries_view(entries@)).subrange(0, i as int) =~= hashes_of(
                entries_view(entries@),
            ));
        },
        ObjectType::Blob => {
            assert(strings_view(found@) =~= Seq::<Seq<char>>::empty());
        },
    }
    Ok(found)
}

/// The hashes that the loose object in `compressed` refers to: the
/// `Inflate` error exactly when the stream does not inflate, and otherwise
/// the references of what it inflates to.
pub fn collect_references_from_loose_object(compressed: &[u8]) -> (r: Result<
    Vec<String>,
    DecodeError,
>)
    ensures
        r == Err::<Vec<String>, DecodeError>(DecodeError::Inflate) <==> !zlib_inflates(
            compressed@,
        ),
        zlib_inflates(compressed@) ==> references_result(r)
            == match decoded_view(zlib_inflated(compressed@)) {
            Ok(v) => match references_of(v) {
                Some(refs) => Ok(refs),
                None => Err(DecodeError::UnknownType),
            },
            Err(e) => Err(e),
        },
{
    match read_loose_object(compressed) {
        Ok(object) => collect_references(&object),
        Err(e) => Err(e),
    }
}

} // verus!

verus! {

/// Text that fits on one line: no `\n`, and no `\r` that a line ending
/// would take.
pub open spec fn one_line(l: Seq<u8>) -> bool {
    forall|i: int| 0 <= i < l.len() ==> #[trigger] l[i] != 10 && l[i] != 13
}

/// `tree <hash>\n`
pub open spec fn tree_line(hash: Seq<u8>) -> Seq<u8> {
    tree_prefix() + hash + seq![10u8]
}

/// One `parent <hash>\n` line for each hash, in order.
pub open spec fn parent_lines(hashes: Seq<Seq<u8>>) -> Seq<u8>
    decreases hashes.len(),
{
    if hashes.len() == 0 {
        Seq::empty()
    } else {
        parent_prefix() + hashes[0] + seq![10u8] + parent_lines(
            hashes.subrange(1, hashes.len() as int),
        )
    }
}

proof fn lemma_line_then_rest(line: Seq<u8>, rest: Seq<u8>)
    requires
        forall|i: int| 0 <= i < line.len() ==> #[trigger] line[i] != 10,
        line.len() > 0 && line.last() != 13,
    ensures
        text_lines(line + seq![10u8] + rest) == seq![line] + text_lines(rest),
{
    let s = line + seq![10u8] + rest;
    lemma_lines_acc_newline(s, Seq::empty(), line.len() as int);
    assert(Seq::<u8>::empty() + s.subrange(0, line.len() as int) =~= line);
    assert(s.subrange(line.len() + 1 as int, s.len() as int) =~= rest);
}

proof fn lemma_first_line_is_prefix(s: Seq<u8>)
    requires
        s.len() > 0,
    ensures
        text_lines(s).len() > 0,
        exists|k: int| 0 <= k <= s.len() && text_lines(s)[0] == s.subrange(0, k),
{
    match first_from(s, 10, 0) {
        Some(e) => {
            lemma_first_from_facts(s, 10, 0);
            lemma_lines_acc_newline(s, Seq::empty(), e);
            let l = Seq::<u8>::empty() + s.subrange(0, e);
            assert(l =~= s.subrange(0, e));
            if e > 0 && l.last() == 13 {
                assert(strip_cr(l) =~= s.subrange(0, e - 1));
            }
        },
        None => {
            lemma_first_from_facts(s, 10, 0);
            lemma_lines_acc_last(s, Seq::empty());
            assert(Seq::<u8>::empty() + s =~= s);
            assert(s.subrange(0, s.len() as int) =~= s);
        },
    }
}

proof fn lemma_parent_lines(hashes: Seq<Seq<u8>>, rest: Seq<u8>)
    requires
        forall|i: int| 0 <= i < hashes.len() ==> one_line(#[trigger] hashes[i]),
        !has_prefix(rest, parent_prefix()),
    ensures
        parent_run(text_lines(parent_lines(hashes) + rest)) == hashes,
    decreases hashes.len(),
{
    if hashes.len() == 0 {
        assert(parent_lines(hashes) + rest =~= rest);
        if rest.len() > 0 {
            lemma_first_line_is_prefix(rest);
            let k = choose|k: int| 0 <= k <= rest.len() && text_lines(rest)[0] == rest.subrange(0, k);
            if has_prefix(text_lines(rest)[0], parent_prefix()) {
                assert(rest.subrange(0, 7) =~= rest.subrange(0, k).subrange(0, 7));
            }
        } else {
            assert(text_lines(rest) =~= Seq::<Seq<u8>>::empty());
        }
        assert(hashes =~= Seq::<Seq<u8>>::empty());
    } else {
        let tail = hashes.subrange(1, hashes.len() as int);
        lemma_parent_lines(tail, rest);
        let line = parent_prefix() + hashes[0];
        assert(one_line(hashes[0]));
        assert forall|i: int| 0 <= i < line.len() implies #[trigger] line[i] != 10 by {
            if i >= 7 {
                assert(line[i] == hashes[0][i - 7]);
            }
        }
        assert(line.last() != 13) by {
            if hashes[0].len() > 0 {
                assert(line.last() == hashes[0][hashes[0].len() - 1]);
            }
        }
        assert(parent_lines(hashes) + rest =~= line + seq![10u8] + (parent_lines(tail) + rest));
        lemma_line_then_rest(line, parent_lines(tail) + rest);
        let lines = seq![line] + text_lines(parent_lines(tail) + rest);
        assert(line.subrange(0, 7) =~= parent_prefix());
        assert(line.subrange(7, line.len() as int) =~= hashes[0]);
        assert(lines.subrange(1, lines.len() as int) =~= text_lines(parent_lines(tail) + rest));
        assert(seq![hashes[0]] + tail =~= hashes);
    }
}

/// A commit body decodes to the tree and parents it was written with: a
/// `tree` line, one `parent` line per parent in order, then any text that
/// does not begin with another `parent` line.
pub proof fn lemma_commit_round_trip(tree: Seq<u8>, parents: Seq<Seq<u8>>, rest: Seq<u8>)
    requires
        one_line(tree),
        valid_utf8(tree),
        forall|i: int| 0 <= i < parents.len() ==> one_line(#[trigger] parents[i]),
        forall|i: int| 0 <= i < parents.len() ==> valid_utf8(#[trigger] parents[i]),
        !has_prefix(rest, parent_prefix()),
    ensures
        commit_view(tree_line(tree) + parent_lines(parents) + rest) == Ok::<
            ObjectView,
            DecodeError,
        >(ObjectView::Commit { tree: Some(decode_utf8(tree)), parents: decode_all(parents) }),
{
    let line = tree_prefix() + tree;
    let body = tree_line(tree) + parent_lines(parents) + rest;
    assert forall|i: int| 0 <= i < line.len() implies #[trigger] line[i] != 10 by {
        if i >= 5 {
            assert(line[i] == tree[i - 5]);
        }
    }
    assert(line.last() != 13) by {
        if tree.len() > 0 {
            assert(line.last() == tree[tree.len() - 1]);
        }
    }
    assert(body =~= line + seq![10u8] + (parent_lines(parents) + rest));
    lemma_line_then_rest(line, parent_lines(parents) + rest);
    lemma_parent_lines(parents, rest);
    let lines = text_lines(body);
    assert(line.subrange(0, 5) =~= tree_prefix());
    assert(line.subrange(5, line.len() as int) =~= tree);
    assert(lines.subrange(1, lines.len() as int) =~= text_lines(parent_lines(parents) + rest));
    assert(commit_parents(lines) == parents);
}

/// `<mode> <name>\0<hash>`
pub open spec fn entry_bytes(mode: Seq<u8>, name: Seq<u8>, hash: Seq<u8>) -> Seq<u8> {
    mode + seq![32u8] + name + seq![0u8] + hash
}

/// Entries written back to back, each as `(mode, name, raw hash)`.
pub open spec fn tree_bytes(entries: Seq<(Seq<u8>, Seq<u8>, Seq<u8>)>) -> Seq<u8>
    decreases entries.len(),
{
    if entries.len() == 0 {
        Seq::empty()
    } else {
        entry_bytes(entries[0].0, entries[0].1, entries[0].2) + tree_bytes(
            entries.subrange(1, entries.len() as int),
        )
    }
}

/// An entry that a tree can hold: a mode without spaces, a name without NUL
/// bytes, both UTF-8, and a raw hash of twenty bytes.
pub open spec fn entry_fits(e: (Seq<u8>, Seq<u8>, Seq<u8>)) -> bool {
    &&& forall|i: int| 0 <= i < e.0.len() ==> #[trigger] e.0[i] != 32
    &&& forall|i: int| 0 <= i < e.1.len() ==> #[trigger] e.1[i] != 0
    &&& valid_utf8(e.0)
    &&& valid_utf8(e.1)
    &&& e.2.len() == HASH_SIZE
}

pub open spec fn expected_entry(e: (Seq<u8>, Seq<u8>, Seq<u8>)) -> EntryView {
    EntryView { mode: decode_utf8(e.0), name: decode_utf8(e.1), hash: hex_chars(e.2) }
}

/// A tree written from N entries decodes to exactly those N entries, in
/// order, each with its mode, its name and its hash in hexadecimal.
pub proof fn lemma_tree_offsets(entries: Seq<(Seq<u8>, Seq<u8>, Seq<u8>)>)
    requires
        forall|i: int| 0 <= i < entries.len() ==> entry_fits(#[trigger] entries[i]),
    ensures
        tree_entries(tree_bytes(entries)) == Ok::<Seq<EntryView>, DecodeError>(
            entries.map_values(|e: (Seq<u8>, Seq<u8>, Seq<u8>)| expected_entry(e)),
        ),
    decreases entries.len(),
{
    let want = entries.map_values(|e: (Seq<u8>, Seq<u8>, Seq<u8>)| expected_entry(e));
    if entries.len() == 0 {
        assert(want =~= Seq::<EntryView>::empty());
    } else {
        let e = entries[0];
        assert(entry_fits(e));
        let tail = entries.subrange(1, entries.len() as int);
        lemma_tree_offsets(tail);
        let b = tree_bytes(entries);
        let first = entry_bytes(e.0, e.1, e.2);
        let sp = e.0.len() as int;
        let nul = sp + 1 + e.1.len();
        assert(b =~= first + tree_bytes(tail));
        assert(b[sp] == 32);
        assert forall|j: int| 0 <= j < sp implies b[j] != 32 by {
            assert(b[j] == e.0[j]);
        }
        lemma_first_from(b, 32, 0, Some(sp));
        assert(b[nul] == 0);
        assert forall|j: int| sp + 1 <= j < nul implies b[j] != 0 by {
            assert(b[j] == e.1[j - sp - 1]);
        }
        lemma_first_from(b, 0, sp + 1, Some(nul));
        assert(b.subrange(0, sp) =~= e.0);
        assert(b.subrange(sp + 1, nul) =~= e.1);
        assert(b.subrange(nul + 1, nul + 1 + HASH_SIZE) =~= e.2);
        let n = nul + 1 + HASH_SIZE;
        assert(entry_spec(b) == Ok::<(EntryView, int), DecodeError>((expected_entry(e), n)));
        assert(b.subrange(n, b.len() as int) =~= tree_bytes(tail));
        let tail_want = tail.map_values(|e: (Seq<u8>, Seq<u8>, Seq<u8>)| expected_entry(e));
        assert(want =~= seq![expected_entry(e)] + tail_want);
    }
}

} // verus!

verus! {

/// A size field that reads as `n`: digits with no space or NUL in them.
pub open spec fn size_text_of(size_text: Seq<u8>, n: nat) -> bool {
    &&& size_field(size_text) == n
    &&& forall|i: int| 0 <= i < size_text.len() ==> #[trigger] size_text[i] != 32 && size_text[i] != 0
}

/// `<tag> <size>\0<body>`
pub open spec fn object_bytes(tag: Seq<u8>, size_text: Seq<u8>, body: Seq<u8>) -> Seq<u8> {
    tag + seq![32u8] + size_text + seq![0u8] + body
}

proof fn lemma_object_header(tag: Seq<u8>, size_text: Seq<u8>, body: Seq<u8>)
    requires
        forall|i: int| 0 <= i < tag.len() ==> #[trigger] tag[i] != 32,
        size_text_of(size_text, body.len()),
    ensures
        ({
            let data = object_bytes(tag, size_text, body);
            let sp = tag.len() as int;
            let z = sp + 1 + size_text.len();
            &&& first_from(data, 32, 0) == Some(sp)
            &&& first_from(data, 0, sp + 1) == Some(z)
            &&& data.subrange(0, sp) == tag
            &&& data.subrange(sp + 1, z) == size_text
            &&& z + 1 + body.len() == data.len()
            &&& data.subrange(z + 1, z + 1 + body.len()) == body
        }),
{
    let data = object_bytes(tag, size_text, body);
    let sp = tag.len() as int;
    let z = sp + 1 + size_text.len();
    assert(data[sp] == 32);
    assert forall|j: int| 0 <= j < sp implies data[j] != 32 by {
        assert(data[j] == tag[j]);
    }
    lemma_first_from(data, 32, 0, Some(sp));
    assert(data[z] == 0);
    assert forall|j: int| sp + 1 <= j < z implies data[j] != 0 by {
        assert(data[j] == size_text[j - sp - 1]);
    }
    lemma_first_from(data, 0, sp + 1, Some(z));
    assert(data.subrange(0, sp) =~= tag);
    assert(data.subrange(sp + 1, z) =~= size_text);
    assert(data.subrange(z + 1, z + 1 + body.len()) =~= body);
}

/// A whole commit object, `commit <size>\0` and a body written as in
/// `lemma_commit_round_trip`, decodes to that tree and those parents, with
/// the size of the body.
pub proof fn lemma_commit_object_round_trip(
    size_text: Seq<u8>,
    tree: Seq<u8>,
    parents: Seq<Seq<u8>>,
    rest: Seq<u8>,
)
    requires
        size_text_of(size_text, (tree_line(tree) + parent_lines(parents) + rest).len()),
        one_line(tree),
        valid_utf8(tree),
        forall|i: int| 0 <= i < parents.len() ==> one_line(#[trigger] parents[i]),
        forall|i: int| 0 <= i < parents.len() ==> valid_utf8(#[trigger] parents[i]),
        !has_prefix(rest, parent_prefix()),
    ensures
        decoded(
            object_bytes(commit_tag(), size_text, tree_line(tree) + parent_lines(parents) + rest),
        ) == Ok::<(ObjectView, nat), DecodeError>(
            (
                ObjectView::Commit { tree: Some(decode_utf8(tree)), parents: decode_all(parents) },
                (tree_line(tree) + parent_lines(parents) + rest).len(),
            ),
        ),
{
    let body = tree_line(tree) + parent_lines(parents) + rest;
    lemma_object_header(commit_tag(), size_text, body);
    lemma_commit_round_trip(tree, parents, rest);
    assert(commit_tag() != blob_tag()) by {
        assert(commit_tag().len() != blob_tag().len());
    }
}

/// A whole tree object, `tree <size>\0` and N entries back to back, decodes
/// to exactly those N entries, with the size of the body.
pub proof fn lemma_tree_object_offsets(
    size_text: Seq<u8>,
    entries: Seq<(Seq<u8>, Seq<u8>, Seq<u8>)>,
)
    requires
        size_text_of(size_text, tree_bytes(entries).len()),
        forall|i: int| 0 <= i < entries.len() ==> entry_fits(#[trigger] entries[i]),
    ensures
        decoded(object_bytes(tree_tag(), size_text, tree_bytes(entries))) == Ok::<
            (ObjectView, nat),
            DecodeError,
        >(
            (
                ObjectView::Tree {
                    entries: entries.map_values(
                        |e: (Seq<u8>, Seq<u8>, Seq<u8>)| expected_entry(e),
                    ),
                },
                tree_bytes(entries).len(),
            ),
        ),
{
    let body = tree_bytes(entries);
    lemma_object_header(tree_tag(), size_text, body);
    lemma_tree_offsets(entries);
    assert(tree_tag() != blob_tag()) by {
        assert(tree_tag()[0] != blob_tag()[0]);
    }
    assert(tree_tag() != commit_tag()) by {
        assert(tree_tag().len() != commit_tag().len());
    }
}

} // verus!
