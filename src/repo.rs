//! Where a repository keeps its files, and the text of its references.
//!
//! Paths are strings joined with `/`: a loose object lives at
//! `objects/<first two hex digits>/<the other thirty-eight>`, packs under
//! `objects/pack`, and a reference at its own name under the root.

use vstd::prelude::*;
use vstd::string::{StrSliceExecFns, StringExecFns};

verus! {

/// `a/b`
pub open spec fn join(a: Seq<char>, b: Seq<char>) -> Seq<char> {
    a + seq!['/'] + b
}

pub open spec fn objects_word() -> Seq<char> {
    seq!['o', 'b', 'j', 'e', 'c', 't', 's']
}

pub open spec fn pack_word() -> Seq<char> {
    seq!['p', 'a', 'c', 'k']
}

pub open spec fn refs_prefix() -> Seq<char> {
    seq!['r', 'e', 'f', 's', '/']
}

/// Where a hash is split: after its first two characters, or at its end
/// when it is shorter.
pub open spec fn split_point(hash: Seq<char>) -> int {
    if hash.len() < 2 {
        hash.len() as int
    } else {
        2
    }
}

/// `objects/<hash[0..2]>/<hash[2..]>` under `root`.
pub open spec fn loose_location(root: Seq<char>, hash: Seq<char>) -> Seq<char> {
    join(
        join(join(root, objects_word()), hash.subrange(0, split_point(hash))),
        hash.subrange(split_point(hash), hash.len() as int),
    )
}

/// `objects/pack/<name>` under `root`.
pub open spec fn pack_location(root: Seq<char>, name: Seq<char>) -> Seq<char> {
    join(join(join(root, objects_word()), pack_word()), name)
}

/// Why a reference cannot be written.
#[derive(PartialEq, Eq, Structural, Debug, Clone, Copy)]
pub enum ReferenceError {
    /// The name does not start with `refs/`.
    InvalidName,
}

/// A repository: the directory that holds `objects/` and `refs/`.
pub struct Repository {
    path: String,
}

/// `a/b`, built.
fn join_path(a: &String, b: &str) -> (r: String)
    ensures
        r@ == join(a@, b@),
{
    proof {
        reveal_strlit("/");
    }
    a.clone().concat("/").concat(b)
}

impl Repository {
    /// The root directory that the repository's paths start from.
    pub closed spec fn root(&self) -> Seq<char> {
        self.path@
    }

    pub fn new(path: String) -> (r: Self)
        ensures
            r.root() == path@,
    {
        Self { path }
    }

    /// The root directory.
    pub fn path(&self) -> (r: &String)
        ensures
            r@ == self.root(),
    {
        &self.path
    }

    /// The directory of the repository's pack files: `objects/pack`.
    pub fn pack_directory(&self) -> (r: String)
        ensures
            r@ == join(join(self.root(), objects_word()), pack_word()),
    {
        proof {
            reveal_strlit("objects");
            reveal_strlit("pack");
        }
        let objects = join_path(&self.path, "objects");
        join_path(&objects, "pack")
    }

    /// Where the object `hash` lies if it is loose:
    /// `objects/<hash[0..2]>/<hash[2..]>`.
    pub fn loose_object_path(&self, hash: &str) -> (r: String)
        ensures
            r@ == loose_location(self.root(), hash@),
    {
        proof {
            reveal_strlit("objects");
        }
        let objects = join_path(&self.path, "objects");
        let len = hash.unicode_len();
        let split: usize = if len < 2 {
            len
        } else {
            2
        };
        let directory = join_path(&objects, hash.substring_char(0, split));
        join_path(&directory, hash.substring_char(split, len))
    }

    /// Where the pack file `name` lies.
    pub fn pack_file_path(&self, name: &str) -> (r: String)
        ensures
            r@ == pack_location(self.root(), name@),
    {
        let directory = self.pack_directory();
        join_path(&directory, name)
    }

    /// Where the reference `name` is kept; only names under `refs/` are
    /// references that may be written.
    pub fn reference_path(&self, name: &str) -> (r: Result<String, ReferenceError>)
        ensures
            r matches Ok(p) ==> p@ == join(self.root(), name@),
            r is Ok <==> refs_prefix().is_prefix_of(name@),
            r is Err ==> r == Err::<String, ReferenceError>(ReferenceError::InvalidName),
    {
        if !starts_with_refs(name) {
            return Err(ReferenceError::InvalidName);
        }
        Ok(join_path(&self.path, name))
    }
}

fn starts_with_refs(name: &str) -> (r: bool)
    ensures
        r == refs_prefix().is_prefix_of(name@),
{
    let len = name.unicode_len();
    if len < 5 {
        return false;
    }
    proof {
        reveal_strlit("refs/");
    }
    let head = name.substring_char(0, 5);
    let word = "refs/";
    assert(word@ =~= refs_prefix());
    let same = head.to_owned() == word.to_owned();
    assert(same == (name@.subrange(0, 5) == refs_prefix()));
    same
}

/// The characters that `char::is_whitespace` accepts: Unicode's White_Space.
pub open spec fn is_white_space(c: char) -> bool {
    let v = c as u32;
    (9 <= v <= 13) || v == 32 || v == 0x85 || v == 0xA0 || v == 0x1680 || (0x2000 <= v <= 0x200A)
        || v == 0x2028 || v == 0x2029 || v == 0x202F || v == 0x205F || v == 0x3000
}

fn white_space(c: char) -> (r: bool)
    ensures
        r == is_white_space(c),
{
    let v = c as u32;
    (9 <= v && v <= 13) || v == 32 || v == 0x85 || v == 0xA0 || v == 0x1680 || (0x2000 <= v && v
        <= 0x200A) || v == 0x2028 || v == 0x2029 || v == 0x202F || v == 0x205F || v == 0x3000
}

/// The length of `s` up to its first `\n`.
pub open spec fn first_line_len(s: Seq<char>) -> int
    decreases s.len(),
{
    if s.len() == 0 {
        0
    } else if s[0] == '\n' {
        0
    } else {
        1 + first_line_len(s.subrange(1, s.len() as int))
    }
}

/// `s` without the white space at its end.
pub open spec fn trim_end(s: Seq<char>) -> Seq<char>
    decreases s.len(),
{
    if s.len() > 0 && is_white_space(s.last()) {
        trim_end(s.drop_last())
    } else {
        s
    }
}

/// What a reference file says: its first line, white space trimmed from its
/// end.
pub open spec fn reference_text(contents: Seq<char>) -> Seq<char> {
    trim_end(contents.subrange(0, first_line_len(contents)))
}

proof fn lemma_first_line_len(s: Seq<char>, k: int)
    requires
        0 <= k <= s.len(),
        forall|j: int| 0 <= j < k ==> s[j] != '\n',
        k == s.len() || s[k] == '\n',
    ensures
        first_line_len(s) == k,
    decreases s.len(),
{
    if s.len() > 0 && s[0] != '\n' {
        lemma_first_line_len(s.subrange(1, s.len() as int), k - 1);
    }
}

proof fn lemma_trim_end(s: Seq<char>, k: int)
    requires
        0 <= k <= s.len(),
        forall|j: int| k <= j < s.len() ==> is_white_space(#[trigger] s[j]),
        k == 0 || !is_white_space(s[k - 1]),
    ensures
        trim_end(s) == s.subrange(0, k),
    decreases s.len(),
{
    if s.len() > k {
        lemma_trim_end(s.drop_last(), k);
        assert(s.drop_last().subrange(0, k) =~= s.subrange(0, k));
    } else {
        assert(s.subrange(0, k) =~= s);
    }
}

/// The hash or `ref: <name>` that a reference file holds.
pub fn reference_value(contents: &str) -> (r: String)
    ensures
        r@ == reference_text(contents@),
{
    let len = contents.unicode_len();
    let mut end: usize = 0;
    while end < len && contents.get_char(end) != '\n'
        invariant
            len == contents@.len(),
            end <= len,
            forall|j: int| 0 <= j < end ==> contents@[j] != '\n',
        decreases len - end,
    {
        end = end + 1;
    }
    proof {
        lemma_first_line_len(contents@, end as int);
    }
    let ghost line = contents@.subrange(0, end as int);
    let mut keep = end;
    while keep > 0 && white_space(contents.get_char(keep - 1))
        invariant
            keep <= end <= len,
            len == contents@.len(),
            line == contents@.subrange(0, end as int),
            forall|j: int| keep <= j < end ==> is_white_space(#[trigger] line[j]),
        decreases keep,
    {
        keep = keep - 1;
    }
    proof {
        lemma_trim_end(line, keep as int);
        assert(line.subrange(0, keep as int) =~= contents@.subrange(0, keep as int));
    }
    contents.substring_char(0, keep).to_owned()
}

/// A reference written as one line without trailing white space reads back
/// unchanged.
pub proof fn lemma_reference_round_trip(contents: Seq<char>)
    requires
        forall|j: int| 0 <= j < contents.len() ==> contents[j] != '\n',
        contents.len() == 0 || !is_white_space(contents.last()),
    ensures
        reference_text(contents) == contents,
{
    lemma_first_line_len(contents, contents.len() as int);
    assert(contents.subrange(0, contents.len() as int) =~= contents);
    lemma_trim_end(contents, contents.len() as int);
}

} // verus!
