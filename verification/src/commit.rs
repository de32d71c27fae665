//! Commit objects: writing their text, reading their headers, and walking
//! history from a commit to its ancestors.

use crate::object::{encode_object, lemma_loose_object_roundtrip, loose_object, object_frame, LooseObject};
use crate::digest::sha1_digest;
use crate::hexenc::hex_text;
use crate::text::{
    chars_of, from_utf8_lossy, join_line_vecs, join_lines, lines_of, lossy_text, push_chars,
    starts_with, starts_with_at, string_of, text_lines, lines_text, plain_line, no_newline,
    no_cr_line_end, lemma_lines_prefix, lemma_join_lines_of,
};
use crate::zlib::{zlib_compress, zlib_decompress};
use std::collections::VecDeque;
use vstd::prelude::*;
use vstd::utf8::*;

verus! {

broadcast use vstd::string::group_string_axioms;

/// The decimal digits of `n` as text.
pub open spec fn dec_text(n: nat) -> Seq<char>
    decreases n,
{
    if n < 10 {
        seq![(48 + n) as char]
    } else {
        dec_text(n / 10) + seq![(48 + n % 10) as char]
    }
}

/// Appends the decimal digits of `n`.
pub fn push_dec_text(out: &mut Vec<char>, n: u64)
    ensures
        final(out)@ == old(out)@ + dec_text(n as nat),
    decreases n,
{
    if n >= 10 {
        push_dec_text(out, n / 10);
    }
    let d = (n % 10) as u32;
    let c = match d {
        0 => '0',
        1 => '1',
        2 => '2',
        3 => '3',
        4 => '4',
        5 => '5',
        6 => '6',
        7 => '7',
        8 => '8',
        _ => '9',
    };
    assert(c == (48 + n % 10) as char);
    out.push(c);
    assert(final(out)@ =~= old(out)@ + dec_text(n as nat));
}

/// The author and committer line value: fixed identity, the time in
/// seconds and a zero offset.
pub open spec fn author_text(ts: nat) -> Seq<char> {
    "Yasir <yasir@example.com> "@ + dec_text(ts) + " +0000"@
}

/// The text of a commit: its tree, its parent if any, author and committer
/// lines, a blank line and the message with a final newline.
pub open spec fn commit_text(tree: Seq<char>, parent: Option<Seq<char>>, message: Seq<char>, ts: nat) -> Seq<char> {
    let a = author_text(ts);
    "tree "@ + tree + "\n"@ + (match parent {
        Some(p) => "parent "@ + p + "\n"@,
        None => Seq::empty(),
    }) + "author "@ + a + "\n"@ + "committer "@ + a + "\n"@ + "\n"@ + message + "\n"@
}

/// Builds the text of a commit made at `timestamp` (seconds since the epoch).
pub fn commit_message_text(tree_sha: &str, parent: Option<&str>, message: &str, timestamp: u64) -> (r: String)
    ensures
        r@ == commit_text(tree_sha@, match parent {
            Some(p) => Some(p@),
            None => None,
        }, message@, timestamp as nat),
{
    let mut author: Vec<char> = chars_of("Yasir <yasir@example.com> ");
    push_dec_text(&mut author, timestamp);
    push_chars(&mut author, chars_of(" +0000").as_slice());
    assert(author@ =~= author_text(timestamp as nat));
    let mut out: Vec<char> = chars_of("tree ");
    push_chars(&mut out, chars_of(tree_sha).as_slice());
    push_chars(&mut out, chars_of("\n").as_slice());
    let ghost head = out@;
    match parent {
        Some(p) => {
            push_chars(&mut out, chars_of("parent ").as_slice());
            push_chars(&mut out, chars_of(p).as_slice());
            push_chars(&mut out, chars_of("\n").as_slice());
        },
        None => {},
    }
    push_chars(&mut out, chars_of("author ").as_slice());
    push_chars(&mut out, author.as_slice());
    push_chars(&mut out, chars_of("\n").as_slice());
    push_chars(&mut out, chars_of("committer ").as_slice());
    push_chars(&mut out, author.as_slice());
    push_chars(&mut out, chars_of("\n").as_slice());
    push_chars(&mut out, chars_of("\n").as_slice());
    push_chars(&mut out, chars_of(message).as_slice());
    push_chars(&mut out, chars_of("\n").as_slice());
    let ghost pv = match parent {
        Some(p) => Some(p@),
        None => None,
    };
    assert(out@ =~= commit_text(tree_sha@, pv, message@, timestamp as nat));
    string_of(out.as_slice())
}

/// The parent that `commit-tree` records: the given one when it has 40
/// bytes, else none.
pub open spec fn kept_parent(parent: Option<Seq<char>>) -> Option<Seq<char>> {
    match parent {
        Some(p) => if encode_utf8(p).len() == 40 {
            Some(p)
        } else {
            None
        },
        None => None,
    }
}

/// The commit object for `tree_sha`, with `parent_sha` recorded only when
/// it has 40 bytes, made at `timestamp`, ready to be stored; its `sha` is
/// what `commit-tree` prints, and its file reads back as the commit.
pub fn commit_tree(tree_sha: &str, parent_sha: Option<&str>, message: &str, timestamp: u64) -> (r: LooseObject)
    ensures
        r.id@ == sha1_digest(object_frame("commit"@, encode_utf8(commit_text(tree_sha@, kept_parent(match parent_sha {
            Some(p) => Some(p@),
            None => None,
        }), message@, timestamp as nat)))),
        r.sha@ == hex_text(r.id@),
        r.compressed@ == zlib_compress(object_frame("commit"@, encode_utf8(commit_text(tree_sha@, kept_parent(match parent_sha {
            Some(p) => Some(p@),
            None => None,
        }), message@, timestamp as nat)))),
        zlib_decompress(r.compressed@) == Some(object_frame("commit"@, encode_utf8(commit_text(tree_sha@, kept_parent(match parent_sha {
            Some(p) => Some(p@),
            None => None,
        }), message@, timestamp as nat)))),
        loose_object(r.compressed@) == Some(("commit"@, encode_utf8(commit_text(tree_sha@, kept_parent(match parent_sha {
            Some(p) => Some(p@),
            None => None,
        }), message@, timestamp as nat)))),
{
    let kept = match parent_sha {
        Some(p) => if p.as_bytes().len() == 40 {
            Some(p)
        } else {
            None
        },
        None => None,
    };
    let text = commit_message_text(tree_sha, kept, message, timestamp);
    let r = encode_object("commit", text.as_str().as_bytes());
    proof {
        lemma_commit_reads(r.compressed@, encode_utf8(text@));
    }
    r
}

/// A file that decompresses to a framed commit reads back as that commit.
proof fn lemma_commit_reads(file: Seq<u8>, data: Seq<u8>)
    requires
        zlib_decompress(file) == Some(object_frame("commit"@, data)),
    ensures
        loose_object(file) == Some(("commit"@, data)),
{
    reveal_strlit("commit");
    assert("commit"@ =~= seq!['c', 'o', 'm', 'm', 'i', 't']);
    lemma_loose_object_roundtrip("commit"@, data, file);
}

/// The commit object for `tree_sha` on top of `parent` (recorded as given),
/// as `commit` writes it.
pub fn commit_object(tree_sha: &str, parent: Option<&str>, message: &str, timestamp: u64) -> (r: LooseObject)
    ensures
        r.id@ == sha1_digest(object_frame("commit"@, encode_utf8(commit_text(tree_sha@, match parent {
            Some(p) => Some(p@),
            None => None,
        }, message@, timestamp as nat)))),
        r.sha@ == hex_text(r.id@),
        r.compressed@ == zlib_compress(object_frame("commit"@, encode_utf8(commit_text(tree_sha@, match parent {
            Some(p) => Some(p@),
            None => None,
        }, message@, timestamp as nat)))),
        zlib_decompress(r.compressed@) == Some(object_frame("commit"@, encode_utf8(commit_text(tree_sha@, match parent {
            Some(p) => Some(p@),
            None => None,
        }, message@, timestamp as nat)))),
        loose_object(r.compressed@) == Some(("commit"@, encode_utf8(commit_text(tree_sha@, match parent {
            Some(p) => Some(p@),
            None => None,
        }, message@, timestamp as nat)))),
{
    let text = commit_message_text(tree_sha, parent, message, timestamp);
    let r = encode_object("commit", text.as_str().as_bytes());
    proof {
        lemma_commit_reads(r.compressed@, encode_utf8(text@));
    }
    r
}

/// `commit` has nothing to record: with a parent, when the parent's tree is
/// the tree just written; without one, when nothing is staged.
pub fn nothing_to_commit(has_parent: bool, parent_tree: Option<&str>, tree_sha: &str, index_empty: bool) -> (r: bool)
    ensures
        r == (if has_parent {
            parent_tree matches Some(t) && t@ == tree_sha@
        } else {
            index_empty
        }),
{
    if has_parent {
        match parent_tree {
            Some(t) => crate::text::chars_eq(chars_of(t).as_slice(), chars_of(tree_sha).as_slice()),
            None => false,
        }
    } else {
        index_empty
    }
}

/// The fields that the header lines of a commit give: parents in order,
/// and the last `tree` and `author` values.
pub struct CommitFields {
    pub parents: Seq<Seq<char>>,
    pub author: Seq<char>,
    pub message: Seq<char>,
    pub tree: Seq<char>,
}

/// Reads the header lines of a commit from line `i` on: a `tree `, `parent `
/// or `author ` line sets that field; the first empty line ends the header
/// and the lines after it, joined with newlines, are the message.
pub open spec fn commit_fields_from(lines: Seq<Seq<char>>, i: int, acc: CommitFields) -> CommitFields
    decreases lines.len() - i,
{
    if i < 0 || i >= lines.len() {
        acc
    } else {
        let l = lines[i];
        if l.len() == 0 {
            CommitFields { message: join_lines(lines.skip(i + 1)), ..acc }
        } else if starts_with(l, "tree "@) {
            commit_fields_from(lines, i + 1, CommitFields { tree: l.skip(5), ..acc })
        } else if starts_with(l, "parent "@) {
            commit_fields_from(lines, i + 1, CommitFields { parents: acc.parents.push(l.skip(7)), ..acc })
        } else if starts_with(l, "author "@) {
            commit_fields_from(lines, i + 1, CommitFields { author: l.skip(7), ..acc })
        } else {
            commit_fields_from(lines, i + 1, acc)
        }
    }
}

/// The fields of commit data.
pub open spec fn commit_fields(data: Seq<u8>) -> CommitFields {
    commit_fields_from(
        text_lines(lossy_text(data)),
        0,
        CommitFields { parents: Seq::empty(), author: Seq::empty(), message: Seq::empty(), tree: Seq::empty() },
    )
}

/// A commit as `log` reads it.
pub struct Commit {
    pub sha: String,
    pub parents: Vec<String>,
    pub author: String,
    pub message: String,
    pub tree: String,
}

/// The text values of strings.
pub open spec fn strings_view(v: Seq<String>) -> Seq<Seq<char>> {
    v.map_values(|s: String| s@)
}

/// Reads the header fields of commit data.
pub fn parse_commit(sha: String, data: &[u8]) -> (r: Commit)
    ensures
        r.sha@ == sha@,
        strings_view(r.parents@) == commit_fields(data@).parents,
        r.author@ == commit_fields(data@).author,
        r.message@ == commit_fields(data@).message,
        r.tree@ == commit_fields(data@).tree,
{
    proof {
        reveal_strlit("tree ");
        reveal_strlit("parent ");
        reveal_strlit("author ");
    }
    let content = from_utf8_lossy(data);
    let cs = chars_of(content.as_str());
    let lines = lines_of(cs.as_slice());
    let ghost lv = lines@.map_values(|l: Vec<char>| l@);
    let tree_p = chars_of("tree ");
    let parent_p = chars_of("parent ");
    let author_p = chars_of("author ");
    let mut parents: Vec<String> = Vec::new();
    let mut author: Vec<char> = Vec::new();
    let mut tree: Vec<char> = Vec::new();
    let mut message: Vec<char> = Vec::new();
    let ghost start = CommitFields {
        parents: Seq::empty(),
        author: Seq::empty(),
        message: Seq::empty(),
        tree: Seq::empty(),
    };
    assert(strings_view(parents@) =~= Seq::<Seq<char>>::empty());
    let mut i: usize = 0;
    while i < lines.len()
        invariant_except_break
            message@ == Seq::<char>::empty(),
            commit_fields_from(lv, 0, start) == commit_fields_from(lv, i as int, (CommitFields {
                parents: strings_view(parents@),
                author: author@,
                message: Seq::empty(),
                tree: tree@,
            })),
        invariant
            i <= lines@.len(),
            lv == lines@.map_values(|l: Vec<char>| l@),
            lv == text_lines(lossy_text(data@)),
            tree_p@ == "tree "@,
            parent_p@ == "parent "@,
            author_p@ == "author "@,
            "tree "@.len() == 5,
            "parent "@.len() == 7,
            "author "@.len() == 7,
        ensures
            commit_fields_from(lv, 0, start) == (CommitFields {
                parents: strings_view(parents@),
                author: author@,
                message: message@,
                tree: tree@,
            }),
        decreases lines@.len() - i,
    {
        let l = &lines[i];
        assert(lv[i as int] == l@);
        assert(l@.subrange(0, l@.len() as int) =~= l@);
        if l.len() == 0 {
            let mut rest: Vec<Vec<char>> = Vec::new();
            let mut j = i + 1;
            while j < lines.len()
                invariant
                    i + 1 <= j <= lines@.len(),
                    lv == lines@.map_values(|l: Vec<char>| l@),
                    rest@.map_values(|l: Vec<char>| l@) == lv.subrange(i + 1, j as int),
                decreases lines@.len() - j,
            {
                let mut copy: Vec<char> = Vec::new();
                push_chars(&mut copy, lines[j].as_slice());
                let ghost before = rest@;
                assert(copy@ == lv[j as int]);
                rest.push(copy);
                assert(rest@.map_values(|l: Vec<char>| l@) =~= before.map_values(|l: Vec<char>| l@).push(lv[j as int]));
                assert(rest@.map_values(|l: Vec<char>| l@) =~= lv.subrange(i + 1, j + 1));
                j = j + 1;
            }
            assert(lv.subrange(i + 1, j as int) =~= lv.skip(i + 1));
            message = join_line_vecs(&rest);
            break;
        } else if starts_with_at(l.as_slice(), 0, l.len(), tree_p.as_slice()) {
            let mut t: Vec<char> = Vec::new();
            push_chars(&mut t, &l.as_slice()[5..l.len()]);
            assert(t@ =~= l@.skip(5));
            tree = t;
        } else if starts_with_at(l.as_slice(), 0, l.len(), parent_p.as_slice()) {
            let p = string_of(&l.as_slice()[7..l.len()]);
            assert(p@ =~= l@.skip(7));
            let ghost before = parents@;
            parents.push(p);
            assert(strings_view(parents@) =~= strings_view(before).push(l@.skip(7)));
        } else if starts_with_at(l.as_slice(), 0, l.len(), author_p.as_slice()) {
            let mut a: Vec<char> = Vec::new();
            push_chars(&mut a, &l.as_slice()[7..l.len()]);
            assert(a@ =~= l@.skip(7));
            author = a;
        }
        i = i + 1;
    }
    Commit {
        sha,
        parents,
        author: string_of(author.as_slice()),
        message: string_of(message.as_slice()),
        tree: string_of(tree.as_slice()),
    }
}

/// The tree that commit data names, as `commit` reads a parent: `None`
/// unless the object is a commit with a `tree ` line (the first such line).
pub open spec fn first_tree_line(lines: Seq<Seq<char>>) -> Option<Seq<char>>
    decreases lines.len(),
{
    if lines.len() == 0 {
        None
    } else if starts_with(lines[0], "tree "@) {
        Some(lines[0].skip(5))
    } else {
        first_tree_line(lines.drop_first())
    }
}

/// The tree named by an object read as `obj_type` and `data`: the id on
/// its first `tree ` line, when it is a commit that has one.
pub fn commit_tree_sha(obj_type: &str, data: &[u8]) -> (r: Option<String>)
    ensures
        r is Some <==> (obj_type@ == "commit"@ && first_tree_line(text_lines(lossy_text(data@))) is Some),
        r matches Some(t) ==> t@ == first_tree_line(text_lines(lossy_text(data@))).unwrap(),
{
    proof {
        reveal_strlit("tree ");
    }
    let tc = chars_of(obj_type);
    let commit_c = chars_of("commit");
    if !crate::text::chars_eq(tc.as_slice(), commit_c.as_slice()) {
        return None;
    }
    let content = from_utf8_lossy(data);
    let cs = chars_of(content.as_str());
    let lines = lines_of(cs.as_slice());
    let ghost lv = lines@.map_values(|l: Vec<char>| l@);
    let tree_p = chars_of("tree ");
    let mut i: usize = 0;
    assert(lv.skip(0) =~= lv);
    while i < lines.len()
        invariant
            i <= lines@.len(),
            lv == lines@.map_values(|l: Vec<char>| l@),
            tree_p@ == "tree "@,
            "tree "@.len() == 5,
            lv == text_lines(lossy_text(data@)),
            obj_type@ == "commit"@,
            first_tree_line(lv) == first_tree_line(lv.skip(i as int)),
        decreases lines@.len() - i,
    {
        let l = &lines[i];
        assert(lv[i as int] == l@);
        assert(l@.subrange(0, l@.len() as int) =~= l@);
        assert(lv.skip(i as int)[0] == l@);
        assert(lv.skip(i as int).drop_first() =~= lv.skip(i + 1));
        if starts_with_at(l.as_slice(), 0, l.len(), tree_p.as_slice()) {
            let t = string_of(&l.as_slice()[5..l.len()]);
            assert(t@ =~= l@.skip(5));
            return Some(t);
        }
        i = i + 1;
    }
    assert(lv.skip(i as int) =~= Seq::<Seq<char>>::empty());
    None
}

/// Walks history breadth first from a commit: each visited commit queues
/// its parents, and each commit is given out once.
pub struct RevWalker {
    pending: VecDeque<String>,
    seen: Vec<String>,
}

impl View for RevWalker {
    /// The ids still queued, and the ids already given out.
    type V = (Seq<Seq<char>>, Seq<Seq<char>>);

    closed spec fn view(&self) -> (Seq<Seq<char>>, Seq<Seq<char>>) {
        (self.pending@.map_values(|s: String| s@), self.seen@.map_values(|s: String| s@))
    }
}

/// The position of the first queued id that was not given out yet.
pub open spec fn first_unseen(pending: Seq<Seq<char>>, seen: Seq<Seq<char>>) -> Option<int> {
    if exists|k: int| 0 <= k < pending.len() && !seen.contains(pending[k]) {
        Some(choose|k: int| 0 <= k < pending.len() && !seen.contains(pending[k]) && forall|j: int|
            0 <= j < k ==> seen.contains(#[trigger] pending[j]))
    } else {
        None
    }
}

proof fn lemma_first_unseen_is(pending: Seq<Seq<char>>, seen: Seq<Seq<char>>, k: int)
    requires
        0 <= k < pending.len(),
        !seen.contains(pending[k]),
        forall|j: int| 0 <= j < k ==> seen.contains(#[trigger] pending[j]),
    ensures
        first_unseen(pending, seen) == Some(k),
{
    let w = choose|w: int| 0 <= w < pending.len() && !seen.contains(pending[w]) && forall|j: int|
        0 <= j < w ==> seen.contains(#[trigger] pending[j]);
    if w < k {
        assert(seen.contains(pending[w]));
    } else if w > k {
        assert(seen.contains(pending[k]));
    }
}

/// Whether `id` is among `ids`.
fn has_id(ids: &Vec<String>, id: &String) -> (r: bool)
    ensures
        r == ids@.map_values(|s: String| s@).contains(id@),
{
    let ic = chars_of(id.as_str());
    let ghost v = ids@.map_values(|s: String| s@);
    let mut i: usize = 0;
    while i < ids.len()
        invariant
            i <= ids@.len(),
            v == ids@.map_values(|s: String| s@),
            ic@ == id@,
            forall|j: int| 0 <= j < i ==> v[j] != id@,
        decreases ids@.len() - i,
    {
        let c = chars_of(ids[i].as_str());
        if crate::text::chars_eq(c.as_slice(), ic.as_slice()) {
            assert(v[i as int] == id@);
            return true;
        }
        i = i + 1;
    }
    false
}

impl RevWalker {
    /// A walk that starts at `start_sha`.
    pub fn new(start_sha: String) -> (r: RevWalker)
        ensures
            r@.0 == seq![start_sha@],
            r@.1 == Seq::<Seq<char>>::empty(),
    {
        let mut pending: VecDeque<String> = VecDeque::new();
        pending.push_back(start_sha);
        let r = RevWalker { pending, seen: Vec::new() };
        assert(r@.0 =~= seq![start_sha@]);
        assert(r@.1 =~= Seq::<Seq<char>>::empty());
        r
    }

    /// The next commit to visit: the first queued id not given out yet,
    /// taken off the queue with the ids before it, and recorded as given
    /// out; `None` (the queue emptied) when every queued id was given out.
    pub fn next_pending(&mut self) -> (r: Option<String>)
        ensures
            final(self)@.1 == (match r {
                Some(s) => old(self)@.1.push(s@),
                None => old(self)@.1,
            }),
            match first_unseen(old(self)@.0, old(self)@.1) {
                Some(k) => r matches Some(s) && s@ == old(self)@.0[k] && final(self)@.0 == old(self)@.0.skip(k + 1),
                None => r is None && final(self)@.0 == Seq::<Seq<char>>::empty(),
            },
    {
        let ghost p0 = self@.0;
        let ghost s0 = self@.1;
        let ghost mut k: int = 0;
        assert(p0.skip(0) =~= p0);
        loop
            invariant
                p0 == old(self)@.0,
                s0 == old(self)@.1,
                0 <= k <= p0.len(),
                self@.0 == p0.skip(k),
                self@.1 == s0,
                forall|j: int| 0 <= j < k ==> s0.contains(#[trigger] p0[j]),
            decreases p0.len() - k,
        {
            let ghost before = self.pending@;
            assert(before.map_values(|s: String| s@) == p0.skip(k));
            match self.pending.pop_front() {
                None => {
                    assert(before.len() == 0);
                    assert(k == p0.len());
                    assert(self@.0 =~= Seq::<Seq<char>>::empty());
                    assert(self@.1 == s0);
                    proof {
                        if first_unseen(p0, s0) is Some {
                            let w = choose|w: int| 0 <= w < p0.len() && !s0.contains(p0[w]);
                            assert(s0.contains(p0[w]));
                        }
                    }
                    return None;
                },
                Some(sha) => {
                    assert(sha == before[0]);
                    assert(p0.skip(k)[0] == before[0]@);
                    assert(sha@ == p0[k]);
                    assert(self.pending@ =~= before.drop_first());
                    assert(p0.skip(k + 1) =~= p0.skip(k).drop_first());
                    assert(self@.0 =~= before.map_values(|s: String| s@).drop_first());
                    assert(self@.0 =~= p0.skip(k + 1));
                    if !has_id(&self.seen, &sha) {
                        proof {
                            lemma_first_unseen_is(p0, s0, k);
                        }
                        let c = sha.clone();
                        self.seen.push(c);
                        assert(self@.1 =~= s0.push(sha@));
                        return Some(sha);
                    }
                    proof {
                        k = k + 1;
                    }
                },
            }
        }
    }

    /// Visits the object `sha` read as `obj_type` and `data`: a commit is
    /// read and its parents queued; any other object ends the walk (`None`).
    pub fn visit(&mut self, sha: String, obj_type: &str, data: &[u8]) -> (r: Option<Commit>)
        ensures
            obj_type@ != "commit"@ ==> r is None && final(self)@ == old(self)@,
            final(self)@.1 == old(self)@.1,
            obj_type@ == "commit"@ ==> (r matches Some(c) && c.sha@ == sha@ && strings_view(c.parents@)
                == commit_fields(data@).parents && c.author@ == commit_fields(data@).author
                && c.message@ == commit_fields(data@).message && c.tree@ == commit_fields(data@).tree
                && final(self)@.0 == old(self)@.0 + commit_fields(data@).parents),
    {
        let tc = chars_of(obj_type);
        let commit_c = chars_of("commit");
        if !crate::text::chars_eq(tc.as_slice(), commit_c.as_slice()) {
            return None;
        }
        let c = parse_commit(sha, data);
        let ghost start = self@;
        let mut i: usize = 0;
        while i < c.parents.len()
            invariant
                i <= c.parents@.len(),
                self@.0 == start.0 + strings_view(c.parents@).take(i as int),
                self@.1 == start.1,
            decreases c.parents@.len() - i,
        {
            let p = c.parents[i].clone();
            let ghost before = self.pending@;
            self.pending.push_back(p);
            assert(self.pending@ == before.push(p));
            assert(self@.0 =~= before.map_values(|s: String| s@).push(p@));
            assert(strings_view(c.parents@)[i as int] == p@);
            assert(strings_view(c.parents@).take(i + 1) =~= strings_view(c.parents@).take(i as int).push(p@));
            assert(self@.0 =~= start.0 + strings_view(c.parents@).take(i + 1));
            i = i + 1;
        }
        assert(strings_view(c.parents@).take(i as int) =~= strings_view(c.parents@));
        Some(c)
    }
}

/// The decimal digits of a number are digits, at least one.
pub proof fn lemma_dec_text_digits(n: nat)
    ensures
        forall|i: int| 0 <= i < dec_text(n).len() ==> '0' <= #[trigger] dec_text(n)[i] <= '9',
        dec_text(n).len() >= 1,
    decreases n,
{
    if n >= 10 {
        lemma_dec_text_digits(n / 10);
        let d = dec_text(n);
        assert forall|i: int| 0 <= i < d.len() implies '0' <= #[trigger] d[i] <= '9' by {
            if i < dec_text(n / 10).len() {
                assert(d[i] == dec_text(n / 10)[i]);
            }
        }
    }
}

/// The header lines of a commit's text: tree, parent if any, author,
/// committer, and the empty line before the message.
pub open spec fn commit_header_lines(tree: Seq<char>, parent: Option<Seq<char>>, ts: nat) -> Seq<Seq<char>> {
    let a = author_text(ts);
    seq!["tree "@ + tree] + (match parent {
        Some(p) => seq!["parent "@ + p],
        None => Seq::empty(),
    }) + seq!["author "@ + a, "committer "@ + a, Seq::empty()]
}

proof fn lemma_prefixed_plain(pre: Seq<char>, s: Seq<char>)
    requires
        plain_line(s),
        no_newline(pre),
        pre.len() > 0,
        pre.last() != '\r',
    ensures
        plain_line(pre + s),
{
    let t = pre + s;
    assert forall|i: int| 0 <= i < t.len() implies t[i] != '\n' by {
        if i < pre.len() {
            assert(t[i] == pre[i]);
        } else {
            assert(t[i] == s[i - pre.len()]);
        }
    }
    if s.len() > 0 {
        assert(t.last() == s.last());
    } else {
        assert(t.last() == pre.last());
    }
}

/// A commit's text and data read back as written: its tree, its parent (if
/// any), its author and its message; for a tree and parent that hold no
/// newline and do not end with `\r`, and a message none of whose lines
/// ends with `\r`.
#[verifier::spinoff_prover]
#[verifier::rlimit(40)]
pub proof fn lemma_commit_fields_roundtrip(tree: Seq<char>, parent: Option<Seq<char>>, message: Seq<char>, ts: nat)
    requires
        plain_line(tree),
        parent matches Some(p) ==> plain_line(p),
        no_cr_line_end(message),
    ensures
        commit_fields(encode_utf8(commit_text(tree, parent, message, ts))) == (CommitFields {
            parents: match parent {
                Some(p) => seq![p],
                None => Seq::empty(),
            },
            author: author_text(ts),
            message: message,
            tree: tree,
        }),
{
    reveal_strlit("tree ");
    reveal_strlit("parent ");
    reveal_strlit("author ");
    reveal_strlit("committer ");
    reveal_strlit("Yasir <yasir@example.com> ");
    reveal_strlit(" +0000");
    reveal_strlit("\n");
    let text = commit_text(tree, parent, message, ts);
    encode_utf8_valid_utf8(text);
    encode_utf8_decode_utf8(text);
    assert(lossy_text(encode_utf8(text)) == text);
    let a = author_text(ts);
    let hl = commit_header_lines(tree, parent, ts);
    // The author value is plain text.
    lemma_dec_text_digits(ts);
    assert(plain_line(a)) by {
        let d = dec_text(ts);
        let pre = "Yasir <yasir@example.com> "@;
        let suf = " +0000"@;
        assert forall|i: int| 0 <= i < a.len() implies a[i] != '\n' by {
            if i < pre.len() {
                assert(a[i] == pre[i]);
            } else if i < pre.len() + d.len() {
                assert(a[i] == d[i - pre.len()]);
            } else {
                assert(a[i] == suf[i - pre.len() - d.len()]);
            }
        }
        assert(a.last() == '0');
    }
    lemma_prefixed_plain("tree "@, tree);
    lemma_prefixed_plain("author "@, a);
    lemma_prefixed_plain("committer "@, a);
    match parent {
        Some(p) => {
            lemma_prefixed_plain("parent "@, p);
        },
        None => {},
    }
    assert forall|i: int| 0 <= i < hl.len() implies plain_line(#[trigger] hl[i]) by {
        match parent {
            Some(p) => {
                if i == 0 {
                    assert(hl[i] == "tree "@ + tree);
                } else if i == 1 {
                    assert(hl[i] == "parent "@ + p);
                } else if i == 2 {
                    assert(hl[i] == "author "@ + a);
                } else if i == 3 {
                    assert(hl[i] == "committer "@ + a);
                } else {
                    assert(hl[i] == Seq::<char>::empty());
                }
            },
            None => {
                if i == 0 {
                    assert(hl[i] == "tree "@ + tree);
                } else if i == 1 {
                    assert(hl[i] == "author "@ + a);
                } else if i == 2 {
                    assert(hl[i] == "committer "@ + a);
                } else {
                    assert(hl[i] == Seq::<char>::empty());
                }
            },
        }
    }
    // The text is its header lines, each with a newline, then the message.
    reveal_with_fuel(lines_text, 6);
    assert(text =~= lines_text(hl) + (message + "\n"@));
    lemma_lines_prefix(hl, message + "\n"@);
    let lines = text_lines(text);
    assert(lines == hl + text_lines(message + "\n"@));
    lemma_join_lines_of(message);
    assert("\n"@ =~= seq!['\n']);
    let init = CommitFields { parents: Seq::empty(), author: Seq::empty(), message: Seq::empty(), tree: Seq::empty() };
    let m = hl.len() - 1;
    assert(lines.skip(m + 1) =~= text_lines(message + "\n"@));
    let l0 = lines[0];
    assert(l0 == "tree "@ + tree);
    assert(l0.take(5) =~= "tree "@);
    assert(l0.skip(5) =~= tree);
    let acc1 = CommitFields { tree: tree, ..init };
    assert(commit_fields_from(lines, 0, init) == commit_fields_from(lines, 1, acc1));
    match parent {
        Some(p) => {
            let l1 = lines[1];
            assert(l1 == "parent "@ + p);
            assert(l1.take(5) != "tree "@) by {
                assert(l1.take(5)[0] == 'p');
            }
            assert(l1.take(7) =~= "parent "@);
            assert(l1.skip(7) =~= p);
            let acc2 = CommitFields { parents: seq![p], ..acc1 };
            assert(acc1.parents.push(p) =~= seq![p]);
            assert(commit_fields_from(lines, 1, acc1) == commit_fields_from(lines, 2, acc2));
            let l2 = lines[2];
            assert(l2 == "author "@ + a);
            assert(l2.take(5) != "tree "@) by {
                assert(l2.take(5)[0] == 'a');
            }
            assert(l2.take(7) != "parent "@) by {
                assert(l2.take(7)[0] == 'a');
            }
            assert(l2.take(7) =~= "author "@);
            assert(l2.skip(7) =~= a);
            let acc3 = CommitFields { author: a, ..acc2 };
            assert(commit_fields_from(lines, 2, acc2) == commit_fields_from(lines, 3, acc3));
            let l3 = lines[3];
            assert(l3 == "committer "@ + a);
            assert(l3.take(5) != "tree "@) by {
                assert(l3.take(5)[0] == 'c');
            }
            assert(l3.take(7) != "parent "@) by {
                assert(l3.take(7)[0] == 'c');
            }
            assert(l3.take(7) != "author "@) by {
                assert(l3.take(7)[0] == 'c');
            }
            assert(commit_fields_from(lines, 3, acc3) == commit_fields_from(lines, 4, acc3));
            assert(lines[4] == Seq::<char>::empty());
            assert(commit_fields_from(lines, 4, acc3) == CommitFields { message: join_lines(lines.skip(5)), ..acc3 });
        },
        None => {
            let l2 = lines[1];
            assert(l2 == "author "@ + a);
            assert(l2.take(5) != "tree "@) by {
                assert(l2.take(5)[0] == 'a');
            }
            assert(l2.take(7) != "parent "@) by {
                assert(l2.take(7)[0] == 'a');
            }
            assert(l2.take(7) =~= "author "@);
            assert(l2.skip(7) =~= a);
            let acc3 = CommitFields { author: a, ..acc1 };
            assert(commit_fields_from(lines, 1, acc1) == commit_fields_from(lines, 2, acc3));
            let l3 = lines[2];
            assert(l3 == "committer "@ + a);
            assert(l3.take(5) != "tree "@) by {
                assert(l3.take(5)[0] == 'c');
            }
            assert(l3.take(7) != "parent "@) by {
                assert(l3.take(7)[0] == 'c');
            }
            assert(l3.take(7) != "author "@) by {
                assert(l3.take(7)[0] == 'c');
            }
            assert(commit_fields_from(lines, 2, acc3) == commit_fields_from(lines, 3, acc3));
            assert(lines[3] == Seq::<char>::empty());
            assert(commit_fields_from(lines, 3, acc3) == CommitFields { message: join_lines(lines.skip(4)), ..acc3 });
        },
    }
}

} // verus!
