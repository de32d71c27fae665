//! References: what a ref file says, which branch `HEAD` names, where a
//! ref is stored, and the reflog's lines.

use crate::commit::{dec_text, push_dec_text, strings_view};
use crate::order::{bytes_lt, compare_bytes, lemma_lt_asymmetric, lemma_lt_irreflexive, lemma_lt_total, lemma_lt_transitive, Order3};
use crate::text::{
    chars_eq, chars_of, is_ws, push_chars, starts_with, starts_with_at, string_of, text_lines,
    lines_of, trim, trim_bounds, lemma_trim_padded, lemma_trim_shape, lemma_trim_start_at,
    lemma_trim_end_at,
};
use vstd::prelude::*;
use vstd::utf8::*;

verus! {

broadcast use vstd::string::group_string_axioms;

/// What a ref file holds.
pub enum RefTarget {
    /// `ref: <name>`: another ref to follow.
    Symbolic(String),
    /// An object id (or whatever text the file holds).
    Direct(String),
}

/// The trimmed content of a ref file: a symbolic ref when it starts with
/// `ref: `, else the id itself.
pub open spec fn ref_target_of(content: Seq<char>) -> (bool, Seq<char>) {
    let t = trim(content);
    if starts_with(t, "ref: "@) {
        (true, t.skip(5))
    } else {
        (false, t)
    }
}

/// What a ref file says (the decision of `resolve_ref_path` once the file
/// is read).
pub fn ref_target(content: &str) -> (r: RefTarget)
    ensures
        match r {
            RefTarget::Symbolic(n) => ref_target_of(content@) == (true, n@),
            RefTarget::Direct(s) => ref_target_of(content@) == (false, s@),
        },
{
    proof {
        reveal_strlit("ref: ");
    }
    let cs = chars_of(content);
    let (a, b) = trim_bounds(cs.as_slice(), 0, cs.len());
    assert(cs@.subrange(0, cs@.len() as int) =~= cs@);
    let p = chars_of("ref: ");
    let ghost t = cs@.subrange(a as int, b as int);
    if starts_with_at(cs.as_slice(), a, b, p.as_slice()) {
        let n = string_of(&cs.as_slice()[a + 5..b]);
        assert(n@ =~= t.skip(5));
        RefTarget::Symbolic(n)
    } else {
        RefTarget::Direct(string_of(&cs.as_slice()[a..b]))
    }
}

/// The branch that `HEAD` names: its content after `ref: refs/heads/`,
/// trimmed; none for a detached `HEAD`.
pub open spec fn branch_of_head(head: Seq<char>) -> Option<Seq<char>> {
    if starts_with(head, "ref: refs/heads/"@) {
        Some(trim(head.skip(16)))
    } else {
        None
    }
}

/// The branch that the text of `HEAD` names, when it is a symbolic ref to
/// `refs/heads/`.
pub fn current_branch(head: &str) -> (r: Option<String>)
    ensures
        r is Some <==> branch_of_head(head@) is Some,
        r matches Some(b) ==> branch_of_head(head@) == Some(b@),
{
    proof {
        reveal_strlit("ref: refs/heads/");
    }
    let cs = chars_of(head);
    let p = chars_of("ref: refs/heads/");
    assert(cs@.subrange(0, cs@.len() as int) =~= cs@);
    if starts_with_at(cs.as_slice(), 0, cs.len(), p.as_slice()) {
        let (a, b) = trim_bounds(cs.as_slice(), 16, cs.len());
        assert(cs@.subrange(16, cs@.len() as int) =~= cs@.skip(16));
        Some(string_of(&cs.as_slice()[a..b]))
    } else {
        None
    }
}

/// The file where `update_ref` stores a ref: names under `refs/` and
/// `HEAD` under `.git`, others as branches under `.git/refs/heads` (each
/// joined as `Path::join` does, so an absolute name is its own path).
pub open spec fn ref_file_path(name: Seq<char>) -> Seq<char> {
    if starts_with(name, "refs/"@) || name == "HEAD"@ {
        joined(".git"@, name)
    } else {
        joined(".git/refs/heads"@, name)
    }
}

/// The file where `update_ref` stores a ref.
pub fn ref_storage(name: &str) -> (r: String)
    ensures
        r@ == ref_file_path(name@),
{
    let cs = chars_of(name);
    let refs = chars_of("refs/");
    let head = chars_of("HEAD");
    assert(cs@.subrange(0, cs@.len() as int) =~= cs@);
    if starts_with_at(cs.as_slice(), 0, cs.len(), refs.as_slice()) || chars_eq(cs.as_slice(), head.as_slice()) {
        join(".git", name)
    } else {
        join(".git/refs/heads", name)
    }
}

/// A reflog line: old and new ids, the fixed identity, the time, a zero
/// offset, a tab, the message and a newline.
pub open spec fn reflog_line_text(old: Seq<char>, new: Seq<char>, ts: nat, message: Seq<char>) -> Seq<char> {
    old + " "@ + new + " Yasir <yasir@example.com> "@ + dec_text(ts) + " +0000\t"@ + message + "\n"@
}

/// The line that `append_reflog` appends.
pub fn reflog_line(old: &str, new: &str, timestamp: u64, message: &str) -> (r: String)
    ensures
        r@ == reflog_line_text(old@, new@, timestamp as nat, message@),
{
    let mut out = chars_of(old);
    push_chars(&mut out, chars_of(" ").as_slice());
    push_chars(&mut out, chars_of(new).as_slice());
    push_chars(&mut out, chars_of(" Yasir <yasir@example.com> ").as_slice());
    push_dec_text(&mut out, timestamp);
    push_chars(&mut out, chars_of(" +0000\t").as_slice());
    push_chars(&mut out, chars_of(message).as_slice());
    push_chars(&mut out, chars_of("\n").as_slice());
    assert(out@ =~= reflog_line_text(old@, new@, timestamp as nat, message@));
    string_of(out.as_slice())
}

/// An update of `name` is logged for `HEAD` too: it is not `HEAD` and it is
/// the branch that `HEAD` names.
pub fn also_log_head(name: &str, current: Option<&str>) -> (r: bool)
    ensures
        r == (name@ != "HEAD"@ && (current matches Some(b) && name@ == "refs/heads/"@ + b@)),
{
    let cs = chars_of(name);
    let head = chars_of("HEAD");
    if chars_eq(cs.as_slice(), head.as_slice()) {
        return false;
    }
    match current {
        Some(b) => {
            let mut full = chars_of("refs/heads/");
            push_chars(&mut full, chars_of(b).as_slice());
            chars_eq(cs.as_slice(), full.as_slice())
        },
        None => false,
    }
}

/// A path under `base` as `Path::join` forms it: an absolute `name`
/// replaces the base; any other is appended after a slash.
pub open spec fn joined(base: Seq<char>, name: Seq<char>) -> Seq<char> {
    if name.len() > 0 && name[0] == '/' {
        name
    } else {
        base + "/"@ + name
    }
}

fn join(base: &str, name: &str) -> (r: String)
    ensures
        r@ == joined(base@, name@),
{
    let cs = chars_of(name);
    if cs.len() > 0 && cs[0] == '/' {
        string_of(cs.as_slice())
    } else {
        let mut out = chars_of(base);
        push_chars(&mut out, chars_of("/").as_slice());
        push_chars(&mut out, cs.as_slice());
        string_of(out.as_slice())
    }
}

/// The files where `resolve_ref` looks for `name`, in order: under `.git`,
/// then under `.git/refs/heads`, then under `.git/refs/tags`; the first
/// that exists is read.
pub fn ref_paths(name: &str) -> (r: Vec<String>)
    ensures
        r@.len() == 3,
        r@[0]@ == joined(".git"@, name@),
        r@[1]@ == joined(".git/refs/heads"@, name@),
        r@[2]@ == joined(".git/refs/tags"@, name@),
{
    let mut r: Vec<String> = Vec::new();
    r.push(join(".git", name));
    r.push(join(".git/refs/heads", name));
    r.push(join(".git/refs/tags", name));
    r
}

/// One step of resolving a ref, given the content of the first of its
/// `ref_paths` that exists (`None` when none exists or it cannot be read):
/// no content resolves to nothing; a symbolic ref names the ref to resolve
/// next; anything else is the id, trimmed.
pub fn resolve_ref(content: Option<&str>) -> (r: Option<RefTarget>)
    ensures
        content is None ==> r is None,
        content matches Some(c) ==> (r matches Some(t) && match t {
            RefTarget::Symbolic(n) => ref_target_of(c@) == (true, n@),
            RefTarget::Direct(s) => ref_target_of(c@) == (false, s@),
        }),
{
    match content {
        None => None,
        Some(c) => Some(ref_target(c)),
    }
}

/// Names sorted in byte order (the order of `str`'s comparison).
pub open spec fn names_sorted(v: Seq<Seq<char>>) -> bool {
    forall|i: int, j: int| 0 <= i < j < v.len() ==> !bytes_lt(encode_utf8(#[trigger] v[j]), encode_utf8(#[trigger] v[i]))
}

proof fn lemma_insert_keeps_sorted(v: Seq<Seq<char>>, p: int, x: Seq<char>)
    requires
        names_sorted(v),
        0 <= p <= v.len(),
        forall|a: int| 0 <= a < p ==> !bytes_lt(encode_utf8(x), encode_utf8(#[trigger] v[a])),
        p < v.len() ==> bytes_lt(encode_utf8(x), encode_utf8(v[p])),
    ensures
        names_sorted(v.insert(p, x)),
{
    let w = v.insert(p, x);
    assert forall|i: int, j: int| 0 <= i < j < w.len() implies !bytes_lt(encode_utf8(#[trigger] w[j]), encode_utf8(#[trigger] w[i])) by {
        if i < p && j < p {
            assert(w[i] == v[i] && w[j] == v[j]);
        } else if i < p && j == p {
            assert(w[i] == v[i] && w[j] == x);
            lemma_lt_total(encode_utf8(x), encode_utf8(v[i]));
            lemma_lt_irreflexive(encode_utf8(x));
            lemma_lt_asymmetric(encode_utf8(x), encode_utf8(v[i]));
        } else if i < p && j > p {
            assert(w[i] == v[i] && w[j] == v[j - 1]);
            assert(!bytes_lt(encode_utf8(v[j - 1]), encode_utf8(v[i])));
        } else if i == p {
            assert(w[i] == x && w[j] == v[j - 1]);
            assert(p < v.len());
            if j - 1 > p {
                assert(!bytes_lt(encode_utf8(v[j - 1]), encode_utf8(v[p])));
                lemma_lt_total(encode_utf8(v[j - 1]), encode_utf8(v[p]));
                if bytes_lt(encode_utf8(v[p]), encode_utf8(v[j - 1])) {
                    lemma_lt_transitive(encode_utf8(x), encode_utf8(v[p]), encode_utf8(v[j - 1]));
                }
            }
            lemma_lt_asymmetric(encode_utf8(x), encode_utf8(v[j - 1]));
        } else {
            assert(w[i] == v[i - 1] && w[j] == v[j - 1]);
        }
    }
}

/// The names in byte order (what `list_branches` and `tag` do to the names
/// they read).
pub fn sort_names(names: Vec<String>) -> (r: Vec<String>)
    ensures
        strings_view(r@).to_multiset() == strings_view(names@).to_multiset(),
        names_sorted(strings_view(r@)),
{
    broadcast use vstd::seq_lib::to_multiset_build, vstd::seq_lib::to_multiset_insert;
    let mut out: Vec<String> = Vec::new();
    let ghost nv = strings_view(names@);
    let mut k: usize = 0;
    assert(strings_view(out@) =~= Seq::<Seq<char>>::empty());
    assert(nv.take(0) =~= Seq::<Seq<char>>::empty());
    while k < names.len()
        invariant
            k <= names@.len(),
            nv == strings_view(names@),
            strings_view(out@).to_multiset() == nv.take(k as int).to_multiset(),
            names_sorted(strings_view(out@)),
        decreases names@.len() - k,
    {
        let x = names[k].clone();
        let xb = x.as_str().as_bytes();
        let mut p: usize = 0;
        let ghost ov = strings_view(out@);
        while p < out.len()
            invariant_except_break
                forall|a: int| 0 <= a < p ==> !bytes_lt(encode_utf8(x@), encode_utf8(#[trigger] ov[a])),
            invariant
                p <= out@.len(),
                ov == strings_view(out@),
                xb@ == encode_utf8(x@),
            ensures
                p <= out@.len(),
                forall|a: int| 0 <= a < p ==> !bytes_lt(encode_utf8(x@), encode_utf8(#[trigger] ov[a])),
                p < out@.len() ==> bytes_lt(encode_utf8(x@), encode_utf8(ov[p as int])),
            decreases out@.len() - p,
        {
            assert(ov[p as int] == out@[p as int]@);
            match compare_bytes(xb, out[p].as_str().as_bytes()) {
                Order3::Less => {
                    break;
                },
                _ => {},
            }
            p = p + 1;
        }
        proof {
            lemma_insert_keeps_sorted(ov, p as int, x@);
        }
        let ghost before = out@;
        out.insert(p, x);
        proof {
            assert(strings_view(out@) =~= ov.insert(p as int, x@));
            assert(nv.take(k + 1) =~= nv.take(k as int).push(nv[k as int]));
            assert(nv[k as int] == x@);
            vstd::seq_lib::to_multiset_insert(ov, p as int, x@);
            vstd::seq_lib::to_multiset_build(nv.take(k as int), x@);
        }
        k = k + 1;
    }
    assert(nv.take(k as int) =~= nv);
    out
}

/// What `update_ref` writes for an id (the id and a newline) reads back as
/// that id, for an id without surrounding whitespace that does not itself
/// begin like a symbolic ref.
pub proof fn lemma_written_ref_reads_back(sha: Seq<char>)
    requires
        trim(sha) == sha,
        !starts_with(sha, "ref: "@),
    ensures
        ref_target_of(sha + "\n"@) == (false, sha),
{
    reveal_strlit("\n");
    assert(Seq::<char>::empty() + sha + "\n"@ =~= sha + "\n"@);
    lemma_trim_padded(Seq::empty(), sha, "\n"@);
}

/// A symbolic ref written as `ref: <name>` and a newline reads back as a
/// link to `name`, for a non-empty name without surrounding whitespace.
pub proof fn lemma_symbolic_ref_reads_back(name: Seq<char>)
    requires
        name.len() > 0,
        trim(name) == name,
    ensures
        ref_target_of("ref: "@ + name + "\n"@) == (true, name),
{
    reveal_strlit("\n");
    reveal_strlit("ref: ");
    let s = "ref: "@ + name;
    lemma_trim_shape(name);
    assert(trim(s) == s) by {
        lemma_trim_start_at(s, 0);
        assert(s.skip(0) =~= s);
        assert(s.last() == name.last());
        lemma_trim_end_at(s, s.len() as int);
        assert(s.take(s.len() as int) =~= s);
    }
    assert(Seq::<char>::empty() + s + "\n"@ =~= "ref: "@ + name + "\n"@);
    lemma_trim_padded(Seq::empty(), s, "\n"@);
    assert(s.take(5) =~= "ref: "@);
    assert(s.skip(5) =~= name);
}

/// The files that `resolve_ref` tries for `name` (see `ref_paths`).
pub open spec fn lookup_paths(name: Seq<char>) -> Seq<Seq<char>> {
    seq![joined(".git"@, name), joined(".git/refs/heads"@, name), joined(".git/refs/tags"@, name)]
}

/// The content of the first of `paths` that `files` holds.
pub open spec fn first_present(files: spec_fn(Seq<char>) -> Option<Seq<char>>, paths: Seq<Seq<char>>) -> Option<
    Seq<char>,
>
    decreases paths.len(),
{
    if paths.len() == 0 {
        None
    } else {
        match files(paths[0]) {
            Some(c) => Some(c),
            None => first_present(files, paths.drop_first()),
        }
    }
}

/// `files` with `path` holding `content`.
pub open spec fn with_file(files: spec_fn(Seq<char>) -> Option<Seq<char>>, path: Seq<char>, content: Seq<char>) -> spec_fn(
    Seq<char>,
) -> Option<Seq<char>> {
    |p: Seq<char>| if p == path {
        Some(content)
    } else {
        files(p)
    }
}

/// After `update_ref` writes an id for `name` (the id and a newline, in
/// `ref_file_path(name)`), the lookup of `resolve_ref` finds that file and
/// reads the id back: for an id without surrounding whitespace that does
/// not begin like a symbolic ref, and, for a branch given by its short
/// name, no file `.git/<name>` before the write that the lookup would read
/// first.
pub proof fn lemma_updated_ref_resolves(files: spec_fn(Seq<char>) -> Option<Seq<char>>, name: Seq<char>, sha: Seq<char>)
    requires
        trim(sha) == sha,
        !starts_with(sha, "ref: "@),
        !(starts_with(name, "refs/"@) || name == "HEAD"@) ==> files(joined(".git"@, name)) is None,
    ensures
        first_present(with_file(files, ref_file_path(name), sha + "\n"@), lookup_paths(name)) == Some(
            sha + "\n"@,
        ),
        ref_target_of(sha + "\n"@) == (false, sha),
{
    reveal_strlit(".git");
    reveal_strlit("/");
    reveal_strlit(".git/refs/heads");
    lemma_written_ref_reads_back(sha);
    let w = ref_file_path(name);
    let f2 = with_file(files, w, sha + "\n"@);
    let ps = lookup_paths(name);
    if starts_with(name, "refs/"@) || name == "HEAD"@ || (name.len() > 0 && name[0] == '/') {
        assert(ps[0] == w);
        assert(f2(ps[0]) == Some(sha + "\n"@));
    } else {
        assert(w == ".git/refs/heads"@ + "/"@ + name);
        assert(ps[0] == ".git"@ + "/"@ + name);
        assert(ps[0] != w) by {
            assert(ps[0].len() != w.len());
        }
        assert(ps[1] == w);
        assert(f2(ps[0]) == files(ps[0]));
        assert(f2(ps[0]) is None);
        let rest = ps.drop_first();
        assert(rest[0] == ps[1]);
        assert(f2(rest[0]) == Some(sha + "\n"@));
        assert(first_present(f2, rest) == Some(sha + "\n"@));
        assert(first_present(f2, ps) == first_present(f2, rest));
    }
}

} // verus!
