//! What the porcelain commands print and decide, once their inputs are read:
//! `cat-file`, `ls-files`, `ls-tree`, `show`, `log`, `reflog`, `branch`,
//! `tag`, `rev-parse`, `clone`, `commit`, `checkout`, `reset` and the
//! remote commands.

use crate::bytes::push_all;
use crate::commit::{commit_object, commit_text, dec_text, lemma_dec_text_digits, nothing_to_commit, push_dec_text, strings_view, Commit};
use crate::digest::sha1_digest;
use crate::object::{loose_object, object_frame, LooseObject};
use crate::hexenc::{encode_hex, hex_text};
use crate::index::{lookup, remove_path, EntryView, Index, IndexEntry};
use crate::object::{decimal, push_decimal};
use crate::status::{each_line, head_tree, head_tree_of};
use crate::text::{
    byte_prefix, chars_eq, chars_of, from_utf8_lossy, is_ws, lossy_text, prefix_to, push_chars,
    starts_with, starts_with_at, string_of, trim, trim_bounds, lemma_trim_padded, no_newline, plain_line,
    lines_text, text_lines, lemma_lines_prefix, lemma_find_char_is,
};
use crate::refs::{branch_of_head, reflog_line_text};
use crate::tree::{octal, parse_tree, push_octal, tree_entries, TreeEntry, TreeEntryView};
use vstd::prelude::*;
use vstd::utf8::*;

verus! {

broadcast use vstd::string::group_string_axioms;

fn push_str(out: &mut Vec<char>, s: &str)
    ensures
        final(out)@ == old(out)@ + s@,
{
    let cs = chars_of(s);
    push_chars(out, cs.as_slice());
}

fn push_text_bytes(out: &mut Vec<u8>, s: &str)
    ensures
        final(out)@ == old(out)@ + encode_utf8(s@),
{
    push_all(out, s.as_bytes());
}

/// What `cat-file` prints: the data for `-p`, the type for `-t`, the size
/// for `-s`, and for a type name the data when the object has that type;
/// `None` when it has another (the command then reports a bad object).
pub open spec fn cat_file_bytes(flag: Seq<char>, obj_type: Seq<char>, data: Seq<u8>) -> Option<Seq<u8>> {
    if flag == "-p"@ {
        Some(data)
    } else if flag == "-t"@ {
        Some(encode_utf8(obj_type) + seq![10u8])
    } else if flag == "-s"@ {
        Some(decimal(data.len()) + seq![10u8])
    } else if obj_type == flag {
        Some(data)
    } else {
        None
    }
}

/// The output of `cat-file <flag>` for an object read as `obj_type` and `data`.
pub fn cat_file_output(flag: &str, obj_type: &str, data: &[u8]) -> (r: Option<Vec<u8>>)
    ensures
        r is Some <==> cat_file_bytes(flag@, obj_type@, data@) is Some,
        r matches Some(v) ==> cat_file_bytes(flag@, obj_type@, data@) == Some(v@),
{
    let f = chars_of(flag);
    let t = chars_of(obj_type);
    if chars_eq(f.as_slice(), chars_of("-p").as_slice()) {
        let mut out: Vec<u8> = Vec::new();
        push_all(&mut out, data);
        Some(out)
    } else if chars_eq(f.as_slice(), chars_of("-t").as_slice()) {
        let mut out: Vec<u8> = Vec::new();
        push_text_bytes(&mut out, obj_type);
        out.push(10u8);
        Some(out)
    } else if chars_eq(f.as_slice(), chars_of("-s").as_slice()) {
        let mut out: Vec<u8> = Vec::new();
        push_decimal(&mut out, data.len());
        out.push(10u8);
        Some(out)
    } else if chars_eq(t.as_slice(), f.as_slice()) {
        let mut out: Vec<u8> = Vec::new();
        push_all(&mut out, data);
        Some(out)
    } else {
        None
    }
}

/// The line `ls-files` prints for an entry: with `stage`, the octal mode,
/// the hex id and stage 0 before a tab and the path; else the path alone.
pub open spec fn ls_files_line(e: EntryView, stage: bool) -> Seq<u8> {
    if stage {
        octal(e.mode as nat) + seq![32u8] + encode_utf8(hex_text(e.sha1)) + seq![32u8, 48u8, 9u8]
            + encode_utf8(e.path) + seq![10u8]
    } else {
        encode_utf8(e.path) + seq![10u8]
    }
}

/// The lines of `ls-files` for entries in order.
pub open spec fn ls_files_bytes(es: Seq<EntryView>, stage: bool) -> Seq<u8>
    decreases es.len(),
{
    if es.len() == 0 {
        Seq::empty()
    } else {
        ls_files_bytes(es.drop_last(), stage) + ls_files_line(es.last(), stage)
    }
}

/// What `ls-files` prints for the index.
pub fn ls_files_output(index: &Index, stage: bool) -> (r: Vec<u8>)
    ensures
        r@ == ls_files_bytes(index@, stage),
{
    let es = index.entries();
    let ghost ev = es@.map_values(|e: IndexEntry| e@);
    let mut out: Vec<u8> = Vec::new();
    let mut i: usize = 0;
    assert(ev.take(0) =~= Seq::<EntryView>::empty());
    while i < es.len()
        invariant
            i <= es@.len(),
            ev == es@.map_values(|e: IndexEntry| e@),
            ev == index@,
            out@ == ls_files_bytes(ev.take(i as int), stage),
        decreases es@.len() - i,
    {
        let e = &es[i];
        let ghost before = out@;
        if stage {
            push_octal(&mut out, e.mode);
            out.push(32u8);
            let h = encode_hex(&e.sha1);
            push_text_bytes(&mut out, h.as_str());
            out.push(32u8);
            out.push(48u8);
            out.push(9u8);
        }
        push_text_bytes(&mut out, e.path.as_str());
        out.push(10u8);
        proof {
            assert(ev[i as int] == e@);
            assert(ev.take(i + 1).drop_last() =~= ev.take(i as int));
            assert(out@ =~= before + ls_files_line(e@, stage));
        }
        i = i + 1;
    }
    assert(ev.take(i as int) =~= ev);
    out
}

/// The line `ls-tree` prints for an entry: the name alone with
/// `--name-only`; else the mode (`040000` for a tree), the type of the
/// object it names, its id and, after a tab, the name.
pub open spec fn ls_tree_text(e: TreeEntryView, entry_type: Seq<char>, name_only: bool) -> Seq<char> {
    if name_only {
        e.path + "\n"@
    } else {
        (if e.mode == "40000"@ {
            "040000"@
        } else {
            e.mode
        }) + " "@ + entry_type + " "@ + e.sha1 + "\t"@ + e.path + "\n"@
    }
}

/// The line of `ls-tree` for one entry, the entry's object read as
/// `entry_type` (unused with `name_only`).
pub fn ls_tree_line(entry: &TreeEntry, entry_type: &str, name_only: bool) -> (r: String)
    ensures
        r@ == ls_tree_text(entry@, entry_type@, name_only),
{
    let mut out: Vec<char> = Vec::new();
    if name_only {
        push_str(&mut out, entry.path.as_str());
        push_str(&mut out, "\n");
    } else {
        let m = chars_of(entry.mode.as_str());
        if chars_eq(m.as_slice(), chars_of("40000").as_slice()) {
            push_str(&mut out, "040000");
        } else {
            push_chars(&mut out, m.as_slice());
        }
        push_str(&mut out, " ");
        push_str(&mut out, entry_type);
        push_str(&mut out, " ");
        push_str(&mut out, entry.sha1.as_str());
        push_str(&mut out, "\t");
        push_str(&mut out, entry.path.as_str());
        push_str(&mut out, "\n");
    }
    string_of(out.as_slice())
}

/// The lines `show` prints for the entries of a tree: mode, id, a tab and
/// the name.
pub open spec fn tree_show_lines(es: Seq<TreeEntryView>) -> Seq<char>
    decreases es.len(),
{
    if es.len() == 0 {
        Seq::empty()
    } else {
        tree_show_lines(es.drop_last()) + es.last().mode + " "@ + es.last().sha1 + "\t"@
            + es.last().path + "\n"@
    }
}

/// What `show` prints for the object `sha` read as `obj_type` and `data`:
/// a blob's data; for a commit or tag, a line with its type and id and
/// then its text; a tree's entries; any other object's data. `None` for a
/// tree whose data is cut short (where reading the tree panics).
pub open spec fn show_bytes(sha: Seq<char>, obj_type: Seq<char>, data: Seq<u8>) -> Option<Seq<u8>> {
    if obj_type == "blob"@ {
        Some(data)
    } else if obj_type == "commit"@ || obj_type == "tag"@ {
        Some(encode_utf8(obj_type + " "@ + sha + "\n"@ + lossy_text(data) + "\n"@))
    } else if obj_type == "tree"@ {
        match tree_entries(data) {
            None => None,
            Some(es) => Some(encode_utf8(tree_show_lines(es))),
        }
    } else {
        Some(data)
    }
}

/// The output of `show` for an object.
pub fn show_output(sha: &str, obj_type: &str, data: &[u8]) -> (r: Option<Vec<u8>>)
    ensures
        r is Some <==> show_bytes(sha@, obj_type@, data@) is Some,
        r matches Some(v) ==> show_bytes(sha@, obj_type@, data@) == Some(v@),
{
    let t = chars_of(obj_type);
    if chars_eq(t.as_slice(), chars_of("blob").as_slice()) {
        let mut out: Vec<u8> = Vec::new();
        push_all(&mut out, data);
        Some(out)
    } else if chars_eq(t.as_slice(), chars_of("commit").as_slice()) || chars_eq(
        t.as_slice(),
        chars_of("tag").as_slice(),
    ) {
        let mut text: Vec<char> = Vec::new();
        push_str(&mut text, obj_type);
        push_str(&mut text, " ");
        push_str(&mut text, sha);
        push_str(&mut text, "\n");
        let content = from_utf8_lossy(data);
        push_str(&mut text, content.as_str());
        push_str(&mut text, "\n");
        let s = string_of(text.as_slice());
        let mut out: Vec<u8> = Vec::new();
        push_text_bytes(&mut out, s.as_str());
        Some(out)
    } else if chars_eq(t.as_slice(), chars_of("tree").as_slice()) {
        let entries = match parse_tree(data) {
            Some(v) => v,
            None => return None,
        };
        let ghost ev = entries@.map_values(|e: TreeEntry| e@);
        let mut text: Vec<char> = Vec::new();
        let mut i: usize = 0;
        assert(ev.take(0) =~= Seq::<TreeEntryView>::empty());
        while i < entries.len()
            invariant
                i <= entries@.len(),
                ev == entries@.map_values(|e: TreeEntry| e@),
                text@ == tree_show_lines(ev.take(i as int)),
            decreases entries@.len() - i,
        {
            let e = &entries[i];
            let ghost before = text@;
            push_str(&mut text, e.mode.as_str());
            push_str(&mut text, " ");
            push_str(&mut text, e.sha1.as_str());
            push_str(&mut text, "\t");
            push_str(&mut text, e.path.as_str());
            push_str(&mut text, "\n");
            proof {
                assert(ev[i as int] == e@);
                assert(ev.take(i + 1).drop_last() =~= ev.take(i as int));
                assert(text@ =~= before + e.mode@ + " "@ + e.sha1@ + "\t"@ + e.path@ + "\n"@);
            }
            i = i + 1;
        }
        assert(ev.take(i as int) =~= ev);
        let s = string_of(text.as_slice());
        let mut out: Vec<u8> = Vec::new();
        push_text_bytes(&mut out, s.as_str());
        Some(out)
    } else {
        let mut out: Vec<u8> = Vec::new();
        push_all(&mut out, data);
        Some(out)
    }
}

/// What `log` prints for one commit.
pub open spec fn log_text(sha: Seq<char>, author: Seq<char>, message: Seq<char>) -> Seq<char> {
    "commit "@ + sha + "\n"@ + "Author: "@ + author + "\n"@ + "\n    "@ + message + "\n"@ + "\n"@
}

/// The lines `log` prints for a commit.
pub fn log_entry(c: &Commit) -> (r: String)
    ensures
        r@ == log_text(c.sha@, c.author@, c.message@),
{
    let mut out: Vec<char> = Vec::new();
    push_str(&mut out, "commit ");
    push_str(&mut out, c.sha.as_str());
    push_str(&mut out, "\n");
    push_str(&mut out, "Author: ");
    push_str(&mut out, c.author.as_str());
    push_str(&mut out, "\n");
    push_str(&mut out, "\n    ");
    push_str(&mut out, c.message.as_str());
    push_str(&mut out, "\n");
    push_str(&mut out, "\n");
    assert(out@ =~= log_text(c.sha@, c.author@, c.message@));
    string_of(out.as_slice())
}

/// The lines of `branch`: each branch, marked `* ` when it is the current
/// one and indented by two spaces otherwise.
pub open spec fn branch_lines(bs: Seq<Seq<char>>, current: Option<Seq<char>>) -> Seq<char>
    decreases bs.len(),
{
    if bs.len() == 0 {
        Seq::empty()
    } else {
        branch_lines(bs.drop_last(), current) + (if current == Some(bs.last()) {
            "* "@
        } else {
            "  "@
        }) + bs.last() + "\n"@
    }
}

/// What `branch` prints for the branches, in the order given.
pub fn branch_list(branches: &Vec<String>, current: Option<&str>) -> (r: String)
    ensures
        r@ == branch_lines(
            strings_view(branches@),
            match current {
                Some(c) => Some(c@),
                None => None,
            },
        ),
{
    let ghost bv = strings_view(branches@);
    let ghost cv = match current {
        Some(c) => Some(c@),
        None => None::<Seq<char>>,
    };
    let mut out: Vec<char> = Vec::new();
    let mut i: usize = 0;
    assert(bv.take(0) =~= Seq::<Seq<char>>::empty());
    while i < branches.len()
        invariant
            i <= branches@.len(),
            bv == strings_view(branches@),
            cv == match current {
                Some(c) => Some(c@),
                None => None::<Seq<char>>,
            },
            out@ == branch_lines(bv.take(i as int), cv),
        decreases branches@.len() - i,
    {
        let b = &branches[i];
        let ghost before = out@;
        let is_current = match current {
            Some(c) => chars_eq(chars_of(c).as_slice(), chars_of(b.as_str()).as_slice()),
            None => false,
        };
        if is_current {
            push_str(&mut out, "* ");
        } else {
            push_str(&mut out, "  ");
        }
        push_str(&mut out, b.as_str());
        push_str(&mut out, "\n");
        proof {
            assert(bv[i as int] == b@);
            assert(bv.take(i + 1).drop_last() =~= bv.take(i as int));
            assert(bv.take(i + 1).last() == b@);
            assert(is_current == (cv == Some(b@)));
        }
        i = i + 1;
    }
    assert(bv.take(i as int) =~= bv);
    string_of(out.as_slice())
}

/// What `tag` prints when listing: one name per line.
pub fn name_list(names: &Vec<String>) -> (r: String)
    ensures
        r@ == each_line(Seq::empty(), strings_view(names@), "\n"@),
{
    let ghost nv = strings_view(names@);
    let mut out: Vec<char> = Vec::new();
    let mut i: usize = 0;
    assert(nv.take(0) =~= Seq::<Seq<char>>::empty());
    while i < names.len()
        invariant
            i <= names@.len(),
            nv == strings_view(names@),
            out@ == each_line(Seq::empty(), nv.take(i as int), "\n"@),
        decreases names@.len() - i,
    {
        let ghost before = out@;
        push_str(&mut out, names[i].as_str());
        push_str(&mut out, "\n");
        proof {
            assert(nv.take(i + 1).drop_last() =~= nv.take(i as int));
            assert(nv.take(i + 1).last() == names@[i as int]@);
            assert(out@ =~= before + Seq::<char>::empty() + names@[i as int]@ + "\n"@);
        }
        i = i + 1;
    }
    assert(nv.take(i as int) =~= nv);
    string_of(out.as_slice())
}

/// An ASCII hex digit, either case.
pub open spec fn is_hex_char(c: char) -> bool {
    ('0' <= c <= '9') || ('a' <= c <= 'f') || ('A' <= c <= 'F')
}

/// `rev-parse` takes `rev` as an id itself: 40 bytes, all hex digits.
pub open spec fn full_hex_id(rev: Seq<char>) -> bool {
    encode_utf8(rev).len() == 40 && forall|i: int| 0 <= i < rev.len() ==> is_hex_char(#[trigger] rev[i])
}

/// True when `rev` is a full hex object id, which `rev-parse` prints as it is.
pub fn is_full_hex_id(rev: &str) -> (r: bool)
    ensures
        r == full_hex_id(rev@),
{
    if rev.as_bytes().len() != 40 {
        return false;
    }
    let cs = chars_of(rev);
    let mut i: usize = 0;
    while i < cs.len()
        invariant
            i <= cs@.len(),
            cs@ == rev@,
            forall|j: int| 0 <= j < i ==> is_hex_char(#[trigger] cs@[j]),
        decreases cs@.len() - i,
    {
        let c = cs[i];
        if !(('0' <= c && c <= '9') || ('a' <= c && c <= 'f') || ('A' <= c && c <= 'F')) {
            return false;
        }
        i = i + 1;
    }
    true
}

/// The length of the run of characters from `i` on that are not whitespace.
pub open spec fn word_end(s: Seq<char>, i: int) -> int
    decreases s.len() - i,
{
    if i < 0 || i >= s.len() || is_ws(s[i]) {
        i
    } else {
        word_end(s, i + 1)
    }
}

/// The whitespace-separated words of `s` from `i` on (`split_whitespace`).
pub open spec fn words_from(s: Seq<char>, i: int) -> Seq<Seq<char>>
    decreases s.len() - i,
{
    if i < 0 || i >= s.len() {
        Seq::empty()
    } else if is_ws(s[i]) {
        words_from(s, i + 1)
    } else {
        let e = word_end(s, i);
        if e <= i || e > s.len() {
            Seq::empty()
        } else {
            seq![s.subrange(i, e)] + words_from(s, e)
        }
    }
}

proof fn lemma_word_end(s: Seq<char>, i: int)
    requires
        0 <= i <= s.len(),
    ensures
        i <= word_end(s, i) <= s.len(),
        forall|k: int| i <= k < word_end(s, i) ==> !is_ws(#[trigger] s[k]),
        word_end(s, i) < s.len() ==> is_ws(s[word_end(s, i)]),
    decreases s.len() - i,
{
    if i < s.len() && !is_ws(s[i]) {
        lemma_word_end(s, i + 1);
    }
}

/// The second word of `s`, empty when it has fewer words.
pub open spec fn second_word(s: Seq<char>) -> Seq<char> {
    let ws = words_from(s, 0);
    if ws.len() > 1 {
        ws[1]
    } else {
        Seq::empty()
    }
}

fn skip_ws(cs: &[char], i: usize) -> (r: usize)
    requires
        i <= cs@.len(),
    ensures
        i <= r <= cs@.len(),
        words_from(cs@, i as int) == words_from(cs@, r as int),
        r < cs@.len() ==> !is_ws(cs@[r as int]),
{
    let mut j = i;
    while j < cs.len() && crate::text::is_whitespace(cs[j])
        invariant
            i <= j <= cs@.len(),
            words_from(cs@, i as int) == words_from(cs@, j as int),
        decreases cs@.len() - j,
    {
        j = j + 1;
    }
    j
}

fn end_of_word(cs: &[char], i: usize) -> (r: usize)
    requires
        i <= cs@.len(),
    ensures
        r == word_end(cs@, i as int),
        i <= r <= cs@.len(),
{
    proof {
        lemma_word_end(cs@, i as int);
    }
    let mut j = i;
    while j < cs.len() && !crate::text::is_whitespace(cs[j])
        invariant
            i <= j <= cs@.len(),
            word_end(cs@, i as int) == word_end(cs@, j as int),
        decreases cs@.len() - j,
    {
        j = j + 1;
    }
    j
}

/// The second whitespace-separated word of `s`, or nothing.
fn second_word_of(s: &[char]) -> (r: Vec<char>)
    ensures
        r@ == second_word(s@),
{
    let a = skip_ws(s, 0);
    if a >= s.len() {
        return Vec::new();
    }
    let b = end_of_word(s, a);
    proof {
        lemma_word_end(s@, a as int);
    }
    assert(words_from(s@, a as int) == seq![s@.subrange(a as int, b as int)] + words_from(s@, b as int));
    let c = skip_ws(s, b);
    if c >= s.len() {
        assert(words_from(s@, c as int) =~= Seq::<Seq<char>>::empty());
        return Vec::new();
    }
    let d = end_of_word(s, c);
    proof {
        lemma_word_end(s@, c as int);
    }
    assert(words_from(s@, c as int) == seq![s@.subrange(c as int, d as int)] + words_from(s@, d as int));
    let mut out: Vec<char> = Vec::new();
    push_chars(&mut out, &s[c..d]);
    out
}

/// The line `reflog` prints for a log line shown `idx`-th, newest first:
/// the first seven bytes of the new id (the second word of the part before
/// the first tab), `HEAD@{idx}: ` and the message after that tab; `None`
/// where the id has fewer than seven bytes (the slice panics).
pub open spec fn reflog_entry_text(line: Seq<char>, idx: nat) -> Option<Seq<char>> {
    let (meta, message) = match crate::text::find_char_from(line, 0, '\t') {
        Some(t) => (line.take(t), line.skip(t + 1)),
        None => (line, Seq::empty()),
    };
    match byte_prefix(second_word(meta), 7) {
        None => None,
        Some(p) => Some(p + " HEAD@{"@ + dec_text(idx) + "}: "@ + message + "\n"@),
    }
}

/// The output of `reflog` for the lines of the log, from the `i`-th newest
/// on, and whether every line could be printed (`false` where a line's id
/// is too short, the output stopping before it).
pub open spec fn reflog_from(lines: Seq<Seq<char>>, i: int) -> (Seq<char>, bool)
    decreases lines.len() - i,
{
    if i < 0 || i >= lines.len() {
        (Seq::empty(), true)
    } else {
        match reflog_entry_text(lines[lines.len() - 1 - i], i as nat) {
            None => (Seq::empty(), false),
            Some(t) => {
                let (rest, ok) = reflog_from(lines, i + 1);
                (t + rest, ok)
            },
        }
    }
}

/// What `reflog` prints for the content of `.git/logs/HEAD`, newest line
/// first, and whether it got through every line.
pub fn reflog_output(content: &str) -> (r: (String, bool))
    ensures
        r.0@ == reflog_from(crate::text::text_lines(content@), 0).0,
        r.1 == reflog_from(crate::text::text_lines(content@), 0).1,
{
    let cs = chars_of(content);
    let lines = crate::text::lines_of(cs.as_slice());
    let ghost lv = lines@.map_values(|l: Vec<char>| l@);
    let mut out: Vec<char> = Vec::new();
    let mut i: usize = 0;
    while i < lines.len()
        invariant
            i <= lines@.len(),
            lv == lines@.map_values(|l: Vec<char>| l@),
            lv == crate::text::text_lines(content@),
            reflog_from(lv, 0) == (out@ + reflog_from(lv, i as int).0, reflog_from(lv, i as int).1),
        decreases lines@.len() - i,
    {
        let line = &lines[lines.len() - 1 - i];
        assert(lv[lines@.len() - 1 - i] == line@);
        let (meta, message): (Vec<char>, Vec<char>) = match crate::text::find_char(line.as_slice(), 0, line.len(), '\t') {
            Some(t) => {
                let mut m: Vec<char> = Vec::new();
                push_chars(&mut m, &line.as_slice()[0..t]);
                let mut g: Vec<char> = Vec::new();
                push_chars(&mut g, &line.as_slice()[t + 1..line.len()]);
                (m, g)
            },
            None => {
                let mut m: Vec<char> = Vec::new();
                push_chars(&mut m, line.as_slice());
                (m, Vec::new())
            },
        };
        proof {
            assert(line@.subrange(0, line@.len() as int) =~= line@);
        }
        let id = second_word_of(meta.as_slice());
        let ids = string_of(id.as_slice());
        let short = match prefix_to(ids.as_str(), 7) {
            Some(p) => p,
            None => {
                return (string_of(out.as_slice()), false);
            },
        };
        let ghost before = out@;
        push_str(&mut out, short.as_str());
        push_str(&mut out, " HEAD@{");
        push_dec_text(&mut out, i as u64);
        push_str(&mut out, "}: ");
        push_chars(&mut out, message.as_slice());
        push_str(&mut out, "\n");
        proof {
            assert(out@ =~= before + reflog_entry_text(lv[lv.len() - 1 - i], i as nat).unwrap());
        }
        i = i + 1;
    }
    assert(out@ + Seq::<char>::empty() =~= out@);
    (string_of(out.as_slice()), true)
}

/// The directory `clone` clones into: the one given, else the current
/// directory.
pub open spec fn clone_dir_of(url: Seq<char>, dir: Option<Seq<char>>) -> Seq<char> {
    match dir {
        Some(d) => d,
        None => "."@,
    }
}

/// The directory that `clone` clones into.
pub fn clone_dest_dir(url: &str, dir: Option<&str>) -> (r: String)
    ensures
        r@ == clone_dir_of(
            url@,
            match dir {
                Some(d) => Some(d@),
                None => None,
            },
        ),
{
    match dir {
        Some(d) => string_of(chars_of(d).as_slice()),
        None => ".".to_string(),
    }
}

/// The branch `clone` checks out, from the source's `HEAD` (trimmed): the
/// name after `ref: refs/heads/`, trimmed; `None` for a detached `HEAD`,
/// whose id is checked out instead.
pub open spec fn clone_branch_of(head: Seq<char>) -> Option<Seq<char>> {
    let t = trim(head);
    if starts_with(t, "ref: refs/heads/"@) {
        Some(trim(t.skip(16)))
    } else {
        None
    }
}

/// The branch to check out after cloning, from the source's `HEAD` file.
pub fn clone_branch(head: &str) -> (r: Option<String>)
    ensures
        r is Some <==> clone_branch_of(head@) is Some,
        r matches Some(b) ==> clone_branch_of(head@) == Some(b@),
{
    proof {
        reveal_strlit("ref: refs/heads/");
    }
    let cs = chars_of(head);
    let (a, b) = trim_bounds(cs.as_slice(), 0, cs.len());
    assert(cs@.subrange(0, cs@.len() as int) =~= cs@);
    let p = chars_of("ref: refs/heads/");
    if starts_with_at(cs.as_slice(), a, b, p.as_slice()) {
        let (c, d) = trim_bounds(cs.as_slice(), a + 16, b);
        assert(cs@.subrange(a as int, b as int).skip(16) =~= cs@.subrange(a + 16, b as int));
        Some(string_of(&cs.as_slice()[c..d]))
    } else {
        None
    }
}

/// The ref that a new commit or a reset moves: the current branch, or
/// `HEAD` itself when it is detached.
pub open spec fn head_ref_of(branch: Option<Seq<char>>) -> Seq<char> {
    match branch {
        Some(b) => "refs/heads/"@ + b,
        None => "HEAD"@,
    }
}

/// The ref to update for the current branch.
pub fn head_ref_name(branch: Option<&str>) -> (r: String)
    ensures
        r@ == head_ref_of(
            match branch {
                Some(b) => Some(b@),
                None => None,
            },
        ),
{
    match branch {
        Some(b) => {
            let mut out = chars_of("refs/heads/");
            push_str(&mut out, b);
            string_of(out.as_slice())
        },
        None => string_of(chars_of("HEAD").as_slice()),
    }
}

/// The line `commit` prints: the branch (or `detached HEAD`) and the first
/// seven bytes of the new id in brackets, then the message; `None` where
/// the id is shorter than that.
pub open spec fn commit_summary_text(branch: Option<Seq<char>>, sha: Seq<char>, message: Seq<char>) -> Option<Seq<char>> {
    match byte_prefix(sha, 7) {
        None => None,
        Some(p) => Some(
            "["@ + (match branch {
                Some(b) => b,
                None => "detached HEAD"@,
            }) + " "@ + p + "] "@ + message + "\n"@,
        ),
    }
}

/// What `commit` prints after recording a commit.
pub fn commit_summary(branch: Option<&str>, sha: &str, message: &str) -> (r: Option<String>)
    ensures
        r is Some <==> commit_summary_text(
            match branch {
                Some(b) => Some(b@),
                None => None,
            },
            sha@,
            message@,
        ) is Some,
        r matches Some(t) ==> commit_summary_text(
            match branch {
                Some(b) => Some(b@),
                None => None,
            },
            sha@,
            message@,
        ) == Some(t@),
{
    let p = match prefix_to(sha, 7) {
        Some(p) => p,
        None => return None,
    };
    let mut out = chars_of("[");
    match branch {
        Some(b) => push_str(&mut out, b),
        None => push_str(&mut out, "detached HEAD"),
    }
    push_str(&mut out, " ");
    push_str(&mut out, p.as_str());
    push_str(&mut out, "] ");
    push_str(&mut out, message);
    push_str(&mut out, "\n");
    Some(string_of(out.as_slice()))
}

/// The tree `checkout` writes out for the object it resolved: a commit's
/// tree (from its first line, as `status` reads it) or a tree itself;
/// `None` for any other object (a fatal error) or a malformed first line.
pub open spec fn checkout_tree_of(sha: Seq<char>, obj_type: Seq<char>, data: Seq<u8>) -> Option<Seq<char>> {
    if obj_type == "commit"@ || obj_type == "tree"@ {
        head_tree_of(sha, obj_type, data)
    } else {
        None
    }
}

/// The tree to check out for the object `sha` read as `obj_type` and `data`.
pub fn checkout_tree(sha: &str, obj_type: &str, data: &[u8]) -> (r: Option<String>)
    ensures
        r is Some <==> checkout_tree_of(sha@, obj_type@, data@) is Some,
        r matches Some(t) ==> checkout_tree_of(sha@, obj_type@, data@) == Some(t@),
{
    let t = chars_of(obj_type);
    if chars_eq(t.as_slice(), chars_of("commit").as_slice()) || chars_eq(
        t.as_slice(),
        chars_of("tree").as_slice(),
    ) {
        head_tree(sha, obj_type, data)
    } else {
        None
    }
}

/// What `reset` makes of the object it resolved.
pub enum ResetTree {
    /// Not a commit: `reset` fails.
    NotCommit,
    /// The commit's tree.
    Tree(String),
    /// A commit whose first line cannot be sliced (a panic).
    Malformed,
}

/// The tree `reset` moves to: a commit's tree, from its first line.
pub fn reset_tree(obj_type: &str, data: &[u8]) -> (r: ResetTree)
    ensures
        obj_type@ != "commit"@ ==> r is NotCommit,
        obj_type@ == "commit"@ ==> match head_tree_of(Seq::empty(), obj_type@, data@) {
            Some(t) => r matches ResetTree::Tree(u) && u@ == t,
            None => r is Malformed,
        },
{
    let t = chars_of(obj_type);
    if !chars_eq(t.as_slice(), chars_of("commit").as_slice()) {
        return ResetTree::NotCommit;
    }
    match head_tree("", obj_type, data) {
        Some(u) => ResetTree::Tree(u),
        None => ResetTree::Malformed,
    }
}

/// The paths of `previous` that no entry of `targets` has, in order: the
/// files `checkout` deletes (those that exist).
pub open spec fn removed_paths(previous: Seq<EntryView>, targets: Seq<TreeEntryView>) -> Seq<Seq<char>>
    decreases previous.len(),
{
    if previous.len() == 0 {
        Seq::empty()
    } else {
        let p = previous.last().path;
        removed_paths(previous.drop_last(), targets) + (if exists|j: int|
            0 <= j < targets.len() && (#[trigger] targets[j]).path == p {
            Seq::empty()
        } else {
            seq![p]
        })
    }
}

/// Whether some target entry has path `p`.
pub open spec fn in_targets(targets: Seq<TreeEntryView>, p: Seq<char>) -> bool {
    exists|j: int| 0 <= j < targets.len() && (#[trigger] targets[j]).path == p
}

/// `checkout` removes exactly the staged paths that the target tree lacks,
/// each once for each entry and in index order: the result is the index's
/// paths filtered by absence from the targets. So every staged path that no
/// target has is removed, and no path that a target has is.
pub proof fn lemma_removed_paths_are_missing(previous: Seq<EntryView>, targets: Seq<TreeEntryView>)
    ensures
        removed_paths(previous, targets) == previous.map_values(|e: EntryView| e.path).filter(
            |p: Seq<char>| !in_targets(targets, p),
        ),
        forall|i: int|
            0 <= i < previous.len() && !in_targets(targets, (#[trigger] previous[i]).path) ==> removed_paths(
                previous,
                targets,
            ).contains(previous[i].path),
        forall|k: int|
            0 <= k < removed_paths(previous, targets).len() ==> !in_targets(
                targets,
                #[trigger] removed_paths(previous, targets)[k],
            ),
    decreases previous.len(),
{
    let pred = |p: Seq<char>| !in_targets(targets, p);
    let ps = previous.map_values(|e: EntryView| e.path);
    if previous.len() == 0 {
        reveal(Seq::filter);
        assert(ps =~= Seq::<Seq<char>>::empty());
    } else {
        let q = previous.drop_last();
        lemma_removed_paths_are_missing(q, targets);
        let qs = q.map_values(|e: EntryView| e.path);
        assert(ps =~= qs.push(previous.last().path));
        qs.lemma_filter_push(previous.last().path, pred);
        let r = removed_paths(previous, targets);
        let rq = removed_paths(q, targets);
        if in_targets(targets, previous.last().path) {
            assert(r =~= rq);
        } else {
            assert(r =~= rq.push(previous.last().path));
        }
        assert forall|i: int| 0 <= i < previous.len() && !in_targets(targets, (#[trigger] previous[i]).path) implies r.contains(
            previous[i].path,
        ) by {
            if i < q.len() {
                assert(q[i] == previous[i]);
                assert(!in_targets(targets, q[i].path));
                let k = choose|k: int| 0 <= k < rq.len() && rq[k] == q[i].path;
                assert(r[k] == rq[k]);
            } else {
                assert(r[r.len() - 1] == previous[i].path);
            }
        }
        assert forall|k: int| 0 <= k < r.len() implies !in_targets(targets, #[trigger] r[k]) by {
            if k < rq.len() {
                assert(r[k] == rq[k]);
            }
        }
    }
}

/// The staged paths that the checked-out tree lacks.
pub fn checkout_removals(previous: &Index, targets: &Vec<TreeEntry>) -> (r: Vec<String>)
    ensures
        strings_view(r@) == removed_paths(previous@, targets@.map_values(|e: TreeEntry| e@)),
{
    let es = previous.entries();
    let ghost ev = es@.map_values(|e: IndexEntry| e@);
    let ghost tv = targets@.map_values(|e: TreeEntry| e@);
    let mut out: Vec<String> = Vec::new();
    let mut i: usize = 0;
    assert(ev.take(0) =~= Seq::<EntryView>::empty());
    while i < es.len()
        invariant
            i <= es@.len(),
            ev == es@.map_values(|e: IndexEntry| e@),
            ev == previous@,
            tv == targets@.map_values(|e: TreeEntry| e@),
            strings_view(out@) == removed_paths(ev.take(i as int), tv),
        decreases es@.len() - i,
    {
        let p = &es[i].path;
        let pc = chars_of(p.as_str());
        let mut found = false;
        let mut j: usize = 0;
        while j < targets.len()
            invariant
                j <= targets@.len(),
                tv == targets@.map_values(|e: TreeEntry| e@),
                pc@ == p@,
                found == exists|k: int| 0 <= k < j && (#[trigger] tv[k]).path == p@,
            decreases targets@.len() - j,
        {
            if chars_eq(chars_of(targets[j].path.as_str()).as_slice(), pc.as_slice()) {
                assert(tv[j as int].path == p@);
                found = true;
            }
            proof {
                if !found {
                    assert forall|k: int| 0 <= k < j + 1 implies (#[trigger] tv[k]).path != p@ by {
                        if k == j {
                            assert(tv[k] == targets@[k]@);
                        }
                    }
                }
            }
            j = j + 1;
        }
        let ghost before = out@;
        if !found {
            out.push(p.clone());
        }
        proof {
            assert(ev[i as int] == es@[i as int]@);
            assert(ev.take(i + 1).drop_last() =~= ev.take(i as int));
            assert(ev.take(i + 1).last().path == p@);
            assert(strings_view(out@) =~= removed_paths(ev.take(i + 1), tv));
        }
        i = i + 1;
    }
    assert(ev.take(i as int) =~= ev);
    out
}

/// What `checkout` writes to `HEAD`: a symbolic ref when the target is a
/// branch, else the id it resolved to, with a final newline.
pub open spec fn checkout_head_text(target: Seq<char>, branches: Seq<Seq<char>>, sha: Seq<char>) -> Seq<char> {
    if branches.contains(target) {
        "ref: refs/heads/"@ + target + "\n"@
    } else {
        sha + "\n"@
    }
}

/// The new content of `HEAD` after checking out `target`.
pub fn checkout_head(target: &str, branches: &Vec<String>, sha: &str) -> (r: String)
    ensures
        r@ == checkout_head_text(target@, strings_view(branches@), sha@),
{
    let ghost bv = strings_view(branches@);
    let tc = chars_of(target);
    let mut found = false;
    let mut j: usize = 0;
    while j < branches.len()
        invariant
            j <= branches@.len(),
            bv == strings_view(branches@),
            tc@ == target@,
            found == exists|k: int| 0 <= k < j && bv[k] == target@,
        decreases branches@.len() - j,
    {
        if chars_eq(chars_of(branches[j].as_str()).as_slice(), tc.as_slice()) {
            assert(bv[j as int] == target@);
            found = true;
        }
        proof {
            if !found {
                assert forall|k: int| 0 <= k < j + 1 implies bv[k] != target@ by {
                    if k == j {
                        assert(bv[k] == branches@[k]@);
                    }
                }
            }
        }
        j = j + 1;
    }
    let mut out: Vec<char> = Vec::new();
    if found {
        push_str(&mut out, "ref: refs/heads/");
        push_str(&mut out, target);
    } else {
        push_str(&mut out, sha);
    }
    push_str(&mut out, "\n");
    proof {
        if found {
            let k = choose|k: int| 0 <= k < j && bv[k] == target@;
            assert(bv.contains(target@));
        } else {
            assert(!bv.contains(target@));
        }
    }
    string_of(out.as_slice())
}

/// The remote that `fetch`, `pull` and `push` use: the one named, else
/// `origin`.
pub fn remote_name(remote: Option<&str>) -> (r: String)
    ensures
        r@ == match remote {
            Some(x) => x@,
            None => "origin"@,
        },
{
    match remote {
        Some(x) => string_of(chars_of(x).as_slice()),
        None => string_of(chars_of("origin").as_slice()),
    }
}

/// The branch that `pull` and `push` use: the one named, else the current
/// branch, else `master`.
pub fn branch_name(branch: Option<&str>, current: Option<&str>) -> (r: String)
    ensures
        r@ == match branch {
            Some(b) => b@,
            None => match current {
                Some(c) => c@,
                None => "master"@,
            },
        },
{
    match branch {
        Some(b) => string_of(chars_of(b).as_slice()),
        None => match current {
            Some(c) => string_of(chars_of(c).as_slice()),
            None => string_of(chars_of("master").as_slice()),
        },
    }
}

/// The id `tag` records: the target resolved as a ref, else the target as
/// given, else what `HEAD` resolves to.
pub fn tag_target(target: Option<&str>, resolved: Option<&str>, head: Option<&str>) -> (r: Option<String>)
    ensures
        match r {
            Some(s) => Some(s@),
            None => None::<Seq<char>>,
        } == match target {
            Some(t) => match resolved {
                Some(x) => Some(x@),
                None => Some(t@),
            },
            None => match head {
                Some(h) => Some(h@),
                None => None,
            },
        },
{
    match target {
        Some(t) => match resolved {
            Some(x) => Some(string_of(chars_of(x).as_slice())),
            None => Some(string_of(chars_of(t).as_slice())),
        },
        None => match head {
            Some(h) => Some(string_of(chars_of(h).as_slice())),
            None => None,
        },
    }
}

/// Checking out a branch makes it the current branch: the `HEAD` that
/// `checkout` writes names it (for a name without surrounding whitespace).
pub proof fn lemma_checkout_sets_branch(target: Seq<char>, branches: Seq<Seq<char>>, sha: Seq<char>)
    requires
        branches.contains(target),
        trim(target) == target,
    ensures
        branch_of_head(checkout_head_text(target, branches, sha)) == Some(target),
{
    reveal_strlit("ref: refs/heads/");
    reveal_strlit("\n");
    let h = checkout_head_text(target, branches, sha);
    assert(h == "ref: refs/heads/"@ + target + "\n"@);
    assert(h.take(16) =~= "ref: refs/heads/"@);
    assert(h.skip(16) =~= Seq::<char>::empty() + target + "\n"@);
    lemma_trim_padded(Seq::empty(), target, "\n"@);
}

proof fn lemma_word_end_is(s: Seq<char>, i: int, j: int)
    requires
        0 <= i <= j <= s.len(),
        forall|k: int| i <= k < j ==> !is_ws(#[trigger] s[k]),
        j == s.len() || is_ws(s[j]),
    ensures
        word_end(s, i) == j,
    decreases j - i,
{
    if i < j {
        lemma_word_end_is(s, i + 1, j);
    }
}

/// The entry that `reflog` shows for a log holding one line that
/// `append_reflog` wrote: the first seven bytes of the new id, position 0
/// and the message; for non-empty ids without whitespace and a message
/// without `\n` that does not end with `\r` (nothing is shown where the new
/// id has fewer than seven bytes).
pub proof fn lemma_reflog_shows_update(old: Seq<char>, new: Seq<char>, ts: nat, message: Seq<char>)
    requires
        old.len() > 0,
        new.len() > 0,
        forall|i: int| 0 <= i < old.len() ==> !is_ws(#[trigger] old[i]),
        forall|i: int| 0 <= i < new.len() ==> !is_ws(#[trigger] new[i]),
        plain_line(message),
    ensures
        reflog_from(text_lines(reflog_line_text(old, new, ts, message)), 0) == match byte_prefix(new, 7) {
            Some(p) => (p + " HEAD@{"@ + dec_text(0) + "}: "@ + message + "\n"@, true),
            None => (Seq::<char>::empty(), false),
        },
{
    reveal_strlit(" ");
    reveal_strlit(" Yasir <yasir@example.com> ");
    reveal_strlit(" +0000\t");
    reveal_strlit(" +0000");
    reveal_strlit("\n");
    let id_part = " Yasir <yasir@example.com> "@ + dec_text(ts) + " +0000"@;
    let meta = old + " "@ + new + id_part;
    let line = meta + seq!['\t'] + message;
    assert(reflog_line_text(old, new, ts, message) =~= line + seq!['\n']);
    // The log has this one line.
    assert(plain_line(line)) by {
        assert forall|i: int| 0 <= i < line.len() implies line[i] != '\n' by {
            if i >= meta.len() + 1 {
                assert(line[i] == message[i - meta.len() - 1]);
            } else if i == meta.len() {
            } else if i < old.len() {
                assert(line[i] == old[i]);
            } else if i == old.len() {
            } else if i < old.len() + 1 + new.len() {
                assert(line[i] == new[i - old.len() - 1]);
            } else {
                assert(line[i] == id_part[i - old.len() - 1 - new.len()]);
                lemma_id_part_plain(ts, i - old.len() - 1 - new.len());
            }
        }
        if message.len() > 0 {
            assert(line.last() == message.last());
        } else {
            assert(line.last() == '\t');
        }
    }
    lemma_lines_prefix(seq![line], Seq::empty());
    reveal_with_fuel(lines_text, 2);
    assert(lines_text(seq![line]) + Seq::<char>::empty() =~= line + seq!['\n']);
    assert(text_lines(Seq::<char>::empty()) =~= Seq::<Seq<char>>::empty());
    let ls = text_lines(reflog_line_text(old, new, ts, message));
    assert(ls =~= seq![line]);
    // The first tab ends the meta part.
    assert forall|j: int| 0 <= j < meta.len() implies line[j] != '\t' by {
        assert(line[j] == meta[j]);
        if j < old.len() {
            assert(meta[j] == old[j]);
        } else if j == old.len() {
        } else if j < old.len() + 1 + new.len() {
            assert(meta[j] == new[j - old.len() - 1]);
        } else {
            assert(meta[j] == id_part[j - old.len() - 1 - new.len()]);
            lemma_id_part_plain(ts, j - old.len() - 1 - new.len());
        }
    }
    assert(line[meta.len() as int] == '\t');
    lemma_find_char_is(line, 0, '\t', meta.len() as int);
    assert(line.take(meta.len() as int) =~= meta);
    assert(line.skip(meta.len() as int + 1) =~= message);
    // The second word of the meta part is the new id.
    let a = old.len() as int;
    let b = a + 1 + new.len();
    assert forall|k: int| 0 <= k < a implies !is_ws(#[trigger] meta[k]) by {
        assert(meta[k] == old[k]);
    }
    assert(is_ws(meta[a]));
    lemma_word_end_is(meta, 0, a);
    assert forall|k: int| a + 1 <= k < b implies !is_ws(#[trigger] meta[k]) by {
        assert(meta[k] == new[k - a - 1]);
    }
    assert(meta[b] == ' ');
    lemma_word_end_is(meta, a + 1, b);
    assert(words_from(meta, 0) == seq![meta.subrange(0, a)] + words_from(meta, a));
    assert(words_from(meta, a) == words_from(meta, a + 1));
    assert(words_from(meta, a + 1) == seq![meta.subrange(a + 1, b)] + words_from(meta, b));
    assert(meta.subrange(a + 1, b) =~= new);
    assert(second_word(meta) == new);
    assert(reflog_from(ls, 1) == (Seq::<char>::empty(), true));
    match byte_prefix(new, 7) {
        Some(p) => {
            let t = p + " HEAD@{"@ + dec_text(0) + "}: "@ + message + "\n"@;
            assert(reflog_entry_text(line, 0) == Some(t));
            assert(t + Seq::<char>::empty() =~= t);
        },
        None => {
            assert(reflog_entry_text(line, 0) is None);
        },
    }
}

/// The identity and time part of a reflog line holds no `\n` and no tab.
proof fn lemma_id_part_plain(ts: nat, i: int)
    requires
        0 <= i < (" Yasir <yasir@example.com> "@ + dec_text(ts) + " +0000"@).len(),
    ensures
        (" Yasir <yasir@example.com> "@ + dec_text(ts) + " +0000"@)[i] != '\n',
        (" Yasir <yasir@example.com> "@ + dec_text(ts) + " +0000"@)[i] != '\t',
{
    reveal_strlit(" Yasir <yasir@example.com> ");
    reveal_strlit(" +0000");
    let pre = " Yasir <yasir@example.com> "@;
    let d = dec_text(ts);
    let suf = " +0000"@;
    let all = pre + d + suf;
    lemma_dec_text_digits(ts);
    if i < pre.len() {
        assert(all[i] == pre[i]);
    } else if i < pre.len() + d.len() {
        assert(all[i] == d[i - pre.len()]);
    } else {
        assert(all[i] == suf[i - pre.len() - d.len()]);
    }
}

/// What `add` does with one path it was given.
pub enum AddStep {
    /// The file exists: hash and stage it.
    Stage,
    /// The file is gone but was staged: its entry was removed.
    Removed,
    /// The file is gone and was not staged: `add` stops with
    /// `fatal: pathspec '...' did not match any files`.
    NoMatch,
}

/// Decides what `add` does with `path`, given whether the file exists:
/// stage an existing file; remove the entry of a missing staged file;
/// refuse a path that is neither. Only a removal changes the index.
pub fn add_step(index: &mut Index, path: &str, exists: bool) -> (r: AddStep)
    ensures
        exists ==> r is Stage && final(index)@ == old(index)@,
        !exists && lookup(old(index)@, path@) is Some ==> r is Removed && final(index)@ == remove_path(
            old(index)@,
            path@,
        ),
        !exists && lookup(old(index)@, path@) is None ==> r is NoMatch && final(index)@ == old(index)@,
{
    if exists {
        return AddStep::Stage;
    }
    if index.contains(path) {
        index.remove(path);
        AddStep::Removed
    } else {
        AddStep::NoMatch
    }
}

/// What `commit` does: nothing, or store a commit object, point a ref at
/// it and print a summary line.
pub enum CommitPlan {
    /// Nothing to commit: no object is stored and no ref or log changes.
    Nothing,
    /// The commit to store, the ref to update to its id, and the line to
    /// print (`None` where the id is too short for one).
    Record { object: LooseObject, ref_name: String, summary: Option<String> },
}

/// Decides what `commit` does with the tree just written for the index:
/// nothing when the parent's tree is that tree (or, without a parent, when
/// nothing is staged); else a commit of that tree on the parent, made at
/// `timestamp`, recorded on the current branch (or `HEAD`).
pub fn commit_plan(
    tree_sha: &str,
    parent: Option<&str>,
    parent_tree: Option<&str>,
    index_empty: bool,
    branch: Option<&str>,
    message: &str,
    timestamp: u64,
) -> (r: CommitPlan)
    ensures
        (r is Nothing) == (if parent is Some {
            parent_tree matches Some(t) && t@ == tree_sha@
        } else {
            index_empty
        }),
        r matches CommitPlan::Record { object, ref_name, summary } ==> {
            let text = encode_utf8(commit_text(tree_sha@, match parent {
                Some(p) => Some(p@),
                None => None,
            }, message@, timestamp as nat));
            let bv = match branch {
                Some(b) => Some(b@),
                None => None,
            };
            &&& object.id@ == sha1_digest(object_frame("commit"@, text))
            &&& object.sha@ == hex_text(object.id@)
            &&& loose_object(object.compressed@) == Some(("commit"@, text))
            &&& ref_name@ == head_ref_of(bv)
            &&& (summary is Some <==> commit_summary_text(bv, object.sha@, message@) is Some)
            &&& (summary matches Some(t) ==> commit_summary_text(bv, object.sha@, message@) == Some(t@))
        },
{
    if nothing_to_commit(parent.is_some(), parent_tree, tree_sha, index_empty) {
        return CommitPlan::Nothing;
    }
    let object = commit_object(tree_sha, parent, message, timestamp);
    let ref_name = head_ref_name(branch);
    let summary = commit_summary(branch, object.sha.as_str(), message);
    CommitPlan::Record { object, ref_name, summary }
}

} // verus!
