//! The `status` report: which paths are staged against `HEAD`, which
//! tracked files changed or vanished in the work tree, which are untracked,
//! and the text that lists them.

use crate::commit::strings_view;
use crate::diff::{DiffEntry, DiffView};
use crate::hexenc::hex_text;
use crate::index::{lookup, EntryView, FileStat, Index, IndexEntry};
use crate::text::{byte_suffix, chars_eq, chars_of, lines_of, lossy_text, push_chars, string_of, suffix_from, text_lines};
use vstd::prelude::*;

verus! {

broadcast use vstd::string::group_string_axioms;

/// The label printed before a staged path.
pub open spec fn staged_label(status: char) -> Seq<char> {
    if status == 'A' {
        "new file:  "@
    } else if status == 'M' {
        "modified:  "@
    } else if status == 'D' {
        "deleted:   "@
    } else {
        "unknown:   "@
    }
}

/// One line per item: the prefix, the item and the suffix.
pub open spec fn each_line(pre: Seq<char>, items: Seq<Seq<char>>, post: Seq<char>) -> Seq<char>
    decreases items.len(),
{
    if items.len() == 0 {
        Seq::empty()
    } else {
        each_line(pre, items.drop_last(), post) + pre + items.last() + post
    }
}

/// The lines that list staged changes, in green.
pub open spec fn staged_lines(ds: Seq<DiffView>) -> Seq<char>
    decreases ds.len(),
{
    if ds.len() == 0 {
        Seq::empty()
    } else {
        staged_lines(ds.drop_last()) + "\t\x1b[32m"@ + staged_label(ds.last().status) + ds.last().path
            + "\x1b[0m\n"@
    }
}

/// The staged section: heading, hint and one green line per change.
pub open spec fn staged_section(staged: Seq<DiffView>) -> Seq<char> {
    if staged.len() > 0 {
        "\nChanges to be committed:\n"@ + "  (use \"git rm --cached <file>...\" to unstage)\n"@
            + staged_lines(staged)
    } else {
        Seq::empty()
    }
}

/// The modified files: heading, hint and one red line per path.
pub open spec fn modified_section(modified: Seq<Seq<char>>) -> Seq<char> {
    if modified.len() > 0 {
        "\nChanges not staged for commit:\n"@
            + "  (use \"git add <file>...\" to update what will be committed)\n"@ + each_line(
            "\t\x1b[31mmodified:   "@,
            modified,
            "\x1b[0m\n"@,
        )
    } else {
        Seq::empty()
    }
}

/// The deleted files, under the heading of the modified ones (printed here,
/// with its own hint, when no file is modified).
pub open spec fn deleted_section(modified: Seq<Seq<char>>, deleted: Seq<Seq<char>>) -> Seq<char> {
    if deleted.len() > 0 {
        (if modified.len() == 0 {
            "\nChanges not staged for commit:\n"@
                + "  (use \"git add/rm <file>...\" to update what will be committed)\n"@
        } else {
            Seq::empty()
        }) + each_line("\t\x1b[31mdeleted:    "@, deleted, "\x1b[0m\n"@)
    } else {
        Seq::empty()
    }
}

/// The untracked files: heading, hint and one red line per path.
pub open spec fn untracked_section(untracked: Seq<Seq<char>>) -> Seq<char> {
    if untracked.len() > 0 {
        "\nUntracked files:\n"@ + "  (use \"git add <file>...\" to include in what will be committed)\n"@
            + each_line("\t\x1b[31m"@, untracked, "\x1b[0m\n"@)
    } else {
        Seq::empty()
    }
}

/// The full text of the status report: the branch (or a detached `HEAD`),
/// then the staged changes, the modified and deleted files and the
/// untracked files, each section only when it has entries, and the
/// clean-tree line when every list is empty.
pub open spec fn status_text(
    branch: Option<Seq<char>>,
    staged: Seq<DiffView>,
    modified: Seq<Seq<char>>,
    deleted: Seq<Seq<char>>,
    untracked: Seq<Seq<char>>,
) -> Seq<char> {
    "On branch "@ + (match branch {
        Some(b) => b,
        None => "HEAD (detached)"@,
    }) + "\n"@ + staged_section(staged) + modified_section(modified) + deleted_section(
        modified,
        deleted,
    ) + untracked_section(untracked) + (if staged.len() == 0 && modified.len() == 0
        && deleted.len() == 0 && untracked.len() == 0 {
        "nothing to commit, working tree clean\n"@
    } else {
        Seq::empty()
    })
}

fn push_str(out: &mut Vec<char>, s: &str)
    ensures
        final(out)@ == old(out)@ + s@,
{
    let cs = chars_of(s);
    push_chars(out, cs.as_slice());
}

fn push_each(out: &mut Vec<char>, pre: &str, items: &Vec<String>, post: &str)
    ensures
        final(out)@ == old(out)@ + each_line(pre@, strings_view(items@), post@),
{
    let ghost start = out@;
    let ghost iv = strings_view(items@);
    let mut i: usize = 0;
    assert(iv.take(0) =~= Seq::<Seq<char>>::empty());
    while i < items.len()
        invariant
            i <= items@.len(),
            iv == strings_view(items@),
            out@ == start + each_line(pre@, iv.take(i as int), post@),
        decreases items@.len() - i,
    {
        push_str(out, pre);
        push_str(out, items[i].as_str());
        push_str(out, post);
        proof {
            let t = iv.take(i + 1);
            assert(t.drop_last() =~= iv.take(i as int));
            assert(t.last() == items@[i as int]@);
            assert(out@ =~= start + each_line(pre@, t, post@));
        }
        i = i + 1;
    }
    assert(iv.take(i as int) =~= iv);
}

fn label(status: char) -> (r: &'static str)
    ensures
        r@ == staged_label(status),
{
    if status == 'A' {
        "new file:  "
    } else if status == 'M' {
        "modified:  "
    } else if status == 'D' {
        "deleted:   "
    } else {
        "unknown:   "
    }
}

fn push_staged(out: &mut Vec<char>, staged: &Vec<DiffEntry>)
    ensures
        final(out)@ == old(out)@ + staged_lines(staged@.map_values(|d: DiffEntry| d@)),
{
    let ghost start = out@;
    let ghost dv = staged@.map_values(|d: DiffEntry| d@);
    let mut i: usize = 0;
    assert(dv.take(0) =~= Seq::<DiffView>::empty());
    while i < staged.len()
        invariant
            i <= staged@.len(),
            dv == staged@.map_values(|d: DiffEntry| d@),
            out@ == start + staged_lines(dv.take(i as int)),
        decreases staged@.len() - i,
    {
        push_str(out, "\t\x1b[32m");
        push_str(out, label(staged[i].status));
        push_str(out, staged[i].path.as_str());
        push_str(out, "\x1b[0m\n");
        proof {
            let t = dv.take(i + 1);
            assert(t.drop_last() =~= dv.take(i as int));
            assert(t.last() == staged@[i as int]@);
            assert(out@ =~= start + staged_lines(t));
        }
        i = i + 1;
    }
    assert(dv.take(i as int) =~= dv);
}

/// The text that `status` prints for the given lists.
pub fn status_report(
    branch: Option<&str>,
    staged: &Vec<DiffEntry>,
    modified: &Vec<String>,
    deleted: &Vec<String>,
    untracked: &Vec<String>,
) -> (r: String)
    ensures
        r@ == status_text(
            match branch {
                Some(b) => Some(b@),
                None => None,
            },
            staged@.map_values(|d: DiffEntry| d@),
            strings_view(modified@),
            strings_view(deleted@),
            strings_view(untracked@),
        ),
{
    let ghost sv = staged@.map_values(|d: DiffEntry| d@);
    let ghost mv = strings_view(modified@);
    let ghost dv = strings_view(deleted@);
    let ghost uv = strings_view(untracked@);
    let ghost bv = match branch {
        Some(b) => Some(b@),
        None => None::<Seq<char>>,
    };
    let mut out: Vec<char> = Vec::new();
    push_str(&mut out, "On branch ");
    match branch {
        Some(b) => push_str(&mut out, b),
        None => push_str(&mut out, "HEAD (detached)"),
    }
    push_str(&mut out, "\n");
    let ghost p0 = out@;
    assert(p0 =~= "On branch "@ + (match bv {
        Some(b) => b,
        None => "HEAD (detached)"@,
    }) + "\n"@);
    if staged.len() > 0 {
        push_str(&mut out, "\nChanges to be committed:\n");
        push_str(&mut out, "  (use \"git rm --cached <file>...\" to unstage)\n");
        push_staged(&mut out, staged);
    }
    assert(out@ =~= p0 + staged_section(sv));
    let ghost p1 = out@;
    if modified.len() > 0 {
        push_str(&mut out, "\nChanges not staged for commit:\n");
        push_str(&mut out, "  (use \"git add <file>...\" to update what will be committed)\n");
        push_each(&mut out, "\t\x1b[31mmodified:   ", modified, "\x1b[0m\n");
    }
    assert(out@ =~= p1 + modified_section(mv));
    let ghost p2 = out@;
    if deleted.len() > 0 {
        if modified.len() == 0 {
            push_str(&mut out, "\nChanges not staged for commit:\n");
            push_str(&mut out, "  (use \"git add/rm <file>...\" to update what will be committed)\n");
        }
        push_each(&mut out, "\t\x1b[31mdeleted:    ", deleted, "\x1b[0m\n");
    }
    assert(out@ =~= p2 + deleted_section(mv, dv));
    let ghost p3 = out@;
    if untracked.len() > 0 {
        push_str(&mut out, "\nUntracked files:\n");
        push_str(&mut out, "  (use \"git add <file>...\" to include in what will be committed)\n");
        push_each(&mut out, "\t\x1b[31m", untracked, "\x1b[0m\n");
    }
    assert(out@ =~= p3 + untracked_section(uv));
    let ghost p4 = out@;
    let clean = staged.len() == 0 && modified.len() == 0 && deleted.len() == 0 && untracked.len() == 0;
    if clean {
        push_str(&mut out, "nothing to commit, working tree clean\n");
    }
    let ghost tail = if sv.len() == 0 && mv.len() == 0 && dv.len() == 0 && uv.len() == 0 {
        "nothing to commit, working tree clean\n"@
    } else {
        Seq::<char>::empty()
    };
    assert(out@ =~= p4 + tail);
    string_of(out.as_slice())
}

/// Every staged path as an addition: what `status` lists as staged when
/// `HEAD` names no commit yet.
pub fn all_added(index: &Index) -> (r: Vec<DiffEntry>)
    ensures
        r@.map_values(|d: DiffEntry| d@) == index@.map_values(
            |e: EntryView| DiffView { path: e.path, status: 'A' },
        ),
{
    let es = index.entries();
    let ghost ev = es@.map_values(|e: IndexEntry| e@);
    let mut out: Vec<DiffEntry> = Vec::new();
    let mut i: usize = 0;
    while i < es.len()
        invariant
            i <= es@.len(),
            ev == index@,
            ev == es@.map_values(|e: IndexEntry| e@),
            out@.map_values(|d: DiffEntry| d@) == ev.take(i as int).map_values(
                |e: EntryView| DiffView { path: e.path, status: 'A' },
            ),
        decreases es@.len() - i,
    {
        let ghost before = out@;
        let p = es[i].path.clone();
        assert(p@ == es@[i as int].path@);
        let d = DiffEntry { path: p, status: 'A' };
        out.push(d);
        proof {
            assert(out@ == before.push(d));
            assert(out@.map_values(|d: DiffEntry| d@) =~= before.map_values(|d: DiffEntry| d@).push(d@));
            assert(ev[i as int] == es@[i as int]@);
            assert(ev.take(i + 1) =~= ev.take(i as int).push(ev[i as int]));
            assert(out@.map_values(|d: DiffEntry| d@) =~= ev.take(i + 1).map_values(
                |e: EntryView| DiffView { path: e.path, status: 'A' },
            ));
        }
        i = i + 1;
    }
    assert(ev.take(i as int) =~= ev);
    out
}

/// The tree that `status` compares the index with: for a commit, the text
/// after the first five bytes of its first line; for any other object, the
/// object itself. `None` where that slice panics (no line, or a first line
/// cut inside a character or shorter than five bytes).
pub open spec fn head_tree_of(sha: Seq<char>, obj_type: Seq<char>, data: Seq<u8>) -> Option<Seq<char>> {
    if obj_type == "commit"@ {
        let lines = text_lines(lossy_text(data));
        if lines.len() == 0 {
            None
        } else {
            byte_suffix(lines[0], 5)
        }
    } else {
        Some(sha)
    }
}

/// The tree named by the object `HEAD` resolves to.
pub fn head_tree(sha: &str, obj_type: &str, data: &[u8]) -> (r: Option<String>)
    ensures
        r is Some <==> head_tree_of(sha@, obj_type@, data@) is Some,
        r matches Some(t) ==> head_tree_of(sha@, obj_type@, data@) == Some(t@),
{
    let tc = chars_of(obj_type);
    let commit_c = chars_of("commit");
    if chars_eq(tc.as_slice(), commit_c.as_slice()) {
        let content = crate::text::from_utf8_lossy(data);
        let cs = chars_of(content.as_str());
        let lines = lines_of(cs.as_slice());
        if lines.len() == 0 {
            return None;
        }
        let first = string_of(lines[0].as_slice());
        suffix_from(first.as_str(), 5)
    } else {
        Some(string_of(chars_of(sha).as_slice()))
    }
}

/// How a file of the work tree stands against the index, before its
/// content is read.
pub enum FileCheck {
    /// No entry for the path.
    Untracked,
    /// The entry's stat data still describes the file.
    Unchanged,
    /// The stat data differ: the file's blob id must be compared.
    Rehash,
}

/// The stat data of the entry still describe the file (the comparison of
/// `matches_stat`).
pub open spec fn stat_matches(e: EntryView, st: FileStat) -> bool {
    e.mtime_s == st.mtime_s && e.mtime_n == st.mtime_n && e.size == st.size && e.ino == st.ino
        && e.dev == st.dev
}

/// How the work-tree file `path`, with stat data `stat`, stands.
pub fn check_file(index: &Index, path: &str, stat: &FileStat) -> (r: FileCheck)
    ensures
        match lookup(index@, path@) {
            None => r is Untracked,
            Some(e) => if stat_matches(e, *stat) {
                r is Unchanged
            } else {
                r is Rehash
            },
        },
{
    match index.get(path) {
        None => FileCheck::Untracked,
        Some(e) => if e.matches_stat(stat.mtime_s, stat.mtime_n, stat.size, stat.ino, stat.dev) {
            FileCheck::Unchanged
        } else {
            FileCheck::Rehash
        },
    }
}

/// The file at `path` is modified: it is staged and the hex id of its
/// current content differs from the staged one.
pub fn is_modified(index: &Index, path: &str, worktree_sha: &str) -> (r: bool)
    ensures
        r == (lookup(index@, path@) matches Some(e) && worktree_sha@ != hex_text(e.sha1)),
{
    match index.get(path) {
        None => false,
        Some(e) => {
            let staged = crate::hexenc::encode_hex(&e.sha1);
            let a = chars_of(worktree_sha);
            let b = chars_of(staged.as_str());
            !chars_eq(a.as_slice(), b.as_slice())
        },
    }
}

/// The first line of the status report.
pub open spec fn branch_line(branch: Option<Seq<char>>) -> Seq<char> {
    "On branch "@ + (match branch {
        Some(b) => b,
        None => "HEAD (detached)"@,
    }) + "\n"@
}

/// `status` reports a clean tree (its branch line, then `nothing to
/// commit, working tree clean`) exactly when nothing is staged, modified,
/// deleted or untracked.
pub proof fn lemma_status_clean_iff_nothing_changed(
    branch: Option<Seq<char>>,
    staged: Seq<DiffView>,
    modified: Seq<Seq<char>>,
    deleted: Seq<Seq<char>>,
    untracked: Seq<Seq<char>>,
)
    ensures
        (status_text(branch, staged, modified, deleted, untracked) == branch_line(branch)
            + "nothing to commit, working tree clean\n"@) <==> (staged.len() == 0 && modified.len() == 0
            && deleted.len() == 0 && untracked.len() == 0),
{
    reveal_strlit("nothing to commit, working tree clean\n");
    reveal_strlit("\nChanges to be committed:\n");
    reveal_strlit("\nChanges not staged for commit:\n");
    reveal_strlit("\nUntracked files:\n");
    let bl = branch_line(branch);
    let clean = "nothing to commit, working tree clean\n"@;
    let secs = staged_section(staged) + modified_section(modified) + deleted_section(modified, deleted)
        + untracked_section(untracked);
    let all_empty = staged.len() == 0 && modified.len() == 0 && deleted.len() == 0 && untracked.len() == 0;
    let t = status_text(branch, staged, modified, deleted, untracked);
    if all_empty {
        assert(secs =~= Seq::<char>::empty());
        assert(t =~= bl + clean);
    } else {
        assert(t =~= bl + secs);
        assert(secs.len() > 0 && secs[0] == '\n') by {
            if staged.len() > 0 {
                assert(staged_section(staged)[0] == '\n');
            } else if modified.len() > 0 {
                assert(modified_section(modified)[0] == '\n');
            } else if deleted.len() > 0 {
                assert(deleted_section(modified, deleted)[0] == '\n');
            } else {
                assert(untracked_section(untracked)[0] == '\n');
            }
        }
        assert((bl + clean)[bl.len() as int] == 'n');
        assert(t[bl.len() as int] == '\n');
    }
}

} // verus!
