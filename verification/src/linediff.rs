//! The text of `diff` for one tracked file: a header and the line changes
//! between the staged blob and the work-tree file, computed by `similar`.

use crate::hexenc::{encode_hex, hex_text};
use crate::text::{chars_eq, chars_of, from_utf8_lossy, lossy_text, push_chars, string_of};
use vstd::prelude::*;

verus! {

broadcast use vstd::string::group_string_axioms;

/// The changes `similar` finds between two texts, line by line (its
/// default algorithm, no deadline), in order: each as a tag (0 unchanged,
/// 1 deleted, 2 inserted) and the text of the line as the change displays
/// it.
pub uninterp spec fn line_changes(old: Seq<char>, new: Seq<char>) -> Seq<(u8, Seq<char>)>;

/// The values of changes.
pub open spec fn changes_view(v: Seq<(u8, String)>) -> Seq<(u8, Seq<char>)> {
    v.map_values(|c: (u8, String)| (c.0, c.1@))
}

/// `similar::TextDiff::from_lines(old, new).iter_all_changes()`, each
/// change turned into its tag's number and its `Display` text (the line,
/// with a newline added when the line has none).
#[verifier::external_body]
fn text_line_diff(old: &str, new: &str) -> (r: Vec<(u8, String)>)
    ensures
        changes_view(r@) == line_changes(old@, new@),
{
    let diff = ::similar::TextDiff::from_lines(old, new);
    diff.iter_all_changes().map(|c| {
        let tag = match c.tag() {
            ::similar::ChangeTag::Equal => 0u8,
            ::similar::ChangeTag::Delete => 1u8,
            ::similar::ChangeTag::Insert => 2u8,
        };
        (tag, c.to_string())
    }).collect()
}

/// The colored marker before a change: red `-` for a deletion, green `+`
/// for an insertion, a space for an unchanged line.
pub open spec fn change_sign(tag: u8) -> Seq<char> {
    if tag == 1 {
        "\x1b[31m-"@
    } else if tag == 2 {
        "\x1b[32m+"@
    } else {
        " "@
    }
}

/// The changes as `diff` prints them: marker, text, color reset.
pub open spec fn changes_text(cs: Seq<(u8, Seq<char>)>) -> Seq<char>
    decreases cs.len(),
{
    if cs.len() == 0 {
        Seq::empty()
    } else {
        changes_text(cs.drop_last()) + change_sign(cs.last().0) + cs.last().1 + "\x1b[0m"@
    }
}

/// The header of a file's diff: the `diff --git` line, an `index` line with
/// the first seven digits of the staged id, and the `---`/`+++` lines.
pub open spec fn diff_header(path: Seq<char>, id: Seq<u8>) -> Seq<char> {
    "diff --git a/"@ + path + " b/"@ + path + "\n"@ + "index "@ + hex_text(id).take(7)
        + "..0000000 100644\n"@ + "--- a/"@ + path + "\n"@ + "+++ b/"@ + path + "\n"@
}

/// The diff of a file: its header and its changes.
pub open spec fn file_diff_text(path: Seq<char>, id: Seq<u8>, cs: Seq<(u8, Seq<char>)>) -> Seq<char> {
    diff_header(path, id) + changes_text(cs)
}

fn push_str(out: &mut Vec<char>, s: &str)
    ensures
        final(out)@ == old(out)@ + s@,
{
    let cs = chars_of(s);
    push_chars(out, cs.as_slice());
}

fn sign(tag: u8) -> (r: &'static str)
    ensures
        r@ == change_sign(tag),
{
    if tag == 1 {
        "\x1b[31m-"
    } else if tag == 2 {
        "\x1b[32m+"
    } else {
        " "
    }
}

/// The diff text of `path`, staged as blob `id`, for the given changes.
pub fn diff_output(path: &str, id: &[u8; 20], changes: &Vec<(u8, String)>) -> (r: String)
    ensures
        r@ == file_diff_text(path@, id@, changes_view(changes@)),
{
    let hex = encode_hex(id);
    let hc = chars_of(hex.as_str());
    let mut out: Vec<char> = Vec::new();
    push_str(&mut out, "diff --git a/");
    push_str(&mut out, path);
    push_str(&mut out, " b/");
    push_str(&mut out, path);
    push_str(&mut out, "\n");
    push_str(&mut out, "index ");
    push_chars(&mut out, &hc.as_slice()[0..7]);
    push_str(&mut out, "..0000000 100644\n");
    push_str(&mut out, "--- a/");
    push_str(&mut out, path);
    push_str(&mut out, "\n");
    push_str(&mut out, "+++ b/");
    push_str(&mut out, path);
    push_str(&mut out, "\n");
    assert(hc@.subrange(0, 7) =~= hex_text(id@).take(7));
    assert(out@ =~= diff_header(path@, id@));
    let ghost head = out@;
    let ghost cv = changes_view(changes@);
    let mut i: usize = 0;
    assert(cv.take(0) =~= Seq::<(u8, Seq<char>)>::empty());
    while i < changes.len()
        invariant
            i <= changes@.len(),
            cv == changes_view(changes@),
            out@ == head + changes_text(cv.take(i as int)),
        decreases changes@.len() - i,
    {
        let ghost before = out@;
        push_str(&mut out, sign(changes[i].0));
        push_str(&mut out, changes[i].1.as_str());
        push_str(&mut out, "\x1b[0m");
        proof {
            assert(cv.take(i + 1).drop_last() =~= cv.take(i as int));
            assert(cv.take(i + 1).last() == (changes@[i as int].0, changes@[i as int].1@));
            assert(out@ =~= head + changes_text(cv.take(i + 1)));
        }
        i = i + 1;
    }
    assert(cv.take(i as int) =~= cv);
    string_of(out.as_slice())
}

/// What `diff` prints for the tracked file `path`, staged as blob `id`
/// holding `staged`, whose work-tree content is `work`: nothing when the two
/// read the same as text; else the header and the line changes.
pub fn file_diff(path: &str, id: &[u8; 20], staged: &[u8], work: &[u8]) -> (r: Option<String>)
    ensures
        r is None <==> lossy_text(staged@) == lossy_text(work@),
        r matches Some(t) ==> t@ == file_diff_text(
            path@,
            id@,
            line_changes(lossy_text(staged@), lossy_text(work@)),
        ),
{
    let old = from_utf8_lossy(staged);
    let new = from_utf8_lossy(work);
    if chars_eq(chars_of(old.as_str()).as_slice(), chars_of(new.as_str()).as_slice()) {
        return None;
    }
    let changes = text_line_diff(old.as_str(), new.as_str());
    Some(diff_output(path, id, &changes))
}

} // verus!
