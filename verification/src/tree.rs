//! Tree objects: entries of `"<mode> <name>\0"` followed by a 20-byte id.

use crate::bytes::{find_byte, find_from, lemma_find_from_is, push_all};
use crate::hexenc::{encode_hex, hex_text};
use crate::object::decimal;
use crate::text::{from_utf8_lossy, lossy_text};
use vstd::prelude::*;
use vstd::utf8::*;

verus! {

/// One entry of a tree, read back: mode text, name and the
/// hex id of the object it names.
pub struct TreeEntry {
    pub mode: String,
    pub path: String,
    pub sha1: String,
}

/// The mathematical value of a tree entry.
pub struct TreeEntryView {
    pub mode: Seq<char>,
    pub path: Seq<char>,
    pub sha1: Seq<char>,
}

impl View for TreeEntry {
    type V = TreeEntryView;

    open spec fn view(&self) -> TreeEntryView {
        TreeEntryView { mode: self.mode@, path: self.path@, sha1: self.sha1@ }
    }
}

impl Clone for TreeEntry {
    fn clone(&self) -> (r: Self)
        ensures
            r@ == self@,
    {
        TreeEntry { mode: self.mode.clone(), path: self.path.clone(), sha1: self.sha1.clone() }
    }
}

/// The entries of tree data from position `i` on: `None` where an entry
/// lacks its space, its NUL or its 20 id bytes.
#[verifier::opaque]
pub open spec fn tree_entries_from(d: Seq<u8>, i: int) -> Option<Seq<TreeEntryView>>
    decreases d.len() - i,
{
    if i >= d.len() || i < 0 {
        Some(Seq::empty())
    } else {
        match find_from(d, i, 32u8) {
            None => None,
            Some(sp) => match find_from(d, sp + 1, 0u8) {
                None => None,
                Some(nul) => if nul + 21 > d.len() {
                    None
                } else {
                    let e = TreeEntryView {
                        mode: lossy_text(d.subrange(i, sp)),
                        path: lossy_text(d.subrange(sp + 1, nul)),
                        sha1: hex_text(d.subrange(nul + 1, nul + 21)),
                    };
                    if nul + 21 <= i {
                        None
                    } else {
                        match tree_entries_from(d, nul + 21) {
                            None => None,
                            Some(rest) => Some(seq![e] + rest),
                        }
                    }
                },
            },
        }
    }
}

/// The entries of tree data.
pub open spec fn tree_entries(d: Seq<u8>) -> Option<Seq<TreeEntryView>> {
    tree_entries_from(d, 0)
}

/// The entry whose mode starts at `i`, whose space is at `sp` and whose NUL is at `nul`.
pub open spec fn entry_view_at(d: Seq<u8>, i: int, sp: int, nul: int) -> TreeEntryView {
    TreeEntryView {
        mode: lossy_text(d.subrange(i, sp)),
        path: lossy_text(d.subrange(sp + 1, nul)),
        sha1: hex_text(d.subrange(nul + 1, nul + 21)),
    }
}

proof fn lemma_tree_end(d: Seq<u8>, i: int)
    requires
        i >= d.len(),
    ensures
        tree_entries_from(d, i) == Some(Seq::<TreeEntryView>::empty()),
{
    reveal(tree_entries_from);
}

proof fn lemma_tree_step(d: Seq<u8>, i: int, sp: int, nul: int)
    requires
        0 <= i < d.len(),
        find_from(d, i, 32u8) == Some(sp),
        find_from(d, sp + 1, 0u8) == Some(nul),
        i <= sp < nul,
        nul + 21 <= d.len(),
    ensures
        tree_entries_from(d, i) == match tree_entries_from(d, nul + 21) {
            None => None,
            Some(rest) => Some(seq![entry_view_at(d, i, sp, nul)] + rest),
        },
{
    reveal(tree_entries_from);
}

proof fn lemma_tree_fail(d: Seq<u8>, i: int)
    requires
        0 <= i < d.len(),
        find_from(d, i, 32u8) is None || (find_from(d, i, 32u8) matches Some(sp) && (find_from(
            d,
            sp + 1,
            0u8,
        ) is None || (find_from(d, sp + 1, 0u8) matches Some(nul) && nul + 21 > d.len()))),
    ensures
        tree_entries_from(d, i) is None,
{
    reveal(tree_entries_from);
}

/// The entries of tree data; `None` where the data is cut short.
pub fn parse_tree(data: &[u8]) -> (r: Option<Vec<TreeEntry>>)
    ensures
        r is Some <==> tree_entries(data@) is Some,
        r matches Some(v) ==> v@.map_values(|e: TreeEntry| e@) == tree_entries(data@).unwrap(),
{
    let mut out: Vec<TreeEntry> = Vec::new();
    let mut i: usize = 0;
    let ghost d = data@;
    assert(tree_entries_from(d, 0) == match tree_entries_from(d, 0) {
        Some(r) => Some(Seq::<TreeEntryView>::empty() + r),
        None => None,
    }) by {
        if let Some(r) = tree_entries_from(d, 0) {
            assert(Seq::<TreeEntryView>::empty() + r =~= r);
        }
    }
    while i < data.len()
        invariant
            d == data@,
            i <= data@.len(),
            tree_entries(d) == match tree_entries_from(d, i as int) {
                Some(r) => Some(out@.map_values(|e: TreeEntry| e@) + r),
                None => None,
            },
        decreases data@.len() - i,
    {
        let sp = match find_byte(data, i, 32u8) {
            Some(k) => k,
            None => {
                proof {
                    lemma_tree_fail(d, i as int);
                }
                return None;
            },
        };
        let nul = match find_byte(data, sp + 1, 0u8) {
            Some(k) => k,
            None => {
                proof {
                    lemma_tree_fail(d, i as int);
                }
                return None;
            },
        };
        if data.len() < 21 || nul > data.len() - 21 {
            proof {
                lemma_tree_fail(d, i as int);
            }
            return None;
        }
        let mode = from_utf8_lossy(&data[i..sp]);
        let path = from_utf8_lossy(&data[sp + 1..nul]);
        let sha1 = encode_hex(&data[nul + 1..nul + 21]);
        let e = TreeEntry { mode, path, sha1 };
        let ghost ev = e@;
        proof {
            lemma_tree_step(d, i as int, sp as int, nul as int);
            assert(ev == entry_view_at(d, i as int, sp as int, nul as int));
            let rest = tree_entries_from(d, nul + 21);
            if let Some(r) = rest {
                assert(out@.map_values(|e: TreeEntry| e@) + (seq![ev] + r) =~= out@.push(e).map_values(
                    |e: TreeEntry| e@,
                ) + r);
            }
        }
        out.push(e);
        i = nul + 21;
    }
    proof {
        lemma_tree_end(d, i as int);
        assert(out@.map_values(|e: TreeEntry| e@) + Seq::<TreeEntryView>::empty() =~= out@.map_values(
            |e: TreeEntry| e@,
        ));
    }
    Some(out)
}

/// The octal digits of `n`, most significant first, without leading zeros.
pub open spec fn octal(n: nat) -> Seq<u8>
    decreases n,
{
    if n < 8 {
        seq![(48 + n) as u8]
    } else {
        octal(n / 8) + seq![(48 + n % 8) as u8]
    }
}

pub proof fn lemma_octal_digits(n: nat)
    ensures
        octal(n).len() >= 1,
        forall|i: int| 0 <= i < octal(n).len() ==> 48 <= #[trigger] octal(n)[i] <= 55,
    decreases n,
{
    if n >= 8 {
        lemma_octal_digits(n / 8);
        let d = octal(n);
        assert forall|i: int| 0 <= i < d.len() implies 48 <= #[trigger] d[i] <= 55 by {
            if i < octal(n / 8).len() {
                assert(d[i] == octal(n / 8)[i]);
            }
        }
    }
}

/// Appends the octal digits of `n`.
pub fn push_octal(out: &mut Vec<u8>, n: u32)
    ensures
        final(out)@ == old(out)@ + octal(n as nat),
    decreases n,
{
    if n >= 8 {
        push_octal(out, n / 8);
    }
    out.push((48 + n % 8) as u8);
    assert(final(out)@ =~= old(out)@ + octal(n as nat));
}

/// One entry as a tree stores it: mode text, a space, the name, a NUL and
/// the raw id.
pub open spec fn tree_item_bytes(mode: Seq<u8>, name: Seq<u8>, id: Seq<u8>) -> Seq<u8> {
    mode + seq![32u8] + name + seq![0u8] + id
}

/// An item of a tree being written: mode text, name bytes and raw id.
pub struct TreeItem {
    pub mode: Vec<u8>,
    pub name: Vec<u8>,
    pub id: [u8; 20],
}

/// The mathematical value of a tree item.
pub struct TreeItemView {
    pub mode: Seq<u8>,
    pub name: Seq<u8>,
    pub id: Seq<u8>,
}

impl View for TreeItem {
    type V = TreeItemView;

    open spec fn view(&self) -> TreeItemView {
        TreeItemView { mode: self.mode@, name: self.name@, id: self.id@ }
    }
}

/// The stored form of a sequence of items, one after another.
pub open spec fn tree_bytes(items: Seq<TreeItemView>) -> Seq<u8>
    decreases items.len(),
{
    if items.len() == 0 {
        Seq::empty()
    } else {
        tree_item_bytes(items[0].mode, items[0].name, items[0].id) + tree_bytes(items.drop_first())
    }
}

/// The entry that `read_tree` gives for a stored item.
pub open spec fn item_entry(it: TreeItemView) -> TreeEntryView {
    TreeEntryView {
        mode: lossy_text(it.mode),
        path: lossy_text(it.name),
        sha1: hex_text(it.id),
    }
}

/// An item that reads back as written: a mode of one or more bytes with no
/// space or NUL, a name without NUL, and a 20-byte id.
pub open spec fn item_well_formed(it: TreeItemView) -> bool {
    &&& it.mode.len() > 0
    &&& forall|j: int| 0 <= j < it.mode.len() ==> it.mode[j] != 32u8 && it.mode[j] != 0u8
    &&& forall|j: int| 0 <= j < it.name.len() ==> it.name[j] != 0u8
    &&& it.id.len() == 20
}

proof fn lemma_item_bytes(it: TreeItemView)
    ensures
        ({
            let ib = tree_item_bytes(it.mode, it.name, it.id);
            let m = it.mode.len() as int;
            let n = it.name.len() as int;
            &&& ib.len() == m + 2 + n + it.id.len()
            &&& forall|t: int| 0 <= t < m ==> ib[t] == it.mode[t]
            &&& ib[m] == 32u8
            &&& forall|t: int| 0 <= t < n ==> ib[m + 1 + t] == it.name[t]
            &&& ib[m + 1 + n] == 0u8
            &&& forall|t: int| 0 <= t < it.id.len() ==> ib[m + 2 + n + t] == it.id[t]
        }),
{
}

proof fn lemma_item_at(d: Seq<u8>, i: int, it: TreeItemView)
    requires
        0 <= i,
        i + tree_item_bytes(it.mode, it.name, it.id).len() <= d.len(),
        forall|t: int|
            0 <= t < tree_item_bytes(it.mode, it.name, it.id).len() ==> d[i + t]
                == #[trigger] tree_item_bytes(it.mode, it.name, it.id)[t],
        item_well_formed(it),
    ensures
        find_from(d, i, 32u8) == Some(i + it.mode.len()),
        find_from(d, i + it.mode.len() + 1, 0u8) == Some(i + it.mode.len() + 1 + it.name.len()),
        entry_view_at(d, i, i + it.mode.len(), i + it.mode.len() + 1 + it.name.len())
            == item_entry(it),
{
    let ib = tree_item_bytes(it.mode, it.name, it.id);
    lemma_item_bytes(it);
    let m = it.mode.len() as int;
    let n = it.name.len() as int;
    let sp = i + m;
    let nul = sp + 1 + n;
    assert(d[sp] == ib[m]);
    assert forall|j: int| i <= j < sp implies d[j] != 32u8 by {
        assert(d[i + (j - i)] == ib[j - i]);
    }
    lemma_find_from_is(d, i, 32u8, sp);
    assert(d[nul] == ib[m + 1 + n]);
    assert forall|j: int| sp + 1 <= j < nul implies d[j] != 0u8 by {
        assert(d[i + (j - i)] == ib[j - i]);
        assert(ib[m + 1 + (j - sp - 1)] == it.name[j - sp - 1]);
    }
    lemma_find_from_is(d, sp + 1, 0u8, nul);
    assert(d.subrange(i, sp) =~= it.mode) by {
        assert forall|t: int| 0 <= t < m implies d.subrange(i, sp)[t] == it.mode[t] by {
            assert(d[i + t] == ib[t]);
        }
    }
    assert(d.subrange(sp + 1, nul) =~= it.name) by {
        assert forall|t: int| 0 <= t < n implies d.subrange(sp + 1, nul)[t] == it.name[t] by {
            assert(d[i + (m + 1 + t)] == ib[m + 1 + t]);
        }
    }
    assert(d.subrange(nul + 1, nul + 21) =~= it.id) by {
        assert forall|t: int| 0 <= t < 20 implies d.subrange(nul + 1, nul + 21)[t] == it.id[t] by {
            assert(d[i + (m + 2 + n + t)] == ib[m + 2 + n + t]);
        }
    }
}

proof fn lemma_tree_entries_from_roundtrip(d: Seq<u8>, i: int, items: Seq<TreeItemView>)
    requires
        0 <= i,
        i + tree_bytes(items).len() == d.len(),
        d.subrange(i, d.len() as int) == tree_bytes(items),
        forall|k: int| 0 <= k < items.len() ==> item_well_formed(#[trigger] items[k]),
    ensures
        tree_entries_from(d, i) == Some(items.map_values(|it: TreeItemView| item_entry(it))),
    decreases items.len(),
{
    if items.len() == 0 {
        lemma_tree_end(d, i);
        assert(items.map_values(|it: TreeItemView| item_entry(it)) =~= Seq::<TreeEntryView>::empty());
    } else {
        let it = items[0];
        assert(item_well_formed(it));
        let ib = tree_item_bytes(it.mode, it.name, it.id);
        let rb = tree_bytes(items.drop_first());
        assert(tree_bytes(items) == ib + rb);
        assert forall|t: int| 0 <= t < ib.len() implies d[i + t] == #[trigger] ib[t] by {
            assert(d.subrange(i, d.len() as int)[t] == d[i + t]);
            assert((ib + rb)[t] == ib[t]);
        }
        lemma_item_at(d, i, it);
        let sp = i + it.mode.len();
        let nul = sp + 1 + it.name.len();
        let next = nul + 21;
        assert(next == i + ib.len());
        lemma_tree_step(d, i, sp, nul);
        assert(d.subrange(next, d.len() as int) =~= rb) by {
            assert forall|t: int| 0 <= t < rb.len() implies d.subrange(next, d.len() as int)[t]
                == rb[t] by {
                assert(d.subrange(i, d.len() as int)[ib.len() + t] == d[next + t]);
                assert((ib + rb)[ib.len() + t] == rb[t]);
            }
        }
        let t = items.drop_first();
        assert forall|k: int| 0 <= k < t.len() implies item_well_formed(#[trigger] t[k]) by {
            assert(t[k] == items[k + 1]);
        }
        lemma_tree_entries_from_roundtrip(d, next, t);
        assert(seq![item_entry(it)] + t.map_values(|it: TreeItemView| item_entry(it))
            =~= items.map_values(|it: TreeItemView| item_entry(it)));
    }
}

/// Reading back stored tree items gives one entry per item, in order, with
/// the mode text, the name and the hex id of each.
pub proof fn lemma_tree_roundtrip(items: Seq<TreeItemView>)
    requires
        forall|k: int| 0 <= k < items.len() ==> item_well_formed(#[trigger] items[k]),
    ensures
        tree_entries(tree_bytes(items)) == Some(items.map_values(|it: TreeItemView| item_entry(it))),
{
    let d = tree_bytes(items);
    assert(d.subrange(0, d.len() as int) =~= d);
    lemma_tree_entries_from_roundtrip(d, 0, items);
}


/// A path below a directory: the name alone at the top, else the directory
/// path, a slash and the name.
pub open spec fn join_path(prefix: Seq<char>, name: Seq<char>) -> Seq<char> {
    if prefix.len() == 0 {
        name
    } else {
        prefix + seq!['/'] + name
    }
}

/// One entry of a tree seen from the top of the work tree.
pub enum LevelItem {
    /// A file: its entry, with the path from the top.
    File(TreeEntry),
    /// A subdirectory: the id of its tree and its path from the top.
    Dir { sha: String, path: String },
}

/// The item that a tree entry gives under `prefix`: a subdirectory for
/// mode `40000`, else a file.
pub open spec fn level_item_ok(item: LevelItem, prefix: Seq<char>, e: TreeEntryView) -> bool {
    if e.mode == "40000"@ {
        item matches LevelItem::Dir { sha, path } && sha@ == e.sha1 && path@ == join_path(prefix, e.path)
    } else {
        item matches LevelItem::File(f) && f.mode@ == e.mode && f.sha1@ == e.sha1 && f.path@
            == join_path(prefix, e.path)
    }
}

/// The entries of one tree as seen from the top of the work tree, in order:
/// files with their full paths, and subdirectories for the caller to read.
pub fn tree_level(prefix: &str, entries: Vec<TreeEntry>) -> (r: Vec<LevelItem>)
    ensures
        r@.len() == entries@.len(),
        forall|i: int| 0 <= i < r@.len() ==> level_item_ok(#[trigger] r@[i], prefix@, entries@[i]@),
{
    let pc = crate::text::chars_of(prefix);
    let dir_mode = crate::text::chars_of("40000");
    let mut out: Vec<LevelItem> = Vec::new();
    let mut i: usize = 0;
    while i < entries.len()
        invariant
            i <= entries@.len(),
            out@.len() == i,
            pc@ == prefix@,
            dir_mode@ == "40000"@,
            forall|j: int| 0 <= j < i ==> level_item_ok(#[trigger] out@[j], prefix@, entries@[j]@),
        decreases entries@.len() - i,
    {
        let e = &entries[i];
        let mut full: Vec<char> = Vec::new();
        if pc.len() > 0 {
            crate::text::push_chars(&mut full, pc.as_slice());
            full.push('/');
        }
        crate::text::push_chars(&mut full, crate::text::chars_of(e.path.as_str()).as_slice());
        assert(full@ =~= join_path(prefix@, e.path@));
        let path = crate::text::string_of(full.as_slice());
        let mc = crate::text::chars_of(e.mode.as_str());
        if crate::text::chars_eq(mc.as_slice(), dir_mode.as_slice()) {
            out.push(LevelItem::Dir { sha: e.sha1.clone(), path });
        } else {
            out.push(LevelItem::File(TreeEntry { mode: e.mode.clone(), path, sha1: e.sha1.clone() }));
        }
        i = i + 1;
    }
    out
}

} // verus!
