//! Writing the staged entries as a hierarchy of tree objects.

use crate::bytes::{find_byte, find_from, lemma_find_from_none, push_all};
use crate::digest::sha1_digest;
use crate::hexenc::hex_text;
use crate::index::{entry_key, sorted_entries, EntryView, Index, IndexEntry};
use crate::object::{encode_object, lemma_object_parts_frame, object_frame, object_parts, LooseObject};
use crate::order::{bytes_lt, compare_bytes, lemma_lt_asymmetric, Order3};
use crate::tree::{
    item_entry, item_well_formed, lemma_octal_digits, lemma_tree_roundtrip, octal, push_octal,
    tree_bytes, tree_entries, tree_item_bytes, TreeEntryView, TreeItem, TreeItemView,
};
use crate::text::lossy_text;
use crate::zlib::{zlib_compress, zlib_decompress};
use vstd::prelude::*;
use vstd::utf8::*;

verus! {

broadcast use vstd::string::group_string_axioms;

/// A staged file seen from one directory: its path relative to that
/// directory, its mode and its blob id.
pub struct Leaf {
    pub rel: Vec<u8>,
    pub mode: u32,
    pub id: [u8; 20],
}

/// The mathematical value of a leaf.
pub struct LeafView {
    pub rel: Seq<u8>,
    pub mode: u32,
    pub id: Seq<u8>,
}

impl View for Leaf {
    type V = LeafView;

    open spec fn view(&self) -> LeafView {
        LeafView { rel: self.rel@, mode: self.mode, id: self.id@ }
    }
}

/// The leaf of an index entry at the top of the work tree.
pub open spec fn leaf_of(e: EntryView) -> LeafView {
    LeafView { rel: encode_utf8(e.path), mode: e.mode, id: e.sha1 }
}

/// A subdirectory's name and the leaves below it, in index order.
pub type GroupView = (Seq<u8>, Seq<LeafView>);

/// `gs` (kept in name order) with `c` added under directory `d`: appended to
/// that directory's leaves, or in a new group put in its place by name.
pub open spec fn add_to_group(gs: Seq<GroupView>, d: Seq<u8>, c: LeafView) -> Seq<GroupView>
    decreases gs.len(),
{
    if gs.len() == 0 {
        seq![(d, seq![c])]
    } else if bytes_lt(d, gs[0].0) {
        seq![(d, seq![c])] + gs
    } else if d == gs[0].0 {
        seq![(d, gs[0].1.push(c))] + gs.drop_first()
    } else {
        seq![gs[0]] + add_to_group(gs.drop_first(), d, c)
    }
}

/// One directory level of `es`: the subdirectories (name order, each with
/// the rest of its leaves' paths after the first `/`) and the files directly
/// in it (index order).
pub open spec fn split_level(es: Seq<LeafView>) -> (Seq<GroupView>, Seq<LeafView>)
    decreases es.len(),
{
    if es.len() == 0 {
        (Seq::empty(), Seq::empty())
    } else {
        let (gs, fs) = split_level(es.drop_last());
        let e = es.last();
        match find_from(e.rel, 0, 47u8) {
            Some(k) => (
                add_to_group(gs, e.rel.take(k), LeafView { rel: e.rel.skip(k + 1), mode: e.mode, id: e.id }),
                fs,
            ),
            None => (gs, fs.push(e)),
        }
    }
}

/// The mode text of a subdirectory entry.
pub open spec fn dir_mode() -> Seq<u8> {
    seq![52u8, 48u8, 48u8, 48u8, 48u8]
}

/// The tree items of files: octal mode, name, blob id.
pub open spec fn file_items(fs: Seq<LeafView>) -> Seq<TreeItemView> {
    fs.map_values(|f: LeafView| TreeItemView { mode: octal(f.mode as nat), name: f.rel, id: f.id })
}

/// The bytes by which a tree orders an item: its name, followed by a `/`
/// for a subdirectory.
pub open spec fn item_key(it: TreeItemView) -> Seq<u8> {
    if it.mode == dir_mode() {
        it.name.push(47u8)
    } else {
        it.name
    }
}

/// The ordering bytes of an item (see `item_key`).
fn sort_key(it: &TreeItem) -> (r: Vec<u8>)
    ensures
        r@ == item_key(it@),
{
    let mut r = copy_bytes(it.name.as_slice());
    let m = &it.mode;
    let is_dir = m.len() == 5 && m[0] == 52u8 && m[1] == 48u8 && m[2] == 48u8 && m[3] == 48u8 && m[4] == 48u8;
    assert(is_dir <==> it.mode@ == dir_mode()) by {
        if it.mode@ == dir_mode() {
            assert(m@[0] == 52u8 && m@[1] == 48u8 && m@[2] == 48u8 && m@[3] == 48u8 && m@[4] == 48u8);
        }
        if is_dir {
            assert(it.mode@ =~= dir_mode());
        }
    }
    if is_dir {
        r.push(47u8);
    }
    r
}

/// `s` with `x` put after every item whose key does not sort after it.
pub open spec fn insert_stable(s: Seq<TreeItemView>, x: TreeItemView) -> Seq<TreeItemView>
    decreases s.len(),
{
    if s.len() == 0 {
        seq![x]
    } else if bytes_lt(item_key(x), item_key(s.last())) {
        insert_stable(s.drop_last(), x).push(s.last())
    } else {
        s.push(x)
    }
}

/// The items in name order, items with equal names kept in their order.
pub open spec fn sort_items(s: Seq<TreeItemView>) -> Seq<TreeItemView>
    decreases s.len(),
{
    if s.len() == 0 {
        s
    } else {
        insert_stable(sort_items(s.drop_last()), s.last())
    }
}

/// The id of the tree that the leaves `es` make, at most `fuel` levels deep.
pub open spec fn tree_id(es: Seq<LeafView>, fuel: nat) -> Seq<u8>
    decreases fuel, 1nat,
{
    sha1_digest(tree_frame(es, fuel))
}

/// The framed bytes of that tree: its subdirectories (written first, each
/// as a tree of its own) and its files, sorted by name.
pub open spec fn tree_frame(es: Seq<LeafView>, fuel: nat) -> Seq<u8>
    decreases fuel, 0nat,
{
    let (gs, fs) = split_level(es);
    let items = if fuel == 0 {
        file_items(fs)
    } else {
        dir_items(gs, (fuel - 1) as nat) + file_items(fs)
    };
    object_frame("tree"@, tree_bytes(sort_items(items)))
}

/// The tree items of subdirectories, each naming the tree of its leaves.
pub open spec fn dir_items(gs: Seq<GroupView>, fuel: nat) -> Seq<TreeItemView>
    decreases fuel, gs.len() + 1,
{
    if gs.len() == 0 {
        Seq::empty()
    } else {
        dir_items(gs.drop_last(), fuel).push(
            TreeItemView { mode: dir_mode(), name: gs.last().0, id: tree_id(gs.last().1, fuel) },
        )
    }
}

/// The framed trees written for `es`, subtrees first (depth first, in name
/// order), the tree of `es` itself last.
pub open spec fn tree_frames(es: Seq<LeafView>, fuel: nat) -> Seq<Seq<u8>>
    decreases fuel, 1nat,
{
    let (gs, fs) = split_level(es);
    if fuel == 0 {
        seq![tree_frame(es, fuel)]
    } else {
        dir_frames(gs, (fuel - 1) as nat).push(tree_frame(es, fuel))
    }
}

/// The framed trees written for subdirectories, in name order.
pub open spec fn dir_frames(gs: Seq<GroupView>, fuel: nat) -> Seq<Seq<u8>>
    decreases fuel, gs.len() + 1,
{
    if gs.len() == 0 {
        Seq::empty()
    } else {
        dir_frames(gs.drop_last(), fuel) + tree_frames(gs.last().1, fuel)
    }
}

/// `o` is the stored form of the framed object `frame`: named by the
/// SHA-1 of the frame, holding its zlib form, which decompresses back to it.
pub open spec fn encodes(o: LooseObject, frame: Seq<u8>) -> bool {
    &&& o.id@ == sha1_digest(frame)
    &&& o.sha@ == hex_text(o.id@)
    &&& o.compressed@ == zlib_compress(frame)
    &&& zlib_decompress(o.compressed@) == Some(frame)
}

/// `objs` are the stored forms of `frames`, one for one.
pub open spec fn encodes_all(objs: Seq<LooseObject>, frames: Seq<Seq<u8>>) -> bool {
    &&& objs.len() == frames.len()
    &&& forall|i: int| 0 <= i < objs.len() ==> encodes(#[trigger] objs[i], frames[i])
}

/// The longest path, in bytes: no tree is deeper than this.
pub open spec fn max_rel_len(es: Seq<LeafView>) -> nat
    decreases es.len(),
{
    if es.len() == 0 {
        0
    } else {
        let m = max_rel_len(es.drop_last());
        if es.last().rel.len() > m {
            es.last().rel.len()
        } else {
            m
        }
    }
}

/// The trees that `write_index_tree` writes: the root id (hex) and the
/// objects, subtrees before the trees that name them.
pub struct TreeWrite {
    pub root: String,
    pub objects: Vec<LooseObject>,
}

fn copy_bytes(v: &[u8]) -> (r: Vec<u8>)
    ensures
        r@ == v@,
{
    let mut r: Vec<u8> = Vec::new();
    push_all(&mut r, v);
    r
}

proof fn lemma_insert_stable_at(s: Seq<TreeItemView>, x: TreeItemView, j: int)
    requires
        0 <= j <= s.len(),
        forall|k: int| j <= k < s.len() ==> bytes_lt(item_key(x), item_key(#[trigger] s[k])),
        j == 0 || !bytes_lt(item_key(x), item_key(s[j - 1])),
    ensures
        insert_stable(s, x) == s.insert(j, x),
    decreases s.len(),
{
    if s.len() == 0 {
        assert(s.insert(j, x) =~= seq![x]);
    } else if bytes_lt(item_key(x), item_key(s.last())) {
        let p = s.drop_last();
        assert forall|k: int| j <= k < p.len() implies bytes_lt(item_key(x), item_key(#[trigger] p[k])) by {
            assert(p[k] == s[k]);
        }
        if j > 0 {
            assert(p[j - 1] == s[j - 1]);
        }
        lemma_insert_stable_at(p, x, j);
        assert(p.insert(j, x).push(s.last()) =~= s.insert(j, x));
    } else {
        assert(s.push(x) =~= s.insert(j, x));
    }
}

/// Puts `x` into sorted `out` after every item whose key does not sort after it.
fn insert_item(out: &mut Vec<TreeItem>, x: TreeItem)
    ensures
        final(out)@.map_values(|t: TreeItem| t@) == insert_stable(
            old(out)@.map_values(|t: TreeItem| t@),
            x@,
        ),
{
    let ghost s = out@.map_values(|t: TreeItem| t@);
    let xk = sort_key(&x);
    let mut j = out.len();
    while j > 0
        invariant
            j <= out@.len(),
            out@.map_values(|t: TreeItem| t@) == s,
            xk@ == item_key(x@),
            forall|k: int| j <= k < s.len() ==> bytes_lt(item_key(x@), item_key(#[trigger] s[k])),
        ensures
            j <= out@.len(),
            out@.map_values(|t: TreeItem| t@) == s,
            forall|k: int| j <= k < s.len() ==> bytes_lt(item_key(x@), item_key(#[trigger] s[k])),
            j == 0 || !bytes_lt(item_key(x@), item_key(s[j - 1])),
        decreases j,
    {
        assert(out@[j - 1]@ == s[j - 1]);
        let yk = sort_key(&out[j - 1]);
        match compare_bytes(xk.as_slice(), yk.as_slice()) {
            Order3::Less => {
                j = j - 1;
            },
            _ => {
                break;
            },
        }
    }
    proof {
        lemma_insert_stable_at(s, x@, j as int);
    }
    out.insert(j, x);
    assert(out@.map_values(|t: TreeItem| t@) =~= s.insert(j as int, x@));
}

/// Sorts items by key, keeping items with equal keys in their order.
fn sort_tree_items(items: Vec<TreeItem>) -> (r: Vec<TreeItem>)
    ensures
        r@.map_values(|t: TreeItem| t@) == sort_items(items@.map_values(|t: TreeItem| t@)),
{
    let ghost src = items@.map_values(|t: TreeItem| t@);
    let n = items.len();
    let mut rest = items;
    let mut rev: Vec<TreeItem> = Vec::new();
    while rest.len() > 0
        invariant
            rest@.len() + rev@.len() == n,
            src.len() == n,
            forall|i: int| 0 <= i < rest@.len() ==> (#[trigger] rest@[i])@ == src[i],
            forall|i: int| 0 <= i < rev@.len() ==> (#[trigger] rev@[i])@ == src[n - 1 - i],
        decreases rest@.len(),
    {
        let x = rest.pop().unwrap();
        rev.push(x);
    }
    let mut out: Vec<TreeItem> = Vec::new();
    let mut k: usize = 0;
    assert(out@.map_values(|t: TreeItem| t@) =~= sort_items(src.take(0)));
    while rev.len() > 0
        invariant
            rev@.len() + k == n,
            src.len() == n,
            forall|i: int| 0 <= i < rev@.len() ==> (#[trigger] rev@[i])@ == src[n - 1 - i],
            out@.map_values(|t: TreeItem| t@) == sort_items(src.take(k as int)),
        decreases rev@.len(),
    {
        let x = rev.pop().unwrap();
        assert(x@ == src[k as int]);
        insert_item(&mut out, x);
        assert(src.take(k + 1).drop_last() =~= src.take(k as int));
        k = k + 1;
    }
    assert(src.take(n as int) =~= src);
    out
}

/// The group values of exec groups.
pub open spec fn groups_view(gs: Seq<(Vec<u8>, Vec<Leaf>)>) -> Seq<GroupView> {
    gs.map_values(|g: (Vec<u8>, Vec<Leaf>)| (g.0@, g.1@.map_values(|l: Leaf| l@)))
}

/// The values of leaves.
pub open spec fn leaves_view(ls: Seq<Leaf>) -> Seq<LeafView> {
    ls.map_values(|l: Leaf| l@)
}

proof fn lemma_add_to_group_at(gs: Seq<GroupView>, d: Seq<u8>, c: LeafView, i: int)
    requires
        0 <= i <= gs.len(),
        forall|j: int| 0 <= j < i ==> !bytes_lt(d, #[trigger] gs[j].0) && d != gs[j].0,
        i < gs.len() ==> bytes_lt(d, gs[i].0) || d == gs[i].0,
    ensures
        add_to_group(gs, d, c) == (if i < gs.len() && d == gs[i].0 {
            gs.update(i, (d, gs[i].1.push(c)))
        } else {
            gs.insert(i, (d, seq![c]))
        }),
    decreases gs.len(),
{
    if gs.len() == 0 {
        assert(gs.insert(i, (d, seq![c])) =~= seq![(d, seq![c])]);
    } else if i == 0 {
        if d == gs[0].0 {
            crate::order::lemma_lt_irreflexive(d);
            assert(gs.update(0, (d, gs[0].1.push(c))) =~= seq![(d, gs[0].1.push(c))] + gs.drop_first());
        } else {
            assert(gs.insert(0, (d, seq![c])) =~= seq![(d, seq![c])] + gs);
        }
    } else {
        let t = gs.drop_first();
        assert forall|j: int| 0 <= j < i - 1 implies !bytes_lt(d, #[trigger] t[j].0) && d != t[j].0 by {
            assert(t[j] == gs[j + 1]);
        }
        assert(!bytes_lt(d, gs[0].0) && d != gs[0].0);
        lemma_add_to_group_at(t, d, c, i - 1);
        if i < gs.len() && d == gs[i].0 {
            assert(gs.update(i, (d, gs[i].1.push(c))) =~= seq![gs[0]] + t.update(i - 1, (d, t[i - 1].1.push(c))));
        } else {
            assert(gs.insert(i, (d, seq![c])) =~= seq![gs[0]] + t.insert(i - 1, (d, seq![c])));
        }
    }
}

/// Adds leaf `c` under directory `d`.
fn add_leaf_to_groups(gs: &mut Vec<(Vec<u8>, Vec<Leaf>)>, d: Vec<u8>, c: Leaf)
    ensures
        groups_view(final(gs)@) == add_to_group(groups_view(old(gs)@), d@, c@),
{
    let ghost g0 = groups_view(gs@);
    let mut i: usize = 0;
    while i < gs.len()
        invariant
            i <= gs@.len(),
            groups_view(gs@) == g0,
            forall|j: int| 0 <= j < i ==> !bytes_lt(d@, #[trigger] g0[j].0) && d@ != g0[j].0,
        ensures
            i <= gs@.len(),
            groups_view(gs@) == g0,
            forall|j: int| 0 <= j < i ==> !bytes_lt(d@, #[trigger] g0[j].0) && d@ != g0[j].0,
            i < gs@.len() ==> bytes_lt(d@, g0[i as int].0) || d@ == g0[i as int].0,
        decreases gs@.len() - i,
    {
        assert(g0[i as int].0 == gs@[i as int].0@);
        match compare_bytes(d.as_slice(), gs[i].0.as_slice()) {
            Order3::Greater => {
                proof {
                    crate::order::lemma_lt_asymmetric(d@, g0[i as int].0);
                }
                i = i + 1;
            },
            _ => {
                break;
            },
        }
    }
    proof {
        lemma_add_to_group_at(g0, d@, c@, i as int);
    }
    if i < gs.len() && compare_bytes(d.as_slice(), gs[i].0.as_slice()) == Order3::Equal {
        let mut group = gs.remove(i);
        let ghost before = group.1@;
        group.1.push(c);
        assert(group.1@.map_values(|l: Leaf| l@) =~= before.map_values(|l: Leaf| l@).push(c@));
        gs.insert(i, group);
        assert(groups_view(gs@) =~= g0.update(i as int, (d@, g0[i as int].1.push(c@))));
    } else {
        let mut v: Vec<Leaf> = Vec::new();
        v.push(c);
        assert(v@.map_values(|l: Leaf| l@) =~= seq![c@]);
        gs.insert(i, (d, v));
        assert(groups_view(gs@) =~= g0.insert(i as int, (d@, seq![c@])));
    }
}

/// Splits leaves into the subdirectories and files of one level.
fn split_leaves(leaves: &Vec<Leaf>) -> (r: (Vec<(Vec<u8>, Vec<Leaf>)>, Vec<Leaf>))
    ensures
        (groups_view(r.0@), leaves_view(r.1@)) == split_level(leaves_view(leaves@)),
{
    let ghost lv = leaves_view(leaves@);
    let mut gs: Vec<(Vec<u8>, Vec<Leaf>)> = Vec::new();
    let mut fs: Vec<Leaf> = Vec::new();
    let mut k: usize = 0;
    assert(groups_view(gs@) =~= Seq::<GroupView>::empty());
    assert(leaves_view(fs@) =~= Seq::<LeafView>::empty());
    while k < leaves.len()
        invariant
            k <= leaves@.len(),
            lv == leaves_view(leaves@),
            (groups_view(gs@), leaves_view(fs@)) == split_level(lv.take(k as int)),
        decreases leaves@.len() - k,
    {
        let e = &leaves[k];
        assert(lv.take(k + 1).drop_last() =~= lv.take(k as int));
        assert(lv.take(k + 1).last() == e@);
        match find_byte(e.rel.as_slice(), 0, 47u8) {
            Some(pos) => {
                assert(pos < e.rel.len());
                let d = crate::bytes::copy_range(e.rel.as_slice(), 0, pos);
                let rest = crate::bytes::copy_range(e.rel.as_slice(), pos + 1, e.rel.len());
                assert(d@ == e.rel@.take(pos as int));
                assert(rest@ == e.rel@.skip(pos + 1));
                add_leaf_to_groups(&mut gs, d, Leaf { rel: rest, mode: e.mode, id: e.id });
            },
            None => {
                let ghost before = fs@;
                fs.push(Leaf { rel: copy_bytes(e.rel.as_slice()), mode: e.mode, id: e.id });
                assert(leaves_view(fs@) =~= leaves_view(before).push(e@));
            },
        }
        k = k + 1;
    }
    assert(lv.take(k as int) =~= lv);
    (gs, fs)
}

proof fn lemma_tree_bytes_push(s: Seq<TreeItemView>, i: int)
    requires
        0 <= i < s.len(),
    ensures
        tree_bytes(s.take(i + 1)) == tree_bytes(s.take(i)) + tree_item_bytes(s[i].mode, s[i].name, s[i].id),
    decreases i,
{
    if i == 0 {
        assert(s.take(1).drop_first() =~= Seq::<TreeItemView>::empty());
        assert(s.take(0) =~= Seq::<TreeItemView>::empty());
        assert(tree_bytes(Seq::<TreeItemView>::empty()) == Seq::<u8>::empty());
        assert(s.take(1)[0] == s[0]);
        assert(tree_bytes(s.take(1)) =~= tree_item_bytes(s[0].mode, s[0].name, s[0].id));
    } else {
        let t = s.drop_first();
        lemma_tree_bytes_push(t, i - 1);
        assert(s.take(i + 1).drop_first() =~= t.take(i));
        assert(s.take(i).drop_first() =~= t.take(i - 1));
        assert(s.take(i + 1)[0] == s[0]);
        assert(s.take(i)[0] == s[0]);
        assert(t[i - 1] == s[i]);
        assert(tree_bytes(s.take(i + 1)) =~= tree_bytes(s.take(i)) + tree_item_bytes(s[i].mode, s[i].name, s[i].id));
    }
}

/// The stored form of tree items, one after another.
fn tree_body(items: &Vec<TreeItem>) -> (r: Vec<u8>)
    ensures
        r@ == tree_bytes(items@.map_values(|t: TreeItem| t@)),
{
    let ghost s = items@.map_values(|t: TreeItem| t@);
    let mut out: Vec<u8> = Vec::new();
    let mut i: usize = 0;
    assert(s.take(0) =~= Seq::<TreeItemView>::empty());
    while i < items.len()
        invariant
            i <= items@.len(),
            s == items@.map_values(|t: TreeItem| t@),
            out@ == tree_bytes(s.take(i as int)),
        decreases items@.len() - i,
    {
        let it = &items[i];
        assert(s[i as int] == it@);
        push_all(&mut out, it.mode.as_slice());
        out.push(32u8);
        push_all(&mut out, it.name.as_slice());
        out.push(0u8);
        push_all(&mut out, &it.id);
        proof {
            lemma_tree_bytes_push(s, i as int);
        }
        assert(out@ =~= tree_bytes(s.take(i + 1)));
        i = i + 1;
    }
    assert(s.take(i as int) =~= s);
    out
}

/// `new` is `old` followed by the stored forms of `frames`.
pub open spec fn appended(old: Seq<LooseObject>, new: Seq<LooseObject>, frames: Seq<Seq<u8>>) -> bool {
    &&& new.len() == old.len() + frames.len()
    &&& forall|i: int| 0 <= i < old.len() ==> new[i] == old[i]
    &&& forall|i: int| 0 <= i < frames.len() ==> encodes(#[trigger] new[old.len() + i], frames[i])
}

proof fn lemma_appended_trans(
    a: Seq<LooseObject>,
    b: Seq<LooseObject>,
    c: Seq<LooseObject>,
    f1: Seq<Seq<u8>>,
    f2: Seq<Seq<u8>>,
)
    requires
        appended(a, b, f1),
        appended(b, c, f2),
    ensures
        appended(a, c, f1 + f2),
{
    assert forall|i: int| 0 <= i < (f1 + f2).len() implies encodes(#[trigger] c[a.len() + i], (f1 + f2)[i]) by {
        if i < f1.len() {
            assert(c[a.len() + i] == b[a.len() + i]);
        } else {
            assert(c[a.len() + i] == c[b.len() + (i - f1.len())]);
        }
    }
}

fn dir_mode_bytes() -> (r: Vec<u8>)
    ensures
        r@ == dir_mode(),
{
    let mut r: Vec<u8> = Vec::new();
    r.push(52u8);
    r.push(48u8);
    r.push(48u8);
    r.push(48u8);
    r.push(48u8);
    assert(r@ =~= dir_mode());
    r
}

/// Writes the tree of `leaves` and its subtrees, appending their objects.
fn build_tree(leaves: &Vec<Leaf>, fuel: usize, objects: &mut Vec<LooseObject>) -> (id: [u8; 20])
    ensures
        id@ == tree_id(leaves_view(leaves@), fuel as nat),
        appended(old(objects)@, final(objects)@, tree_frames(leaves_view(leaves@), fuel as nat)),
    decreases fuel,
{
    let ghost lv = leaves_view(leaves@);
    let ghost start = objects@;
    let (groups, files) = split_leaves(leaves);
    let ghost gv = groups_view(groups@);
    let ghost fv = leaves_view(files@);
    let mut items: Vec<TreeItem> = Vec::new();
    let ghost mut dirs: Seq<TreeItemView> = Seq::empty();
    if fuel > 0 {
        let mut g: usize = 0;
        assert(items@.map_values(|t: TreeItem| t@) =~= dir_items(gv.take(0), (fuel - 1) as nat));
        assert(dir_frames(gv.take(0), (fuel - 1) as nat) =~= Seq::<Seq<u8>>::empty());
        while g < groups.len()
            invariant
                fuel > 0,
                g <= groups@.len(),
                gv == groups_view(groups@),
                items@.map_values(|t: TreeItem| t@) == dir_items(gv.take(g as int), (fuel - 1) as nat),
                appended(start, objects@, dir_frames(gv.take(g as int), (fuel - 1) as nat)),
            decreases groups@.len() - g,
        {
            let ghost mid = objects@;
            let sub = build_tree(&groups[g].1, fuel - 1, objects);
            let ghost it = TreeItemView { mode: dir_mode(), name: gv[g as int].0, id: sub@ };
            assert(gv[g as int].1 == leaves_view(groups@[g as int].1@));
            let ghost before = items@;
            items.push(TreeItem { mode: dir_mode_bytes(), name: copy_bytes(groups[g].0.as_slice()), id: sub });
            proof {
                assert(gv.take(g + 1).drop_last() =~= gv.take(g as int));
                assert(gv.take(g + 1).last() == gv[g as int]);
                assert(items@.map_values(|t: TreeItem| t@) =~= before.map_values(|t: TreeItem| t@).push(it));
                lemma_appended_trans(start, mid, objects@, dir_frames(gv.take(g as int), (fuel - 1) as nat), tree_frames(gv[g as int].1, (fuel - 1) as nat));
            }
            g = g + 1;
        }
        assert(gv.take(g as int) =~= gv);
        proof {
            dirs = dir_items(gv, (fuel - 1) as nat);
        }
    } else {
        assert(items@.map_values(|t: TreeItem| t@) =~= Seq::<TreeItemView>::empty());
    }
    let ghost mid_objects = objects@;
    let mut f: usize = 0;
    assert(file_items(fv.take(0)) =~= Seq::<TreeItemView>::empty());
    assert(dirs + file_items(fv.take(0)) =~= dirs);
    while f < files.len()
        invariant
            f <= files@.len(),
            fv == leaves_view(files@),
            items@.map_values(|t: TreeItem| t@) == dirs + file_items(fv.take(f as int)),
        decreases files@.len() - f,
    {
        let leaf = &files[f];
        let mut mode: Vec<u8> = Vec::new();
        push_octal(&mut mode, leaf.mode);
        let ghost before = items@;
        items.push(TreeItem { mode, name: copy_bytes(leaf.rel.as_slice()), id: leaf.id });
        assert(fv[f as int] == leaf@);
        assert(items@.map_values(|t: TreeItem| t@) =~= before.map_values(|t: TreeItem| t@).push(
            TreeItemView { mode: octal(leaf.mode as nat), name: leaf.rel@, id: leaf.id@ },
        ));
        assert(file_items(fv.take(f + 1)) =~= file_items(fv.take(f as int)).push(
            TreeItemView { mode: octal(leaf.mode as nat), name: leaf.rel@, id: leaf.id@ },
        ));
        assert(items@.map_values(|t: TreeItem| t@) =~= dirs + file_items(fv.take(f + 1)));
        f = f + 1;
    }
    assert(fv.take(f as int) =~= fv);
    let sorted = sort_tree_items(items);
    let body = tree_body(&sorted);
    let obj = encode_object("tree", body.as_slice());
    assert(obj.id@ == sha1_digest(tree_frame(lv, fuel as nat)));
    let id = obj.id;
    let ghost before_push = objects@;
    objects.push(obj);
    proof {
        let frames = tree_frames(lv, fuel as nat);
        if fuel > 0 {
            assert(frames == dir_frames(gv, (fuel - 1) as nat).push(tree_frame(lv, fuel as nat)));
        } else {
            assert(frames == seq![tree_frame(lv, fuel as nat)]);
            assert(before_push == start);
        }
        assert forall|i: int| 0 <= i < frames.len() implies encodes(#[trigger] objects@[start.len() + i], frames[i]) by {
            if i < frames.len() - 1 {
                assert(objects@[start.len() + i] == before_push[start.len() + i]);
            }
        }
    }
    id
}

/// The leaves of index entries.
pub open spec fn index_leaves(s: Seq<EntryView>) -> Seq<LeafView> {
    s.map_values(|e: EntryView| leaf_of(e))
}

/// Writes the staged entries as trees: each directory becomes a tree whose
/// entries are its subdirectories (mode `40000`) and files (octal mode),
/// sorted by name (a subdirectory as if its name ended in `/`); the result
/// names the root tree and lists every tree
/// object, subtrees first, ready to be stored.
pub fn write_index_tree(index: &Index) -> (r: TreeWrite)
    ensures
        r.root@ == hex_text(
            tree_id(index_leaves(index@), max_rel_len(index_leaves(index@))),
        ),
        encodes_all(
            r.objects@,
            tree_frames(index_leaves(index@), max_rel_len(index_leaves(index@))),
        ),
{
    let entries = index.entries();
    let ghost ev = index@;
    let mut leaves: Vec<Leaf> = Vec::new();
    let mut max_len: usize = 0;
    let mut i: usize = 0;
    assert(index_leaves(ev).take(0) =~= Seq::<LeafView>::empty());
    while i < entries.len()
        invariant
            i <= entries@.len(),
            entries@.map_values(|e: IndexEntry| e@) == ev,
            leaves_view(leaves@) == index_leaves(ev).take(i as int),
            max_len == max_rel_len(index_leaves(ev).take(i as int)),
        decreases entries@.len() - i,
    {
        let e = &entries[i];
        let rel = copy_bytes(e.path.as_str().as_bytes());
        assert(ev[i as int] == e@);
        let l = rel.len();
        let ghost before = leaves@;
        leaves.push(Leaf { rel, mode: e.mode, id: e.sha1 });
        proof {
            let lv = index_leaves(ev);
            assert(lv.take(i + 1).drop_last() =~= lv.take(i as int));
            assert(lv.take(i + 1).last() == lv[i as int]);
            assert(leaves_view(leaves@) =~= lv.take(i + 1));
        }
        if l > max_len {
            max_len = l;
        }
        i = i + 1;
    }
    assert(index_leaves(ev).take(i as int) =~= index_leaves(ev));
    let mut objects: Vec<LooseObject> = Vec::new();
    let root_id = build_tree(&leaves, max_len, &mut objects);
    let root = crate::hexenc::encode_hex(&root_id);
    proof {
        let frames = tree_frames(index_leaves(ev), max_len as nat);
        assert forall|k: int| 0 <= k < objects@.len() implies encodes(#[trigger] objects@[k], frames[k]) by {
            assert(objects@[0 + k] == objects@[k]);
        }
    }
    TreeWrite { root, objects }
}

/// Items whose keys strictly increase stay in place when sorted.
proof fn lemma_sort_sorted(items: Seq<TreeItemView>)
    requires
        forall|i: int, j: int| 0 <= i < j < items.len() ==> bytes_lt(
            item_key(#[trigger] items[i]),
            item_key(#[trigger] items[j]),
        ),
    ensures
        sort_items(items) == items,
    decreases items.len(),
{
    if items.len() > 0 {
        let p = items.drop_last();
        assert forall|i: int, j: int| 0 <= i < j < p.len() implies bytes_lt(
            item_key(#[trigger] p[i]),
            item_key(#[trigger] p[j]),
        ) by {
            assert(p[i] == items[i] && p[j] == items[j]);
        }
        lemma_sort_sorted(p);
        let x = items.last();
        if p.len() > 0 {
            assert(bytes_lt(item_key(p.last()), item_key(x))) by {
                assert(p.last() == items[items.len() - 2]);
            }
            lemma_lt_asymmetric(item_key(p.last()), item_key(x));
        }
        assert(p.push(x) =~= items);
    }
}

/// Leaves with no `/` in their paths all lie at the top level.
proof fn lemma_split_flat(ls: Seq<LeafView>)
    requires
        forall|i: int, k: int| 0 <= i < ls.len() && 0 <= k < ls[i].rel.len() ==> #[trigger] ls[i].rel[k] != 47u8,
    ensures
        split_level(ls) == (Seq::<GroupView>::empty(), ls),
    decreases ls.len(),
{
    if ls.len() > 0 {
        let p = ls.drop_last();
        assert forall|i: int, k: int| 0 <= i < p.len() && 0 <= k < p[i].rel.len() implies #[trigger] p[i].rel[k]
            != 47u8 by {
            assert(p[i] == ls[i]);
        }
        lemma_split_flat(p);
        let e = ls.last();
        assert forall|k: int| 0 <= k < e.rel.len() implies e.rel[k] != 47u8 by {
            assert(ls[ls.len() - 1].rel[k] != 47u8);
        }
        lemma_find_from_none(e.rel, 0, 47u8);
        assert(p.push(e) =~= ls);
    }
}

/// The entry that reading a tree gives for a staged file at the top: its
/// octal mode, its path and its hex id.
pub open spec fn top_entry(e: EntryView) -> TreeEntryView {
    TreeEntryView { mode: lossy_text(octal(e.mode as nat)), path: e.path, sha1: hex_text(e.sha1) }
}

/// For an index whose paths hold no `/` (files at the top of the work
/// tree) and no NUL, the root tree that `write_index_tree` writes reads
/// back as a tree whose entries are the staged files in index order, each
/// with its octal mode, its path and its hex id.
pub proof fn lemma_flat_tree_reads_back(s: Seq<EntryView>)
    requires
        sorted_entries(s),
        forall|i: int| 0 <= i < s.len() ==> (#[trigger] s[i]).sha1.len() == 20,
        forall|i: int, k: int| 0 <= i < s.len() && 0 <= k < encode_utf8(s[i].path).len() ==> #[trigger] encode_utf8(s[i].path)[k] != 47u8 && encode_utf8(s[i].path)[k] != 0u8,
        forall|i: int| 0 <= i < s.len() ==> octal((#[trigger] s[i]).mode as nat) != dir_mode(),
    ensures
        ({
            let frame = tree_frame(index_leaves(s), max_rel_len(index_leaves(s)));
            match object_parts(frame) {
                Some((t, body)) => t == "tree"@ && tree_entries(body) == Some(
                    s.map_values(|e: EntryView| top_entry(e)),
                ),
                None => false,
            }
        }),
{
    reveal_strlit("tree");
    let ls = index_leaves(s);
    let n = max_rel_len(ls);
    assert forall|i: int, k: int| 0 <= i < ls.len() && 0 <= k < ls[i].rel.len() implies #[trigger] ls[i].rel[k]
        != 47u8 by {
        assert(ls[i].rel == encode_utf8(s[i].path));
    }
    lemma_split_flat(ls);
    let items = file_items(ls);
    if n > 0 {
        assert(dir_items(Seq::empty(), (n - 1) as nat) =~= Seq::<TreeItemView>::empty());
        assert(Seq::<TreeItemView>::empty() + items =~= items);
    }
    assert forall|i: int, j: int| 0 <= i < j < items.len() implies bytes_lt(
        item_key(#[trigger] items[i]),
        item_key(#[trigger] items[j]),
    ) by {
        assert(item_key(items[i]) == entry_key(s[i]));
        assert(item_key(items[j]) == entry_key(s[j]));
    }
    lemma_sort_sorted(items);
    let body = tree_bytes(items);
    assert(tree_frame(ls, n) == object_frame("tree"@, body));
    assert("tree"@ =~= seq!['t', 'r', 'e', 'e']);
    lemma_object_parts_frame("tree"@, body);
    assert forall|k: int| 0 <= k < items.len() implies item_well_formed(#[trigger] items[k]) by {
        let e = s[k];
        lemma_octal_digits(e.mode as nat);
        assert(items[k].mode == octal(e.mode as nat));
        assert(items[k].name == encode_utf8(e.path));
        assert forall|j: int| 0 <= j < items[k].name.len() implies items[k].name[j] != 0u8 by {
            assert(encode_utf8(s[k].path)[j] != 0u8);
        }
    }
    lemma_tree_roundtrip(items);
    assert forall|k: int| 0 <= k < items.len() implies item_entry(#[trigger] items[k]) == top_entry(s[k]) by {
        let e = s[k];
        encode_utf8_valid_utf8(e.path);
        encode_utf8_decode_utf8(e.path);
        assert(lossy_text(encode_utf8(e.path)) == e.path);
    }
    assert(items.map_values(|it: TreeItemView| item_entry(it)) =~= s.map_values(|e: EntryView| top_entry(e)));
}

} // verus!
