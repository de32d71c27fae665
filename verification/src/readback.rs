//! Reading back what `write_index_tree` writes: the files that a recursive
//! read of its root tree finds, from a store that holds the objects it
//! returned, are the staged files.

use crate::bytes::{find_from, lemma_find_from_spec};
use crate::object::{lemma_loose_object_roundtrip, loose_object, object_frame, LooseObject};
use crate::diff::{deleted_paths, lemma_matching_tree_no_changes, map_lookup, staged_changes, DiffView};
use crate::index::{entry_key, lookup, sorted_entries, EntryView};
use crate::order::{bytes_lt, lemma_lt_irreflexive};
use crate::write_tree::{
    add_to_group, item_key, dir_frames, dir_items, dir_mode, encodes, encodes_all, file_items, index_leaves, leaf_of, tree_frame, insert_stable, max_rel_len, sort_items,
    split_level, tree_frames, tree_id, GroupView, LeafView,
};
use crate::digest::sha1_digest;
use crate::hexenc::hex_text;
use crate::zlib::zlib_decompress;
use crate::tree::TreeItemView;
use crate::tree::{join_path, tree_entries, TreeEntryView};
use crate::tree::{item_entry, item_well_formed, tree_bytes, lemma_octal_digits, lemma_tree_roundtrip, octal};
use crate::text::{ascii_chars, lemma_encode_ascii, lossy_text};
use vstd::prelude::*;
use vstd::utf8::*;

verus! {

/// A file found in a tree: its path from the top and its hex id.
pub type FoundFile = (Seq<char>, Seq<char>);

/// The files that reading the tree stored under hex id `id` finds below
/// `prefix`, as `status` collects them (a subdirectory is an entry of mode
/// `40000`, read in turn; a path is the directory's path, a slash and the
/// name): `None` where the store lacks an object, an object is not a tree
/// or does not parse, or trees nest deeper than `fuel`.
pub open spec fn tree_files(
    store: spec_fn(Seq<char>) -> Option<Seq<u8>>,
    id: Seq<char>,
    prefix: Seq<char>,
    fuel: nat,
) -> Option<Seq<FoundFile>>
    decreases fuel, 1nat, 0nat,
{
    match store(id) {
        None => None,
        Some(file) => match loose_object(file) {
            Some((t, body)) => if t == "tree"@ {
                match tree_entries(body) {
                    None => None,
                    Some(es) => entries_files(store, es, prefix, fuel),
                }
            } else {
                None
            },
            None => None,
        },
    }
}

/// The files that the entries of one tree give, in order.
pub open spec fn entries_files(
    store: spec_fn(Seq<char>) -> Option<Seq<u8>>,
    es: Seq<TreeEntryView>,
    prefix: Seq<char>,
    fuel: nat,
) -> Option<Seq<FoundFile>>
    decreases fuel, 0nat, es.len(),
{
    if es.len() == 0 {
        Some(Seq::empty())
    } else {
        match entries_files(store, es.drop_last(), prefix, fuel) {
            None => None,
            Some(acc) => {
                let e = es.last();
                let path = join_path(prefix, e.path);
                if e.mode == "40000"@ {
                    if fuel == 0 {
                        None
                    } else {
                        match tree_files(store, e.sha1, path, (fuel - 1) as nat) {
                            None => None,
                            Some(sub) => Some(acc + sub),
                        }
                    }
                } else {
                    Some(acc.push((path, e.sha1)))
                }
            },
        }
    }
}

/// Every file that entries give satisfies `ok`, when each file entry does
/// and each subdirectory reads as files that do.
proof fn lemma_entries_sound(
    store: spec_fn(Seq<char>) -> Option<Seq<u8>>,
    es: Seq<TreeEntryView>,
    prefix: Seq<char>,
    fuel: nat,
    ok: spec_fn(FoundFile) -> bool,
)
    requires
        forall|i: int|
            0 <= i < es.len() && (#[trigger] es[i]).mode != "40000"@ ==> ok(
                (join_path(prefix, es[i].path), es[i].sha1),
            ),
        forall|i: int|
            0 <= i < es.len() && (#[trigger] es[i]).mode == "40000"@ ==> fuel > 0 && (tree_files(
                store,
                es[i].sha1,
                join_path(prefix, es[i].path),
                (fuel - 1) as nat,
            ) matches Some(sub) && forall|j: int| 0 <= j < sub.len() ==> ok(#[trigger] sub[j])),
    ensures
        entries_files(store, es, prefix, fuel) matches Some(fs) && forall|j: int|
            0 <= j < fs.len() ==> ok(#[trigger] fs[j]),
    decreases es.len(),
{
    if es.len() > 0 {
        let p = es.drop_last();
        assert forall|i: int| 0 <= i < p.len() && (#[trigger] p[i]).mode != "40000"@ implies ok(
            (join_path(prefix, p[i].path), p[i].sha1),
        ) by {
            assert(p[i] == es[i]);
        }
        assert forall|i: int| 0 <= i < p.len() && (#[trigger] p[i]).mode == "40000"@ implies fuel > 0
            && (tree_files(store, p[i].sha1, join_path(prefix, p[i].path), (fuel - 1) as nat) matches Some(
            sub,
        ) && forall|j: int| 0 <= j < sub.len() ==> ok(#[trigger] sub[j])) by {
            assert(p[i] == es[i]);
        }
        lemma_entries_sound(store, p, prefix, fuel, ok);
        let acc = entries_files(store, p, prefix, fuel).unwrap();
        let e = es[es.len() - 1];
        let path = join_path(prefix, e.path);
        if e.mode == "40000"@ {
            let sub = tree_files(store, e.sha1, path, (fuel - 1) as nat).unwrap();
            let fs = acc + sub;
            assert forall|j: int| 0 <= j < fs.len() implies ok(#[trigger] fs[j]) by {
                if j < acc.len() {
                    assert(fs[j] == acc[j]);
                } else {
                    assert(fs[j] == sub[j - acc.len()]);
                }
            }
        } else {
            let fs = acc.push((path, e.sha1));
            assert forall|j: int| 0 <= j < fs.len() implies ok(#[trigger] fs[j]) by {
                if j < acc.len() {
                    assert(fs[j] == acc[j]);
                }
            }
        }
    }
}

/// A file entry's file is among the files that the entries give.
proof fn lemma_entries_has_file(
    store: spec_fn(Seq<char>) -> Option<Seq<u8>>,
    es: Seq<TreeEntryView>,
    prefix: Seq<char>,
    fuel: nat,
    i: int,
)
    requires
        entries_files(store, es, prefix, fuel) is Some,
        0 <= i < es.len(),
        es[i].mode != "40000"@,
    ensures
        exists|j: int|
            0 <= j < entries_files(store, es, prefix, fuel).unwrap().len() && #[trigger] entries_files(
                store,
                es,
                prefix,
                fuel,
            ).unwrap()[j] == (join_path(prefix, es[i].path), es[i].sha1),
    decreases es.len(),
{
    let p = es.drop_last();
    let fs = entries_files(store, es, prefix, fuel).unwrap();
    let acc = entries_files(store, p, prefix, fuel).unwrap();
    if i == es.len() - 1 {
        assert(fs == acc.push((join_path(prefix, es[i].path), es[i].sha1)));
        assert(fs[acc.len() as int] == (join_path(prefix, es[i].path), es[i].sha1));
    } else {
        assert(p[i] == es[i]);
        lemma_entries_has_file(store, p, prefix, fuel, i);
        let j = choose|j: int| 0 <= j < acc.len() && #[trigger] acc[j] == (join_path(prefix, p[i].path), p[i].sha1);
        let e = es.last();
        if e.mode == "40000"@ {
            let sub = tree_files(store, e.sha1, join_path(prefix, e.path), (fuel - 1) as nat).unwrap();
            assert(fs == acc + sub);
        } else {
            assert(fs == acc.push((join_path(prefix, e.path), e.sha1)));
        }
        assert(fs[j] == acc[j]);
    }
}

/// A file that a subdirectory entry reads as is among the files that the
/// entries give.
proof fn lemma_entries_has_sub(
    store: spec_fn(Seq<char>) -> Option<Seq<u8>>,
    es: Seq<TreeEntryView>,
    prefix: Seq<char>,
    fuel: nat,
    i: int,
    q: FoundFile,
)
    requires
        entries_files(store, es, prefix, fuel) is Some,
        0 <= i < es.len(),
        es[i].mode == "40000"@,
        fuel > 0,
        tree_files(store, es[i].sha1, join_path(prefix, es[i].path), (fuel - 1) as nat) matches Some(sub)
            && exists|k: int| 0 <= k < sub.len() && #[trigger] sub[k] == q,
    ensures
        exists|j: int|
            0 <= j < entries_files(store, es, prefix, fuel).unwrap().len() && #[trigger] entries_files(
                store,
                es,
                prefix,
                fuel,
            ).unwrap()[j] == q,
    decreases es.len(),
{
    let p = es.drop_last();
    let fs = entries_files(store, es, prefix, fuel).unwrap();
    let acc = entries_files(store, p, prefix, fuel).unwrap();
    let e = es.last();
    if i == es.len() - 1 {
        let sub = tree_files(store, e.sha1, join_path(prefix, e.path), (fuel - 1) as nat).unwrap();
        let k = choose|k: int| 0 <= k < sub.len() && #[trigger] sub[k] == q;
        assert(fs == acc + sub);
        assert(fs[acc.len() + k] == sub[k]);
    } else {
        assert(p[i] == es[i]);
        lemma_entries_has_sub(store, p, prefix, fuel, i, q);
        let j = choose|j: int| 0 <= j < acc.len() && #[trigger] acc[j] == q;
        if e.mode == "40000"@ {
            let sub = tree_files(store, e.sha1, join_path(prefix, e.path), (fuel - 1) as nat).unwrap();
            assert(fs == acc + sub);
        } else {
            assert(fs == acc.push((join_path(prefix, e.path), e.sha1)));
        }
        assert(fs[j] == acc[j]);
    }
}

/// Splitting valid UTF-8 at a slash byte: both sides are valid UTF-8 and
/// the text is the left text, a slash and the right text.
proof fn lemma_slash_split(b: Seq<u8>, k: int)
    requires
        valid_utf8(b),
        0 <= k < b.len(),
        b[k] == 47u8,
    ensures
        valid_utf8(b.take(k)),
        valid_utf8(b.skip(k + 1)),
        decode_utf8(b) == decode_utf8(b.take(k)) + seq!['/'] + decode_utf8(b.skip(k + 1)),
{
    is_char_boundary_iff_not_is_continuation_byte(b, k);
    valid_utf8_split(b, k);
    decode_utf8_split(b, k);
    let r = b.subrange(k, b.len() as int);
    assert(r[0] == 47u8);
    assert((47u8 & 0x7Fu8) == 47u8) by (bit_vector);
    assert(decode_first_scalar(r) == 47u32);
    assert(pop_first_scalar(r) =~= b.skip(k + 1));
    assert(b.take(k) =~= b.subrange(0, k));
    assert(decode_utf8(r) == seq![47u32 as char] + decode_utf8(b.skip(k + 1)));
    assert(47u32 as char == '/');
    assert(decode_utf8(b) =~= decode_utf8(b.take(k)) + seq!['/'] + decode_utf8(b.skip(k + 1)));
}

/// The mode text of a subdirectory reads as `40000`, and no other octal
/// mode does.
proof fn lemma_mode_texts(m: nat)
    ensures
        lossy_text(dir_mode()) == "40000"@,
        octal(m) != dir_mode() ==> lossy_text(octal(m)) != "40000"@,
{
    reveal_strlit("40000");
    let dm = dir_mode();
    lemma_encode_ascii(dm);
    assert(ascii_chars(dm) =~= "40000"@);
    lemma_octal_digits(m);
    let o = octal(m);
    assert forall|i: int| 0 <= i < o.len() implies o[i] < 128 by {
        assert(48 <= o[i] <= 55);
    }
    lemma_encode_ascii(o);
}

/// A path that a tree holds and reads back: no NUL byte, and no slash at
/// its start (a path read back from the top never starts with one).
pub open spec fn tree_path(b: Seq<u8>) -> bool {
    &&& b.len() == 0 || b[0] != 47u8
    &&& forall|k: int| 0 <= k < b.len() ==> #[trigger] b[k] != 0u8
}

/// A leaf that reads back: a UTF-8 path with no NUL byte, a 20-byte id and
/// a mode that is not the mode of a subdirectory.
pub open spec fn proper_leaf(x: LeafView) -> bool {
    &&& valid_utf8(x.rel)
    &&& forall|k: int| 0 <= k < x.rel.len() ==> #[trigger] x.rel[k] != 0u8
    &&& x.id.len() == 20
    &&& octal(x.mode as nat) != dir_mode()
}

/// Leaves read below `prefix` come back under their own paths: the prefix
/// is not empty, or no leaf's path starts with a slash.
pub open spec fn rooted(prefix: Seq<char>, ls: Seq<LeafView>) -> bool {
    prefix.len() > 0 || forall|i: int| 0 <= i < ls.len() ==> (#[trigger] ls[i]).rel.len() == 0 || ls[i].rel[0]
        != 47u8
}

/// The file that a leaf is found as below `prefix`.
pub open spec fn found_of(prefix: Seq<char>, x: LeafView) -> FoundFile {
    (join_path(prefix, decode_utf8(x.rel)), hex_text(x.id))
}

/// `fs` are the files of the leaves `ls` below `prefix`: each leaf is found,
/// and nothing else is.
pub open spec fn reads_as(fs: Seq<FoundFile>, prefix: Seq<char>, ls: Seq<LeafView>) -> bool {
    &&& forall|i: int|
        0 <= i < ls.len() ==> exists|j: int| 0 <= j < fs.len() && #[trigger] fs[j] == found_of(prefix, #[trigger] ls[i])
    &&& forall|j: int|
        0 <= j < fs.len() ==> exists|i: int| 0 <= i < ls.len() && #[trigger] fs[j] == found_of(prefix, #[trigger] ls[i])
}

/// The store holds the framed object `frame` under the hex of its SHA-1,
/// in a form that decompresses back to it.
pub open spec fn frame_stored(store: spec_fn(Seq<char>) -> Option<Seq<u8>>, frame: Seq<u8>) -> bool {
    &&& sha1_digest(frame).len() == 20
    &&& store(hex_text(sha1_digest(frame))) matches Some(file) && zlib_decompress(file) == Some(frame)
}

proof fn lemma_max_rel_len_ge(ls: Seq<LeafView>, i: int)
    requires
        0 <= i < ls.len(),
    ensures
        ls[i].rel.len() <= max_rel_len(ls),
    decreases ls.len(),
{
    if i < ls.len() - 1 {
        lemma_max_rel_len_ge(ls.drop_last(), i);
        assert(ls.drop_last()[i] == ls[i]);
    }
}

proof fn lemma_max_rel_len_le(ls: Seq<LeafView>, n: nat)
    requires
        forall|i: int| 0 <= i < ls.len() ==> (#[trigger] ls[i]).rel.len() <= n,
    ensures
        max_rel_len(ls) <= n,
    decreases ls.len(),
{
    if ls.len() > 0 {
        let p = ls.drop_last();
        assert forall|i: int| 0 <= i < p.len() implies (#[trigger] p[i]).rel.len() <= n by {
            assert(p[i] == ls[i]);
        }
        lemma_max_rel_len_le(p, n);
    }
}

/// Every frame written for a subdirectory is among the frames written for
/// the directories.
proof fn lemma_dir_frames_has(gs: Seq<GroupView>, fuel: nat, a: int, fr: Seq<u8>)
    requires
        0 <= a < gs.len(),
        tree_frames(gs[a].1, fuel).contains(fr),
    ensures
        dir_frames(gs, fuel).contains(fr),
    decreases gs.len(),
{
    let p = gs.drop_last();
    let tf = tree_frames(gs.last().1, fuel);
    assert(dir_frames(gs, fuel) == dir_frames(p, fuel) + tf);
    if a == gs.len() - 1 {
        let k = choose|k: int| 0 <= k < tf.len() && tf[k] == fr;
        assert((dir_frames(p, fuel) + tf)[dir_frames(p, fuel).len() + k] == fr);
    } else {
        assert(p[a] == gs[a]);
        lemma_dir_frames_has(p, fuel, a, fr);
        let k = choose|k: int| 0 <= k < dir_frames(p, fuel).len() && dir_frames(p, fuel)[k] == fr;
        assert((dir_frames(p, fuel) + tf)[k] == fr);
    }
}

/// A path below a directory below `prefix` is that directory's path, a
/// slash and the path.
proof fn lemma_join_nested(prefix: Seq<char>, a: Seq<char>, b: Seq<char>)
    requires
        prefix.len() > 0 || a.len() > 0,
    ensures
        join_path(join_path(prefix, a), b) == join_path(prefix, a + seq!['/'] + b),
{
    if prefix.len() == 0 {
        assert(join_path(prefix, a) == a);
    } else {
        assert(prefix + seq!['/'] + a + seq!['/'] + b =~= prefix + seq!['/'] + (a + seq!['/'] + b));
    }
}

/// What is known of a subdirectory and a leaf below it when the leaf, seen
/// from the parent, is proper: the directory name is NUL-free UTF-8 (not
/// empty when the leaf's path does not start with a slash), the leaf is
/// proper, and its path reads through the name.
proof fn lemma_expand_parts(d: Seq<u8>, c: LeafView)
    requires
        proper_leaf(expand(d, c)),
    ensures
        valid_utf8(d),
        d.len() > 0 ==> decode_utf8(d).len() > 0,
        expand(d, c).rel[0] != 47u8 ==> d.len() > 0,
        forall|k: int| 0 <= k < d.len() ==> #[trigger] d[k] != 0u8,
        proper_leaf(c),
        c.rel.len() < expand(d, c).rel.len(),
        decode_utf8(expand(d, c).rel) == decode_utf8(d) + seq!['/'] + decode_utf8(c.rel),
{
    let b = expand(d, c).rel;
    let n = d.len() as int;
    assert(b[n] == 47u8);
    lemma_slash_split(b, n);
    assert(b.take(n) =~= d);
    assert(b.skip(n + 1) =~= c.rel);
    assert forall|k: int| 0 <= k < d.len() implies #[trigger] d[k] != 0u8 by {
        assert(b[k] == d[k]);
    }
    let r = c.rel;
    assert forall|k: int| 0 <= k < r.len() implies #[trigger] r[k] != 0u8 by {
        assert(r[k] == b[n + 1 + k]);
    }
    if d.len() > 0 {
        assert(decode_utf8(d).len() > 0);
    }
}

/// A leaf of a subdirectory seen from its parent: the directory name, a
/// slash and the leaf's path.
pub open spec fn expand(d: Seq<u8>, y: LeafView) -> LeafView {
    LeafView { rel: d + seq![47u8] + y.rel, mode: y.mode, id: y.id }
}

/// The leaves of groups, seen from their parent directory.
pub open spec fn group_leaves(gs: Seq<GroupView>) -> Seq<LeafView>
    decreases gs.len(),
{
    if gs.len() == 0 {
        Seq::empty()
    } else {
        gs[0].1.map_values(|y: LeafView| expand(gs[0].0, y)) + group_leaves(gs.drop_first())
    }
}

proof fn lemma_add_to_group_ms(gs: Seq<GroupView>, d: Seq<u8>, c: LeafView)
    ensures
        group_leaves(add_to_group(gs, d, c)).to_multiset() == group_leaves(gs).to_multiset().insert(
            expand(d, c),
        ),
    decreases gs.len(),
{
    broadcast use vstd::multiset::group_multiset_axioms;

    let x = expand(d, c);
    let r = add_to_group(gs, d, c);
    if gs.len() == 0 {
        assert(r == seq![(d, seq![c])]);
        assert(r[0] == (d, seq![c]));
        assert(r.drop_first() =~= Seq::<GroupView>::empty());
        assert(group_leaves(r.drop_first()) == Seq::<LeafView>::empty());
        assert(seq![c].map_values(|y: LeafView| expand(d, y)) =~= seq![x]);
        assert(group_leaves(r) == seq![x] + Seq::<LeafView>::empty());
        assert(seq![x] + Seq::<LeafView>::empty() =~= Seq::<LeafView>::empty().push(x));
        vstd::seq_lib::to_multiset_build(Seq::<LeafView>::empty(), x);
        assert(group_leaves(gs) == Seq::<LeafView>::empty());
    } else if bytes_lt(d, gs[0].0) {
        assert(r == seq![(d, seq![c])] + gs);
        assert(r[0] == (d, seq![c]));
        assert(r.drop_first() =~= gs);
        assert(seq![c].map_values(|y: LeafView| expand(d, y)) =~= seq![x]);
        assert(group_leaves(r) == seq![x] + group_leaves(gs));
        vstd::seq_lib::lemma_multiset_commutative(seq![x], group_leaves(gs));
        assert(seq![x] =~= Seq::<LeafView>::empty().push(x));
        vstd::seq_lib::to_multiset_build(Seq::<LeafView>::empty(), x);
        vstd::seq_lib::to_multiset_len(Seq::<LeafView>::empty());
        vstd::multiset::lemma_multiset_empty_len(Seq::<LeafView>::empty().to_multiset());
        assert(group_leaves(r).to_multiset() =~= group_leaves(gs).to_multiset().insert(x));
    } else if d == gs[0].0 {
        let g = (d, gs[0].1.push(c));
        let rest = gs.drop_first();
        assert(r == seq![g] + rest);
        assert(r[0] == g);
        assert(r.drop_first() =~= rest);
        let old_part = gs[0].1.map_values(|y: LeafView| expand(d, y));
        assert(g.1.map_values(|y: LeafView| expand(d, y)) =~= old_part.push(x));
        assert(group_leaves(r) == old_part.push(x) + group_leaves(rest));
        assert(group_leaves(gs) == old_part + group_leaves(rest));
        vstd::seq_lib::lemma_multiset_commutative(old_part.push(x), group_leaves(rest));
        vstd::seq_lib::lemma_multiset_commutative(old_part, group_leaves(rest));
        vstd::seq_lib::to_multiset_build(old_part, x);
        assert(group_leaves(r).to_multiset() =~= group_leaves(gs).to_multiset().insert(x));
    } else {
        let rest = gs.drop_first();
        let r2 = add_to_group(rest, d, c);
        assert(r == seq![gs[0]] + r2);
        assert(r[0] == gs[0]);
        assert(r.drop_first() =~= r2);
        lemma_add_to_group_ms(rest, d, c);
        let head = gs[0].1.map_values(|y: LeafView| expand(gs[0].0, y));
        assert(group_leaves(r) == head + group_leaves(r2));
        assert(group_leaves(gs) == head + group_leaves(rest));
        vstd::seq_lib::lemma_multiset_commutative(head, group_leaves(r2));
        vstd::seq_lib::lemma_multiset_commutative(head, group_leaves(rest));
        assert(group_leaves(r).to_multiset() =~= group_leaves(gs).to_multiset().insert(x));
    }
}

/// Splitting leaves at one level loses and adds nothing: the group leaves
/// seen from the directory, with the files, are the leaves.
proof fn lemma_split_ms(ls: Seq<LeafView>)
    ensures
        (group_leaves(split_level(ls).0) + split_level(ls).1).to_multiset() == ls.to_multiset(),
    decreases ls.len(),
{
    broadcast use vstd::multiset::group_multiset_axioms;

    if ls.len() == 0 {
        assert(split_level(ls) == (Seq::<GroupView>::empty(), Seq::<LeafView>::empty()));
        assert(group_leaves(Seq::<GroupView>::empty()) == Seq::<LeafView>::empty());
        assert(Seq::<LeafView>::empty() + Seq::<LeafView>::empty() =~= ls);
    } else {
        let p = ls.drop_last();
        lemma_split_ms(p);
        let (gs, fs) = split_level(p);
        let e = ls.last();
        assert(p.push(e) =~= ls);
        vstd::seq_lib::to_multiset_build(p, e);
        lemma_find_from_spec(e.rel, 0, 47u8);
        vstd::seq_lib::lemma_multiset_commutative(group_leaves(gs), fs);
        match find_from(e.rel, 0, 47u8) {
            Some(k) => {
                let c = LeafView { rel: e.rel.skip(k + 1), mode: e.mode, id: e.id };
                let g2 = add_to_group(gs, e.rel.take(k), c);
                assert(split_level(ls) == (g2, fs));
                lemma_add_to_group_ms(gs, e.rel.take(k), c);
                assert(expand(e.rel.take(k), c) == e) by {
                    assert(e.rel.take(k) + seq![47u8] + e.rel.skip(k + 1) =~= e.rel);
                }
                vstd::seq_lib::lemma_multiset_commutative(group_leaves(g2), fs);
                assert((group_leaves(g2) + fs).to_multiset() =~= (group_leaves(gs) + fs).to_multiset().insert(e));
            },
            None => {
                let f2 = fs.push(e);
                assert(split_level(ls) == (gs, f2));
                assert(group_leaves(gs) + f2 =~= (group_leaves(gs) + fs).push(e));
                vstd::seq_lib::to_multiset_build(group_leaves(gs) + fs, e);
            },
        }
    }
}

/// Each leaf of the group leaves is a member of some group, seen from its
/// parent.
proof fn lemma_group_leaf_at(gs: Seq<GroupView>, m: int)
    requires
        0 <= m < group_leaves(gs).len(),
    ensures
        exists|a: int, b: int|
            0 <= a < gs.len() && 0 <= b < gs[a].1.len() && group_leaves(gs)[m] == #[trigger] expand(
                gs[a].0,
                gs[a].1[b],
            ),
    decreases gs.len(),
{
    let head = gs[0].1.map_values(|y: LeafView| expand(gs[0].0, y));
    if m < head.len() {
        assert(group_leaves(gs)[m] == head[m]);
        assert(group_leaves(gs)[m] == expand(gs[0].0, gs[0].1[m]));
    } else {
        let t = gs.drop_first();
        assert(group_leaves(gs)[m] == group_leaves(t)[m - head.len()]);
        lemma_group_leaf_at(t, m - head.len());
        let (a, b) = choose|a: int, b: int|
            0 <= a < t.len() && 0 <= b < t[a].1.len() && group_leaves(t)[m - head.len()] == #[trigger] expand(
                t[a].0,
                t[a].1[b],
            );
        assert(t[a] == gs[a + 1]);
        assert(group_leaves(gs)[m] == expand(gs[a + 1].0, gs[a + 1].1[b]));
    }
}

/// Each member of each group is among the group leaves.
proof fn lemma_group_member_in(gs: Seq<GroupView>, a: int, b: int)
    requires
        0 <= a < gs.len(),
        0 <= b < gs[a].1.len(),
    ensures
        group_leaves(gs).contains(expand(gs[a].0, gs[a].1[b])),
    decreases gs.len(),
{
    let head = gs[0].1.map_values(|y: LeafView| expand(gs[0].0, y));
    if a == 0 {
        assert(group_leaves(gs)[b] == head[b]);
    } else {
        let t = gs.drop_first();
        assert(t[a - 1] == gs[a]);
        lemma_group_member_in(t, a - 1, b);
        let m = choose|m: int| 0 <= m < group_leaves(t).len() && group_leaves(t)[m] == expand(gs[a].0, gs[a].1[b]);
        assert(group_leaves(gs)[head.len() + m] == group_leaves(t)[m]);
    }
}

/// The directory items are the groups' items, one for one.
proof fn lemma_dir_items_at(gs: Seq<GroupView>, fuel: nat)
    ensures
        dir_items(gs, fuel).len() == gs.len(),
        forall|a: int| 0 <= a < gs.len() ==> #[trigger] dir_items(gs, fuel)[a] == (TreeItemView {
            mode: dir_mode(),
            name: gs[a].0,
            id: tree_id(gs[a].1, fuel),
        }),
    decreases gs.len(),
{
    if gs.len() > 0 {
        lemma_dir_items_at(gs.drop_last(), fuel);
        assert forall|a: int| 0 <= a < gs.len() implies #[trigger] dir_items(gs, fuel)[a] == (TreeItemView {
            mode: dir_mode(),
            name: gs[a].0,
            id: tree_id(gs[a].1, fuel),
        }) by {
            if a < gs.len() - 1 {
                assert(gs.drop_last()[a] == gs[a]);
            }
        }
    }
}

proof fn lemma_insert_stable_ms(s: Seq<TreeItemView>, x: TreeItemView)
    ensures
        insert_stable(s, x).to_multiset() == s.to_multiset().insert(x),
    decreases s.len(),
{
    broadcast use vstd::multiset::group_multiset_axioms;

    if s.len() == 0 {
        assert(seq![x] =~= Seq::<TreeItemView>::empty().push(x));
        vstd::seq_lib::to_multiset_build(Seq::<TreeItemView>::empty(), x);
        vstd::seq_lib::to_multiset_len(Seq::<TreeItemView>::empty());
        vstd::multiset::lemma_multiset_empty_len(Seq::<TreeItemView>::empty().to_multiset());
        assert(s =~= Seq::<TreeItemView>::empty());
    } else if bytes_lt(item_key(x), item_key(s.last())) {
        let p = s.drop_last();
        lemma_insert_stable_ms(p, x);
        assert(p.push(s.last()) =~= s);
        vstd::seq_lib::to_multiset_build(insert_stable(p, x), s.last());
        vstd::seq_lib::to_multiset_build(p, s.last());
        assert(insert_stable(s, x) == insert_stable(p, x).push(s.last()));
        assert(p.to_multiset().insert(x).insert(s.last()) =~= p.to_multiset().insert(s.last()).insert(x));
        assert(insert_stable(s, x).to_multiset() == s.to_multiset().insert(x));
    } else {
        assert(insert_stable(s, x) == s.push(x));
        vstd::seq_lib::to_multiset_build(s, x);
        assert(insert_stable(s, x).to_multiset() == s.to_multiset().insert(x));
    }
}

/// Sorting keeps the items.
proof fn lemma_sort_items_ms(s: Seq<TreeItemView>)
    ensures
        sort_items(s).to_multiset() == s.to_multiset(),
    decreases s.len(),
{
    broadcast use vstd::multiset::group_multiset_axioms;

    if s.len() > 0 {
        lemma_sort_items_ms(s.drop_last());
        lemma_insert_stable_ms(sort_items(s.drop_last()), s.last());
        assert(s.drop_last().push(s.last()) =~= s);
        vstd::seq_lib::to_multiset_build(s.drop_last(), s.last());
    }
}

/// The leaves at one level, seen through the split: each group member and
/// each file is a leaf, and each leaf is one of them.
proof fn lemma_level_members(ls: Seq<LeafView>)
    ensures
        forall|a: int, b: int|
            0 <= a < split_level(ls).0.len() && 0 <= b < split_level(ls).0[a].1.len() ==> ls.contains(
                #[trigger] expand(split_level(ls).0[a].0, split_level(ls).0[a].1[b]),
            ),
        forall|m: int| 0 <= m < split_level(ls).1.len() ==> ls.contains(#[trigger] split_level(ls).1[m]),
        forall|i: int|
            0 <= i < ls.len() ==> (exists|a: int, b: int|
                0 <= a < split_level(ls).0.len() && 0 <= b < split_level(ls).0[a].1.len() && #[trigger] ls[i]
                    == expand(split_level(ls).0[a].0, split_level(ls).0[a].1[b])) || (exists|m: int|
                0 <= m < split_level(ls).1.len() && split_level(ls).1[m] == #[trigger] ls[i]),
{
    let (gs, fs) = split_level(ls);
    let gl = group_leaves(gs);
    let all = gl + fs;
    lemma_split_ms(ls);
    assert forall|a: int, b: int| 0 <= a < gs.len() && 0 <= b < gs[a].1.len() implies ls.contains(
        #[trigger] expand(gs[a].0, gs[a].1[b]),
    ) by {
        let x = expand(gs[a].0, gs[a].1[b]);
        lemma_group_member_in(gs, a, b);
        let m = choose|m: int| 0 <= m < gl.len() && gl[m] == x;
        assert(all[m] == x);
        vstd::seq_lib::to_multiset_contains(all, x);
        vstd::seq_lib::to_multiset_contains(ls, x);
    }
    assert forall|m: int| 0 <= m < fs.len() implies ls.contains(#[trigger] fs[m]) by {
        assert(all[gl.len() + m] == fs[m]);
        vstd::seq_lib::to_multiset_contains(all, fs[m]);
        vstd::seq_lib::to_multiset_contains(ls, fs[m]);
    }
    assert forall|i: int| 0 <= i < ls.len() implies (exists|a: int, b: int|
        0 <= a < gs.len() && 0 <= b < gs[a].1.len() && #[trigger] ls[i] == expand(gs[a].0, gs[a].1[b]))
        || (exists|m: int| 0 <= m < fs.len() && fs[m] == #[trigger] ls[i]) by {
        let x = ls[i];
        vstd::seq_lib::to_multiset_contains(all, x);
        vstd::seq_lib::to_multiset_contains(ls, x);
        let w = choose|w: int| 0 <= w < all.len() && all[w] == x;
        if w < gl.len() {
            assert(gl[w] == x);
            lemma_group_leaf_at(gs, w);
        } else {
            assert(fs[w - gl.len()] == x);
        }
    }
}

/// The items of the tree of one level: its subdirectories (when `fuel`
/// allows) and its files.
pub open spec fn level_items(ls: Seq<LeafView>, fuel: nat) -> Seq<TreeItemView> {
    let (gs, fs) = split_level(ls);
    if fuel == 0 {
        file_items(fs)
    } else {
        dir_items(gs, (fuel - 1) as nat) + file_items(fs)
    }
}

proof fn lemma_add_to_group_nonempty(gs: Seq<GroupView>, d: Seq<u8>, c: LeafView)
    requires
        forall|a: int| 0 <= a < gs.len() ==> (#[trigger] gs[a]).1.len() > 0,
    ensures
        forall|a: int| 0 <= a < add_to_group(gs, d, c).len() ==> (#[trigger] add_to_group(gs, d, c)[a]).1.len() > 0,
    decreases gs.len(),
{
    let r = add_to_group(gs, d, c);
    if gs.len() == 0 {
    } else if bytes_lt(d, gs[0].0) {
        assert forall|a: int| 0 <= a < r.len() implies (#[trigger] r[a]).1.len() > 0 by {
            if a > 0 {
                assert(r[a] == gs[a - 1]);
            }
        }
    } else if d == gs[0].0 {
        assert forall|a: int| 0 <= a < r.len() implies (#[trigger] r[a]).1.len() > 0 by {
            if a > 0 {
                assert(r[a] == gs[a]);
            }
        }
    } else {
        let t = gs.drop_first();
        assert forall|a: int| 0 <= a < t.len() implies (#[trigger] t[a]).1.len() > 0 by {
            assert(t[a] == gs[a + 1]);
        }
        lemma_add_to_group_nonempty(t, d, c);
        let r2 = add_to_group(t, d, c);
        assert forall|a: int| 0 <= a < r.len() implies (#[trigger] r[a]).1.len() > 0 by {
            if a > 0 {
                assert(r[a] == r2[a - 1]);
            }
        }
    }
}

/// No group of a split is empty.
proof fn lemma_groups_nonempty(ls: Seq<LeafView>)
    ensures
        forall|a: int| 0 <= a < split_level(ls).0.len() ==> (#[trigger] split_level(ls).0[a]).1.len() > 0,
    decreases ls.len(),
{
    if ls.len() > 0 {
        let p = ls.drop_last();
        lemma_groups_nonempty(p);
        let (gs, fs) = split_level(p);
        let e = ls.last();
        match find_from(e.rel, 0, 47u8) {
            Some(k) => {
                lemma_add_to_group_nonempty(gs, e.rel.take(k), LeafView { rel: e.rel.skip(k + 1), mode: e.mode, id: e.id });
            },
            None => {},
        }
    }
}

/// The frame of a tree is among the frames written for it.
proof fn lemma_own_frame(ls: Seq<LeafView>, fuel: nat)
    ensures
        tree_frames(ls, fuel).contains(tree_frame(ls, fuel)),
{
    let tf = tree_frames(ls, fuel);
    assert(tf[tf.len() - 1] == tree_frame(ls, fuel));
}

/// The items of a level read back: the leaves are proper and the frames
/// written for it are stored.
proof fn lemma_level_items_ok(store: spec_fn(Seq<char>) -> Option<Seq<u8>>, ls: Seq<LeafView>, fuel: nat)
    requires
        forall|i: int| 0 <= i < ls.len() ==> proper_leaf(#[trigger] ls[i]),
        forall|fr: Seq<u8>| tree_frames(ls, fuel).contains(fr) ==> frame_stored(store, fr),
    ensures
        forall|u: int| 0 <= u < level_items(ls, fuel).len() ==> item_well_formed(#[trigger] level_items(ls, fuel)[u]),
{
    let (gs, fs) = split_level(ls);
    lemma_level_members(ls);
    lemma_groups_nonempty(ls);
    let fi = file_items(fs);
    assert forall|m: int| 0 <= m < fi.len() implies item_well_formed(#[trigger] fi[m]) by {
        assert(ls.contains(fs[m]));
        let i = choose|i: int| 0 <= i < ls.len() && ls[i] == fs[m];
        assert(proper_leaf(ls[i]));
        lemma_octal_digits(fs[m].mode as nat);
        let o = octal(fs[m].mode as nat);
        assert forall|j: int| 0 <= j < o.len() implies o[j] != 32u8 && o[j] != 0u8 by {
            assert(48 <= o[j] <= 55);
        }
    }
    if fuel > 0 {
        let f1 = (fuel - 1) as nat;
        let di = dir_items(gs, f1);
        lemma_dir_items_at(gs, f1);
        assert forall|a: int| 0 <= a < di.len() implies item_well_formed(#[trigger] di[a]) by {
            let x = expand(gs[a].0, gs[a].1[0]);
            assert(ls.contains(x));
            let i = choose|i: int| 0 <= i < ls.len() && ls[i] == x;
            assert(proper_leaf(ls[i]));
            lemma_expand_parts(gs[a].0, gs[a].1[0]);
            let tf = tree_frame(gs[a].1, f1);
            lemma_own_frame(gs[a].1, f1);
            lemma_dir_frames_has(gs, f1, a, tf);
            let df = dir_frames(gs, f1);
            let k = choose|k: int| 0 <= k < df.len() && df[k] == tf;
            assert(tree_frames(ls, fuel)[k] == tf);
            assert(frame_stored(store, tf));
            let dm = dir_mode();
            assert forall|j: int| 0 <= j < dm.len() implies dm[j] != 32u8 && dm[j] != 0u8 by {}
        }
        let items = di + fi;
        assert forall|u: int| 0 <= u < items.len() implies item_well_formed(#[trigger] items[u]) by {
            if u < di.len() {
                assert(items[u] == di[u]);
            } else {
                assert(items[u] == fi[u - di.len()]);
            }
        }
    }
}

/// The entry that a subdirectory's tree is read as.
pub open spec fn dir_entry(g: GroupView, fuel: nat) -> TreeEntryView {
    TreeEntryView { mode: "40000"@, path: decode_utf8(g.0), sha1: hex_text(tree_id(g.1, fuel)) }
}

/// The entry that a file is read as.
pub open spec fn file_entry(x: LeafView) -> TreeEntryView {
    TreeEntryView { mode: lossy_text(octal(x.mode as nat)), path: decode_utf8(x.rel), sha1: hex_text(x.id) }
}

/// The entries that the tree of one level is read as.
pub open spec fn level_entries(ls: Seq<LeafView>, fuel: nat) -> Seq<TreeEntryView> {
    sort_items(level_items(ls, fuel)).map_values(|it: TreeItemView| item_entry(it))
}

/// Each entry of a level is a subdirectory's or a file's, and each
/// subdirectory and each file has an entry.
proof fn lemma_level_entries(ls: Seq<LeafView>, fuel: nat)
    requires
        forall|i: int| 0 <= i < ls.len() ==> proper_leaf(#[trigger] ls[i]),
        fuel > 0 || split_level(ls).0.len() == 0,
    ensures
        forall|t: int|
            0 <= t < level_entries(ls, fuel).len() ==> (exists|a: int|
                0 <= a < split_level(ls).0.len() && #[trigger] level_entries(ls, fuel)[t] == dir_entry(
                    split_level(ls).0[a],
                    (fuel - 1) as nat,
                )) || (exists|m: int|
                0 <= m < split_level(ls).1.len() && #[trigger] level_entries(ls, fuel)[t] == file_entry(
                    split_level(ls).1[m],
                )),
        forall|a: int|
            0 <= a < split_level(ls).0.len() ==> exists|t: int|
                0 <= t < level_entries(ls, fuel).len() && #[trigger] level_entries(ls, fuel)[t] == dir_entry(
                    #[trigger] split_level(ls).0[a],
                    (fuel - 1) as nat,
                ),
        forall|m: int|
            0 <= m < split_level(ls).1.len() ==> exists|t: int|
                0 <= t < level_entries(ls, fuel).len() && #[trigger] level_entries(ls, fuel)[t] == file_entry(
                    #[trigger] split_level(ls).1[m],
                ),
{
    let (gs, fl) = split_level(ls);
    let f1 = (fuel - 1) as nat;
    let di = dir_items(gs, f1);
    let fi = file_items(fl);
    let items = level_items(ls, fuel);
    let sorted = sort_items(items);
    let es = level_entries(ls, fuel);
    if fuel == 0 {
        assert(di =~= Seq::<TreeItemView>::empty());
        assert(items =~= di + fi);
    }
    assert(items == di + fi);
    lemma_dir_items_at(gs, f1);
    lemma_level_members(ls);
    lemma_groups_nonempty(ls);
    lemma_sort_items_ms(items);
    lemma_mode_texts(0);
    assert forall|a: int| 0 <= a < gs.len() implies item_entry(#[trigger] di[a]) == dir_entry(gs[a], f1) by {
        let x = expand(gs[a].0, gs[a].1[0]);
        assert(ls.contains(x));
        let i = choose|i: int| 0 <= i < ls.len() && ls[i] == x;
        assert(proper_leaf(ls[i]));
        lemma_expand_parts(gs[a].0, gs[a].1[0]);
    }
    assert forall|m: int| 0 <= m < fl.len() implies item_entry(#[trigger] fi[m]) == file_entry(fl[m]) by {
        assert(ls.contains(fl[m]));
        let i = choose|i: int| 0 <= i < ls.len() && ls[i] == fl[m];
        assert(proper_leaf(ls[i]));
    }
    assert forall|t: int| 0 <= t < es.len() implies (exists|a: int|
        0 <= a < gs.len() && #[trigger] es[t] == dir_entry(gs[a], f1)) || (exists|m: int|
        0 <= m < fl.len() && #[trigger] es[t] == file_entry(fl[m])) by {
        vstd::seq_lib::to_multiset_contains(sorted, sorted[t]);
        vstd::seq_lib::to_multiset_contains(items, sorted[t]);
        let u = choose|u: int| 0 <= u < items.len() && items[u] == sorted[t];
        if u < di.len() {
            assert(items[u] == di[u]);
            assert(es[t] == dir_entry(gs[u], f1));
        } else {
            assert(items[u] == fi[u - di.len()]);
            assert(es[t] == file_entry(fl[u - di.len()]));
        }
    }
    assert forall|a: int| 0 <= a < gs.len() implies exists|t: int|
        0 <= t < es.len() && #[trigger] es[t] == dir_entry(#[trigger] gs[a], f1) by {
        assert(items[a] == di[a]);
        vstd::seq_lib::to_multiset_contains(items, di[a]);
        vstd::seq_lib::to_multiset_contains(sorted, di[a]);
        let t = choose|t: int| 0 <= t < sorted.len() && sorted[t] == di[a];
        assert(es[t] == item_entry(di[a]));
    }
    assert forall|m: int| 0 <= m < fl.len() implies exists|t: int|
        0 <= t < es.len() && #[trigger] es[t] == file_entry(#[trigger] fl[m]) by {
        assert(items[di.len() + m] == fi[m]);
        vstd::seq_lib::to_multiset_contains(items, fi[m]);
        vstd::seq_lib::to_multiset_contains(sorted, fi[m]);
        let t = choose|t: int| 0 <= t < sorted.len() && sorted[t] == fi[m];
        assert(es[t] == item_entry(fi[m]));
    }
}

/// Reading a level's tree from the store gives the files of its entries.
proof fn lemma_level_read(store: spec_fn(Seq<char>) -> Option<Seq<u8>>, ls: Seq<LeafView>, fuel: nat, prefix: Seq<char>)
    requires
        forall|i: int| 0 <= i < ls.len() ==> proper_leaf(#[trigger] ls[i]),
        forall|fr: Seq<u8>| tree_frames(ls, fuel).contains(fr) ==> frame_stored(store, fr),
    ensures
        tree_files(store, hex_text(tree_id(ls, fuel)), prefix, fuel) == entries_files(
            store,
            level_entries(ls, fuel),
            prefix,
            fuel,
        ),
{
    reveal_strlit("tree");
    let items = level_items(ls, fuel);
    let sorted = sort_items(items);
    let body = tree_bytes(sorted);
    let frame = tree_frame(ls, fuel);
    assert(frame == object_frame("tree"@, body));
    lemma_own_frame(ls, fuel);
    assert(frame_stored(store, frame));
    let file = store(hex_text(sha1_digest(frame))).unwrap();
    assert("tree"@ =~= seq!['t', 'r', 'e', 'e']);
    lemma_loose_object_roundtrip("tree"@, body, file);
    lemma_level_items_ok(store, ls, fuel);
    lemma_sort_items_ms(items);
    assert forall|t: int| 0 <= t < sorted.len() implies item_well_formed(#[trigger] sorted[t]) by {
        vstd::seq_lib::to_multiset_contains(sorted, sorted[t]);
        vstd::seq_lib::to_multiset_contains(items, sorted[t]);
        let u = choose|u: int| 0 <= u < items.len() && items[u] == sorted[t];
    }
    lemma_tree_roundtrip(sorted);
}

/// Each subdirectory's tree reads as the files of its leaves, below the
/// directory's path.
#[verifier::opaque]
pub open spec fn groups_read(
    store: spec_fn(Seq<char>) -> Option<Seq<u8>>,
    gs: Seq<GroupView>,
    fuel: nat,
    prefix: Seq<char>,
) -> bool {
    forall|a: int|
        0 <= a < gs.len() ==> (tree_files(
            store,
            hex_text(tree_id((#[trigger] gs[a]).1, fuel)),
            join_path(prefix, decode_utf8(gs[a].0)),
            fuel,
        ) matches Some(sub) && reads_as(sub, join_path(prefix, decode_utf8(gs[a].0)), gs[a].1))
}

/// A leaf below a subdirectory is found where the leaf, seen from the
/// parent, is.
proof fn lemma_found_nested(prefix: Seq<char>, d: Seq<u8>, c: LeafView)
    requires
        proper_leaf(expand(d, c)),
        prefix.len() > 0 || d.len() > 0,
    ensures
        found_of(join_path(prefix, decode_utf8(d)), c) == found_of(prefix, expand(d, c)),
{
    lemma_expand_parts(d, c);
    lemma_join_nested(prefix, decode_utf8(d), decode_utf8(c.rel));
}

/// The files that one subdirectory of a level reads as are files of the
/// level's leaves.
proof fn lemma_group_sound(
    store: spec_fn(Seq<char>) -> Option<Seq<u8>>,
    ls: Seq<LeafView>,
    fuel: nat,
    prefix: Seq<char>,
    a: int,
)
    requires
        forall|i: int| 0 <= i < ls.len() ==> proper_leaf(#[trigger] ls[i]),
        rooted(prefix, ls),
        groups_read(store, split_level(ls).0, fuel, prefix),
        0 <= a < split_level(ls).0.len(),
    ensures
        ({
            let g = split_level(ls).0[a];
            tree_files(store, hex_text(tree_id(g.1, fuel)), join_path(prefix, decode_utf8(g.0)), fuel) matches Some(sub)
                && forall|j: int|
                0 <= j < sub.len() ==> exists|i: int| 0 <= i < ls.len() && #[trigger] sub[j] == #[trigger] found_of(prefix, ls[i])
        }),
{
    reveal(groups_read);
    let gs = split_level(ls).0;
    let g = gs[a];
    let pa = join_path(prefix, decode_utf8(g.0));
    let sub = tree_files(store, hex_text(tree_id(g.1, fuel)), pa, fuel).unwrap();
    assert forall|j: int| 0 <= j < sub.len() implies exists|i: int|
        0 <= i < ls.len() && #[trigger] sub[j] == #[trigger] found_of(prefix, ls[i]) by {
        assert(reads_as(sub, pa, g.1));
        let b = choose|b: int| 0 <= b < g.1.len() && #[trigger] sub[j] == found_of(pa, #[trigger] g.1[b]);
        lemma_member_leaf(ls, a, b);
        let i = choose|i: int| 0 <= i < ls.len() && ls[i] == expand(g.0, g.1[b]);
        lemma_expand_parts(g.0, g.1[b]);
        assert(ls[i] == ls[i]);
        lemma_found_nested(prefix, g.0, g.1[b]);
        assert(sub[j] == found_of(prefix, ls[i]));
    }
}

/// A leaf below one subdirectory of a level is among what it reads as.
proof fn lemma_group_complete(
    store: spec_fn(Seq<char>) -> Option<Seq<u8>>,
    ls: Seq<LeafView>,
    fuel: nat,
    prefix: Seq<char>,
    a: int,
    b: int,
)
    requires
        forall|i: int| 0 <= i < ls.len() ==> proper_leaf(#[trigger] ls[i]),
        rooted(prefix, ls),
        groups_read(store, split_level(ls).0, fuel, prefix),
        0 <= a < split_level(ls).0.len(),
        0 <= b < split_level(ls).0[a].1.len(),
    ensures
        ({
            let g = split_level(ls).0[a];
            tree_files(store, hex_text(tree_id(g.1, fuel)), join_path(prefix, decode_utf8(g.0)), fuel) matches Some(sub)
                && exists|k: int| 0 <= k < sub.len() && #[trigger] sub[k] == found_of(prefix, expand(g.0, g.1[b]))
        }),
{
    reveal(groups_read);
    let gs = split_level(ls).0;
    let g = gs[a];
    let pa = join_path(prefix, decode_utf8(g.0));
    let sub = tree_files(store, hex_text(tree_id(g.1, fuel)), pa, fuel).unwrap();
    assert(reads_as(sub, pa, g.1));
    let k = choose|k: int| 0 <= k < sub.len() && #[trigger] sub[k] == found_of(pa, #[trigger] g.1[b]);
    lemma_member_leaf(ls, a, b);
    let i = choose|i: int| 0 <= i < ls.len() && ls[i] == expand(g.0, g.1[b]);
    lemma_expand_parts(g.0, g.1[b]);
    assert(ls[i] == ls[i]);
    lemma_found_nested(prefix, g.0, g.1[b]);
}

/// A group member, seen from its parent, is a leaf.
proof fn lemma_member_leaf(ls: Seq<LeafView>, a: int, b: int)
    requires
        0 <= a < split_level(ls).0.len(),
        0 <= b < split_level(ls).0[a].1.len(),
    ensures
        exists|i: int| 0 <= i < ls.len() && ls[i] == expand(split_level(ls).0[a].0, split_level(ls).0[a].1[b]),
{
    lemma_level_members(ls);
    let x = expand(split_level(ls).0[a].0, split_level(ls).0[a].1[b]);
    assert(ls.contains(x));
}

/// A file of a level is a leaf.
proof fn lemma_file_leaf(ls: Seq<LeafView>, m: int)
    requires
        0 <= m < split_level(ls).1.len(),
    ensures
        exists|i: int| 0 <= i < ls.len() && ls[i] == split_level(ls).1[m],
{
    lemma_level_members(ls);
    assert(ls.contains(split_level(ls).1[m]));
}

/// The entry at `t` of a level is a subdirectory's or a file's.
proof fn lemma_entry_kind(ls: Seq<LeafView>, fuel: nat, t: int)
    requires
        forall|i: int| 0 <= i < ls.len() ==> proper_leaf(#[trigger] ls[i]),
        fuel > 0 || split_level(ls).0.len() == 0,
        0 <= t < level_entries(ls, fuel).len(),
    ensures
        (exists|a: int|
            0 <= a < split_level(ls).0.len() && level_entries(ls, fuel)[t] == dir_entry(
                split_level(ls).0[a],
                (fuel - 1) as nat,
            )) || (exists|m: int|
            0 <= m < split_level(ls).1.len() && level_entries(ls, fuel)[t] == file_entry(split_level(ls).1[m])),
{
    lemma_level_entries(ls, fuel);
}

/// Everything a level's entries read as is a file of its leaves.
proof fn lemma_level_sound(store: spec_fn(Seq<char>) -> Option<Seq<u8>>, ls: Seq<LeafView>, fuel: nat, prefix: Seq<char>)
    requires
        forall|i: int| 0 <= i < ls.len() ==> proper_leaf(#[trigger] ls[i]),
        rooted(prefix, ls),
        fuel > 0 || split_level(ls).0.len() == 0,
        groups_read(store, split_level(ls).0, (fuel - 1) as nat, prefix),
    ensures
        entries_files(store, level_entries(ls, fuel), prefix, fuel) matches Some(fs) && forall|j: int|
            0 <= j < fs.len() ==> exists|i: int| 0 <= i < ls.len() && #[trigger] fs[j] == found_of(prefix, #[trigger] ls[i]),
{
    let gs = split_level(ls).0;
    let fl = split_level(ls).1;
    let f1 = (fuel - 1) as nat;
    let es = level_entries(ls, fuel);
    let ok = |q: FoundFile| exists|i: int| 0 <= i < ls.len() && q == #[trigger] found_of(prefix, ls[i]);
    lemma_mode_texts(0);
    assert forall|t: int| 0 <= t < es.len() && (#[trigger] es[t]).mode != "40000"@ implies ok(
        (join_path(prefix, es[t].path), es[t].sha1),
    ) by {
        lemma_entry_kind(ls, fuel, t);
        if exists|a: int| 0 <= a < gs.len() && es[t] == dir_entry(gs[a], f1) {
        } else {
            let m = choose|m: int| 0 <= m < fl.len() && es[t] == file_entry(fl[m]);
            lemma_file_leaf(ls, m);
            let i = choose|i: int| 0 <= i < ls.len() && ls[i] == fl[m];
            assert(proper_leaf(ls[i]));
            assert(found_of(prefix, ls[i]) == (join_path(prefix, es[t].path), es[t].sha1));
        }
    }
    assert forall|t: int| 0 <= t < es.len() && (#[trigger] es[t]).mode == "40000"@ implies fuel > 0 && (
    tree_files(store, es[t].sha1, join_path(prefix, es[t].path), (fuel - 1) as nat) matches Some(sub)
        && forall|j: int| 0 <= j < sub.len() ==> ok(#[trigger] sub[j])) by {
        lemma_entry_kind(ls, fuel, t);
        if exists|a: int| 0 <= a < gs.len() && es[t] == dir_entry(gs[a], f1) {
            let a = choose|a: int| 0 <= a < gs.len() && es[t] == dir_entry(gs[a], f1);
            lemma_group_sound(store, ls, f1, prefix, a);
        } else {
            let m = choose|m: int| 0 <= m < fl.len() && es[t] == file_entry(fl[m]);
            lemma_file_leaf(ls, m);
            let i = choose|i: int| 0 <= i < ls.len() && ls[i] == fl[m];
            assert(proper_leaf(ls[i]));
            lemma_mode_texts(fl[m].mode as nat);
        }
    }
    lemma_entries_sound(store, es, prefix, fuel, ok);
}

/// Each leaf of a level is below a subdirectory or a file of it.
proof fn lemma_leaf_kind(ls: Seq<LeafView>, i: int)
    requires
        0 <= i < ls.len(),
    ensures
        (exists|a: int, b: int|
            0 <= a < split_level(ls).0.len() && 0 <= b < split_level(ls).0[a].1.len() && ls[i] == expand(
                split_level(ls).0[a].0,
                split_level(ls).0[a].1[b],
            )) || (exists|m: int| 0 <= m < split_level(ls).1.len() && split_level(ls).1[m] == ls[i]),
{
    let gs = split_level(ls).0;
    let fl = split_level(ls).1;
    lemma_level_members(ls);
    if exists|a: int, b: int| 0 <= a < gs.len() && 0 <= b < gs[a].1.len() && #[trigger] ls[i] == expand(gs[a].0, gs[a].1[b]) {
        let (a, b) = choose|a: int, b: int|
            0 <= a < gs.len() && 0 <= b < gs[a].1.len() && #[trigger] ls[i] == expand(gs[a].0, gs[a].1[b]);
        assert(0 <= a < gs.len() && 0 <= b < gs[a].1.len() && ls[i] == expand(gs[a].0, gs[a].1[b]));
    } else {
        let m = choose|m: int| 0 <= m < fl.len() && fl[m] == #[trigger] ls[i];
        assert(fl[m] == ls[i]);
    }
}

/// Every file of a level's leaves is among what its entries read as.
proof fn lemma_level_complete(store: spec_fn(Seq<char>) -> Option<Seq<u8>>, ls: Seq<LeafView>, fuel: nat, prefix: Seq<char>)
    requires
        forall|i: int| 0 <= i < ls.len() ==> proper_leaf(#[trigger] ls[i]),
        rooted(prefix, ls),
        fuel > 0 || split_level(ls).0.len() == 0,
        groups_read(store, split_level(ls).0, (fuel - 1) as nat, prefix),
        entries_files(store, level_entries(ls, fuel), prefix, fuel) is Some,
    ensures
        forall|i: int|
            0 <= i < ls.len() ==> exists|j: int|
                0 <= j < entries_files(store, level_entries(ls, fuel), prefix, fuel).unwrap().len()
                    && #[trigger] entries_files(store, level_entries(ls, fuel), prefix, fuel).unwrap()[j]
                    == found_of(prefix, #[trigger] ls[i]),
{
    let gs = split_level(ls).0;
    let fl = split_level(ls).1;
    let f1 = (fuel - 1) as nat;
    let es = level_entries(ls, fuel);
    let fs = entries_files(store, es, prefix, fuel).unwrap();
    lemma_mode_texts(0);
    assert forall|i: int| 0 <= i < ls.len() implies exists|j: int|
        0 <= j < fs.len() && #[trigger] fs[j] == found_of(prefix, #[trigger] ls[i]) by {
        assert(proper_leaf(ls[i]));
        lemma_leaf_kind(ls, i);
        if exists|a: int, b: int| 0 <= a < gs.len() && 0 <= b < gs[a].1.len() && ls[i] == expand(gs[a].0, gs[a].1[b]) {
            let (a, b) = choose|a: int, b: int|
                0 <= a < gs.len() && 0 <= b < gs[a].1.len() && ls[i] == expand(gs[a].0, gs[a].1[b]);
            lemma_level_entries(ls, fuel);
            let t = choose|t: int| 0 <= t < es.len() && es[t] == dir_entry(gs[a], f1);
            lemma_group_complete(store, ls, f1, prefix, a, b);
            lemma_entries_has_sub(store, es, prefix, fuel, t, found_of(prefix, ls[i]));
        } else {
            let m = choose|m: int| 0 <= m < fl.len() && fl[m] == ls[i];
            lemma_level_entries(ls, fuel);
            let t = choose|t: int| 0 <= t < es.len() && es[t] == file_entry(fl[m]);
            lemma_mode_texts(fl[m].mode as nat);
            lemma_entries_has_file(store, es, prefix, fuel, t);
        }
    }
}

/// The tree that `write_index_tree`'s recursion writes for proper leaves,
/// with every frame it wrote stored, reads back below `prefix` as exactly
/// the files of the leaves (below the top, or for leaves whose paths do
/// not start with a slash).
pub proof fn lemma_tree_reads(
    store: spec_fn(Seq<char>) -> Option<Seq<u8>>,
    ls: Seq<LeafView>,
    fuel: nat,
    prefix: Seq<char>,
)
    requires
        forall|i: int| 0 <= i < ls.len() ==> proper_leaf(#[trigger] ls[i]),
        rooted(prefix, ls),
        max_rel_len(ls) <= fuel,
        forall|fr: Seq<u8>| tree_frames(ls, fuel).contains(fr) ==> frame_stored(store, fr),
    ensures
        tree_files(store, hex_text(tree_id(ls, fuel)), prefix, fuel) matches Some(fs) && reads_as(fs, prefix, ls),
    decreases fuel,
{
    lemma_level_read(store, ls, fuel, prefix);
    let gs = split_level(ls).0;
    if fuel == 0 {
        if gs.len() > 0 {
            lemma_groups_nonempty(ls);
            lemma_member_leaf(ls, 0, 0);
            let i = choose|i: int| 0 <= i < ls.len() && ls[i] == expand(gs[0].0, gs[0].1[0]);
            lemma_max_rel_len_ge(ls, i);
        }
    } else {
        let f1 = (fuel - 1) as nat;
        assert forall|a: int| 0 <= a < gs.len() implies (tree_files(
            store,
            hex_text(tree_id((#[trigger] gs[a]).1, f1)),
            join_path(prefix, decode_utf8(gs[a].0)),
            f1,
        ) matches Some(sub) && reads_as(sub, join_path(prefix, decode_utf8(gs[a].0)), gs[a].1)) by {
            let ms = gs[a].1;
            let pa = join_path(prefix, decode_utf8(gs[a].0));
            assert forall|b: int| 0 <= b < ms.len() implies proper_leaf(#[trigger] ms[b]) && ms[b].rel.len() <= f1 by {
                lemma_member_leaf(ls, a, b);
                let i = choose|i: int| 0 <= i < ls.len() && ls[i] == expand(gs[a].0, ms[b]);
                assert(proper_leaf(ls[i]));
                lemma_expand_parts(gs[a].0, ms[b]);
                lemma_max_rel_len_ge(ls, i);
            }
            assert(pa.len() > 0) by {
                lemma_groups_nonempty(ls);
                lemma_member_leaf(ls, a, 0);
                let i = choose|i: int| 0 <= i < ls.len() && ls[i] == expand(gs[a].0, ms[0]);
                assert(proper_leaf(ls[i]));
                lemma_expand_parts(gs[a].0, ms[0]);
                if prefix.len() == 0 {
                    assert(ls[i].rel.len() > 0);
                }
            }
            lemma_max_rel_len_le(ms, f1);
            assert forall|fr: Seq<u8>| tree_frames(ms, f1).contains(fr) implies frame_stored(store, fr) by {
                lemma_dir_frames_has(gs, f1, a, fr);
                let df = dir_frames(gs, f1);
                let k = choose|k: int| 0 <= k < df.len() && df[k] == fr;
                assert(tree_frames(ls, fuel)[k] == fr);
            }
            lemma_tree_reads(store, ms, f1, pa);
        }
    }
    reveal(groups_read);
    lemma_level_sound(store, ls, fuel, prefix);
    lemma_level_complete(store, ls, fuel, prefix);
}

proof fn lemma_map_lookup_one(m: Seq<FoundFile>, path: Seq<char>, v: Seq<char>, j0: int)
    requires
        0 <= j0 < m.len(),
        m[j0] == (path, v),
        forall|j: int| 0 <= j < m.len() && (#[trigger] m[j]).0 == path ==> m[j].1 == v,
    ensures
        map_lookup(m, path) == Some(v),
    decreases m.len(),
{
    if m.last().0 != path {
        let p = m.drop_last();
        assert forall|j: int| 0 <= j < p.len() && (#[trigger] p[j]).0 == path implies p[j].1 == v by {
            assert(p[j] == m[j]);
        }
        assert(p[j0] == m[j0]);
        lemma_map_lookup_one(p, path, v, j0);
    }
}

proof fn lemma_lookup_some(s: Seq<EntryView>, p: Seq<char>, i: int)
    requires
        0 <= i < s.len(),
        s[i].path == p,
    ensures
        lookup(s, p) is Some,
    decreases s.len(),
{
    if s[0].path != p {
        assert(s.drop_first()[i - 1] == s[i]);
        lemma_lookup_some(s.drop_first(), p, i - 1);
    }
}

/// The staged file of an entry: its path and hex id.
pub open spec fn staged_file(e: EntryView) -> FoundFile {
    (e.path, hex_text(e.sha1))
}

/// Some file of `fs` is the staged file of entry `i` of `s`.
pub open spec fn staged_found(fs: Seq<FoundFile>, s: Seq<EntryView>, i: int) -> bool {
    exists|j: int| 0 <= j < fs.len() && #[trigger] fs[j] == staged_file(s[i])
}

/// File `j` of `fs` is the staged file of some entry of `s`.
pub open spec fn found_staged(fs: Seq<FoundFile>, s: Seq<EntryView>, j: int) -> bool {
    exists|i: int| 0 <= i < s.len() && fs[j] == #[trigger] staged_file(s[i])
}

/// `fs` holds each staged file of `s` and nothing else.
pub open spec fn holds_staged(fs: Seq<FoundFile>, s: Seq<EntryView>) -> bool {
    &&& forall|i: int| 0 <= i < s.len() ==> #[trigger] staged_found(fs, s, i)
    &&& forall|j: int| 0 <= j < fs.len() ==> #[trigger] found_staged(fs, s, j)
}

proof fn lemma_index_leaves_proper(s: Seq<EntryView>)
    requires
        forall|i: int|
            0 <= i < s.len() ==> tree_path(entry_key(#[trigger] s[i])) && s[i].sha1.len() == 20 && octal(
                s[i].mode as nat,
            ) != dir_mode(),
    ensures
        forall|i: int| 0 <= i < index_leaves(s).len() ==> proper_leaf(#[trigger] index_leaves(s)[i]),
        rooted(Seq::empty(), index_leaves(s)),
{
    let ls = index_leaves(s);
    assert forall|i: int| 0 <= i < ls.len() implies proper_leaf(#[trigger] ls[i]) && (ls[i].rel.len() == 0
        || ls[i].rel[0] != 47u8) by {
        assert(ls[i] == leaf_of(s[i]));
        assert(tree_path(entry_key(s[i])));
        encode_utf8_valid_utf8(s[i].path);
    }
}

proof fn lemma_objects_stored(objs: Seq<LooseObject>, frames: Seq<Seq<u8>>, store: spec_fn(Seq<char>) -> Option<Seq<u8>>)
    requires
        encodes_all(objs, frames),
        forall|k: int| 0 <= k < objs.len() ==> store((#[trigger] objs[k]).sha@) == Some(objs[k].compressed@),
    ensures
        forall|fr: Seq<u8>| frames.contains(fr) ==> frame_stored(store, fr),
{
    assert forall|fr: Seq<u8>| frames.contains(fr) implies frame_stored(store, fr) by {
        let k = choose|k: int| 0 <= k < frames.len() && frames[k] == fr;
        assert(encodes(objs[k], frames[k]));
        assert(store(objs[k].sha@) == Some(objs[k].compressed@));
    }
}

proof fn lemma_found_staged(fs: Seq<FoundFile>, s: Seq<EntryView>)
    requires
        reads_as(fs, Seq::empty(), index_leaves(s)),
    ensures
        holds_staged(fs, s),
{
    let ls = index_leaves(s);
    assert forall|i: int| 0 <= i < s.len() implies found_of(Seq::empty(), #[trigger] ls[i]) == staged_file(s[i]) by {
        assert(ls[i] == leaf_of(s[i]));
        encode_utf8_decode_utf8(s[i].path);
    }
    assert forall|j: int| 0 <= j < fs.len() implies #[trigger] found_staged(fs, s, j) by {
        let i = choose|i: int| 0 <= i < ls.len() && #[trigger] fs[j] == found_of(Seq::empty(), #[trigger] ls[i]);
        assert(fs[j] == staged_file(s[i]));
    }
    assert forall|i: int| 0 <= i < s.len() implies #[trigger] staged_found(fs, s, i) by {
        let j = choose|j: int| 0 <= j < fs.len() && #[trigger] fs[j] == found_of(Seq::empty(), #[trigger] ls[i]);
        assert(fs[j] == staged_file(s[i]));
    }
}

/// Files that hold exactly the staged files of sorted entries record each
/// staged path with its id and no unstaged path.
proof fn lemma_staged_lookups(fs: Seq<FoundFile>, s: Seq<EntryView>)
    requires
        sorted_entries(s),
        holds_staged(fs, s),
    ensures
        forall|i: int| 0 <= i < s.len() ==> map_lookup(fs, (#[trigger] s[i]).path) == Some(hex_text(s[i].sha1)),
        forall|j: int| 0 <= j < fs.len() ==> lookup(s, (#[trigger] fs[j]).0) is Some,
{
    assert forall|i: int| 0 <= i < s.len() implies map_lookup(fs, (#[trigger] s[i]).path) == Some(
        hex_text(s[i].sha1),
    ) by {
        assert(staged_found(fs, s, i));
        let j0 = choose|j: int| 0 <= j < fs.len() && #[trigger] fs[j] == staged_file(s[i]);
        assert forall|j: int| 0 <= j < fs.len() && (#[trigger] fs[j]).0 == s[i].path implies fs[j].1 == hex_text(
            s[i].sha1,
        ) by {
            assert(found_staged(fs, s, j));
            let i2 = choose|i2: int| 0 <= i2 < s.len() && fs[j] == #[trigger] staged_file(s[i2]);
            if i2 != i {
                lemma_lt_irreflexive(entry_key(s[i]));
                if i < i2 {
                    assert(bytes_lt(entry_key(s[i]), entry_key(s[i2])));
                } else {
                    assert(bytes_lt(entry_key(s[i2]), entry_key(s[i])));
                }
            }
        }
        lemma_map_lookup_one(fs, s[i].path, hex_text(s[i].sha1), j0);
    }
    assert forall|j: int| 0 <= j < fs.len() implies lookup(s, (#[trigger] fs[j]).0) is Some by {
        assert(found_staged(fs, s, j));
        let i = choose|i: int| 0 <= i < s.len() && fs[j] == #[trigger] staged_file(s[i]);
        lemma_lookup_some(s, fs[j].0, i);
    }
}

/// The trees written for the staged entries, once their objects are in the
/// store, read back as exactly the staged files: each staged path with its
/// staged id, no other path, so the staged changes against them are none.
/// This holds for paths without a NUL byte that do not start with a slash
/// (empty components, as in `a//b` or `a/`, read back as written; a path
/// such as `/a` is written under a directory with an empty name and reads
/// back as `a`). No staged mode is the subdirectory mode (`add_entry`
/// stages `100644` or `100755`).
pub proof fn lemma_written_tree_reads_back(
    s: Seq<EntryView>,
    objs: Seq<LooseObject>,
    store: spec_fn(Seq<char>) -> Option<Seq<u8>>,
)
    requires
        sorted_entries(s),
        forall|i: int|
            0 <= i < s.len() ==> tree_path(entry_key(#[trigger] s[i])) && s[i].sha1.len() == 20 && octal(
                s[i].mode as nat,
            ) != dir_mode(),
        encodes_all(objs, tree_frames(index_leaves(s), max_rel_len(index_leaves(s)))),
        forall|k: int| 0 <= k < objs.len() ==> store((#[trigger] objs[k]).sha@) == Some(objs[k].compressed@),
    ensures
        tree_files(
            store,
            hex_text(tree_id(index_leaves(s), max_rel_len(index_leaves(s)))),
            Seq::empty(),
            max_rel_len(index_leaves(s)),
        ) matches Some(fs) && holds_staged(fs, s) && staged_changes(fs, s) + deleted_paths(fs, fs, s, 0)
            == Seq::<DiffView>::empty(),
{
    let ls = index_leaves(s);
    let n = max_rel_len(ls);
    lemma_index_leaves_proper(s);
    lemma_objects_stored(objs, tree_frames(ls, n), store);
    lemma_tree_reads(store, ls, n, Seq::empty());
    let fs = tree_files(store, hex_text(tree_id(ls, n)), Seq::empty(), n).unwrap();
    lemma_found_staged(fs, s);
    lemma_staged_lookups(fs, s);
    lemma_matching_tree_no_changes(fs, s);
}

} // verus!
