//! Finding an object in a repository: first its loose file, then each pack
//! in turn; and where a loose object is stored.

use crate::object::{loose_object, parse_loose_object};
use crate::bytes::copy_range;
use crate::pack::{
    delta_result, apply_delta, find_in_pack_index, idx_lookup, pack_entry, unpack_object, IdxLookup, PackEntry,
    PackEntryView,
};
use crate::text::{byte_prefix, byte_suffix, chars_of, prefix_to, push_chars, string_of, suffix_from};
use vstd::prelude::*;
use vstd::utf8::*;

verus! {

broadcast use vstd::string::group_string_axioms;

/// The file that holds the loose object `sha`: `.git/objects/`, the first
/// two bytes of the id, a slash and the rest; `None` where slicing the id
/// there panics.
pub open spec fn loose_path_of(sha: Seq<char>) -> Option<Seq<char>> {
    match (byte_prefix(sha, 2), byte_suffix(sha, 2)) {
        (Some(d), Some(f)) => Some(".git/objects/"@ + d + "/"@ + f),
        _ => None,
    }
}

/// The path of the loose object file for `sha`.
pub fn loose_object_path(sha: &str) -> (r: Option<String>)
    ensures
        r is Some <==> loose_path_of(sha@) is Some,
        r matches Some(p) ==> loose_path_of(sha@) == Some(p@),
{
    let d = match prefix_to(sha, 2) {
        Some(d) => d,
        None => return None,
    };
    let f = match suffix_from(sha, 2) {
        Some(f) => f,
        None => return None,
    };
    let mut out = chars_of(".git/objects/");
    push_chars(&mut out, chars_of(d.as_str()).as_slice());
    push_chars(&mut out, chars_of("/").as_slice());
    push_chars(&mut out, chars_of(f.as_str()).as_slice());
    assert(out@ =~= ".git/objects/"@ + d@ + "/"@ + f@);
    Some(string_of(out.as_slice()))
}

/// What looking an object up yields.
pub enum ObjectLookup {
    /// The object: its type and data.
    Found { obj_type: String, data: Vec<u8> },
    /// Pack `pack` holds the object as deltas, to apply in order, to the
    /// object `base`, which must be read first; if `base` cannot be read,
    /// the search goes on with the packs after `pack`.
    NeedsBase { pack: usize, base: String, deltas: Vec<Vec<u8>> },
    /// No loose file and no pack holds it.
    Missing,
    /// A pack or its index is cut short where the search reads it.
    Corrupt,
}

/// The mathematical value of a lookup.
pub enum LookupView {
    Found(Seq<char>, Seq<u8>),
    NeedsBase(int, Seq<char>, Seq<Seq<u8>>),
    Missing,
    Corrupt,
}

impl View for ObjectLookup {
    type V = LookupView;

    open spec fn view(&self) -> LookupView {
        match self {
            ObjectLookup::Found { obj_type, data } => LookupView::Found(obj_type@, data@),
            ObjectLookup::NeedsBase { pack, base, deltas } => LookupView::NeedsBase(
                *pack as int,
                base@,
                deltas@.map_values(|d: Vec<u8>| d@),
            ),
            ObjectLookup::Missing => LookupView::Missing,
            ObjectLookup::Corrupt => LookupView::Corrupt,
        }
    }
}

/// What one pack (its `.idx` and `.pack` bytes) says of the object `sha`:
/// `None` where the search panics on cut-short data, `Some(Absent)` where
/// the pack does not yield it.
pub open spec fn pack_search(idx: Seq<u8>, pack: Seq<u8>, sha: Seq<char>) -> Option<PackEntryView> {
    match idx_lookup(idx, encode_utf8(sha)) {
        IdxLookup::Found(off) => pack_entry(pack, off as int),
        IdxLookup::Absent => Some(PackEntryView::Absent),
        IdxLookup::Corrupt => None,
    }
}

/// The search through packs `i..`: the first pack that yields the object
/// (or deltas to a base) decides; a corrupt pack stops the search.
pub open spec fn packs_lookup(packs: Seq<(Seq<u8>, Seq<u8>)>, sha: Seq<char>, i: int) -> LookupView
    decreases packs.len() - i,
{
    if i < 0 || i >= packs.len() {
        LookupView::Missing
    } else {
        match pack_search(packs[i].0, packs[i].1, sha) {
            None => LookupView::Corrupt,
            Some(PackEntryView::Absent) => packs_lookup(packs, sha, i + 1),
            Some(PackEntryView::Object(t, d)) => LookupView::Found(t, d),
            Some(PackEntryView::RefDelta(b, ds)) => LookupView::NeedsBase(i, b, ds),
        }
    }
}

/// The lookup of `sha` given the bytes of its loose file (`None` when the
/// file cannot be read) and the packs in the order they are searched: a
/// loose file that decompresses to a framed object wins; otherwise the
/// packs are searched.
pub open spec fn object_lookup(sha: Seq<char>, loose: Option<Seq<u8>>, packs: Seq<(Seq<u8>, Seq<u8>)>) -> LookupView {
    match loose {
        Some(f) => match loose_object(f) {
            Some((t, d)) => LookupView::Found(t, d),
            None => packs_lookup(packs, sha, 0),
        },
        None => packs_lookup(packs, sha, 0),
    }
}

/// The values of the `(index, pack)` byte pairs.
pub open spec fn packs_view(packs: Seq<(Vec<u8>, Vec<u8>)>) -> Seq<(Seq<u8>, Seq<u8>)> {
    packs.map_values(|p: (Vec<u8>, Vec<u8>)| (p.0@, p.1@))
}

/// The entry that one pack holds for `sha`, given the bytes of its `.idx`
/// and `.pack` files.
pub fn search_packfile(idx: &[u8], pack: &[u8], sha: &str) -> (r: Option<PackEntry>)
    ensures
        r is Some <==> pack_search(idx@, pack@, sha@) is Some,
        r matches Some(e) ==> pack_search(idx@, pack@, sha@) == Some(e@),
{
    match find_in_pack_index(idx, sha) {
        IdxLookup::Found(off) => {
            if off > usize::MAX as u64 {
                return None;
            }
            unpack_object(pack, off as usize)
        },
        IdxLookup::Absent => Some(PackEntry::Absent),
        IdxLookup::Corrupt => None,
    }
}

/// Looks up the object `sha`, given the bytes of its loose file (if any)
/// and of each pack's index and data.
pub fn read_object(sha: &str, loose: Option<&[u8]>, packs: &Vec<(Vec<u8>, Vec<u8>)>) -> (r: ObjectLookup)
    ensures
        r@ == object_lookup(
            sha@,
            match loose {
                Some(f) => Some(f@),
                None => None,
            },
            packs_view(packs@),
        ),
{
    match loose {
        Some(f) => match parse_loose_object(f) {
            Some((t, d)) => {
                return ObjectLookup::Found { obj_type: t, data: d };
            },
            None => {},
        },
        None => {},
    }
    let ghost pv = packs_view(packs@);
    let ghost lv = match loose {
        Some(f) => Some(f@),
        None => None::<Seq<u8>>,
    };
    assert(object_lookup(sha@, lv, pv) == packs_lookup(pv, sha@, 0));
    let mut i: usize = 0;
    while i < packs.len()
        invariant
            i <= packs@.len(),
            pv == packs_view(packs@),
            object_lookup(sha@, lv, pv) == packs_lookup(pv, sha@, i as int),
            lv == match loose {
                Some(f) => Some(f@),
                None => None::<Seq<u8>>,
            },
        decreases packs@.len() - i,
    {
        let p = &packs[i];
        assert(pv[i as int] == (p.0@, p.1@));
        match search_packfile(p.0.as_slice(), p.1.as_slice(), sha) {
            None => {
                return ObjectLookup::Corrupt;
            },
            Some(PackEntry::Absent) => {},
            Some(PackEntry::Object { obj_type, data }) => {
                return ObjectLookup::Found { obj_type, data };
            },
            Some(PackEntry::RefDelta { base, deltas }) => {
                return ObjectLookup::NeedsBase { pack: i, base, deltas };
            },
        }
        i = i + 1;
    }
    ObjectLookup::Missing
}

/// The object that deltas rebuild from `base`, applied in order.
pub open spec fn deltas_result(base: Seq<u8>, ds: Seq<Seq<u8>>) -> Option<Seq<u8>>
    decreases ds.len(),
{
    if ds.len() == 0 {
        Some(base)
    } else {
        match deltas_result(base, ds.drop_last()) {
            None => None,
            Some(b) => delta_result(b, ds.last()),
        }
    }
}

/// Applies deltas in order to the data of a base object read outside the
/// pack (what follows reading the base of a `NeedsBase` lookup); `None`
/// where a delta does not apply.
pub fn apply_deltas(base: &[u8], deltas: &Vec<Vec<u8>>) -> (r: Option<Vec<u8>>)
    ensures
        r is Some <==> deltas_result(base@, deltas@.map_values(|d: Vec<u8>| d@)) is Some,
        r matches Some(v) ==> deltas_result(base@, deltas@.map_values(|d: Vec<u8>| d@)) == Some(v@),
{
    let ghost dv = deltas@.map_values(|d: Vec<u8>| d@);
    let mut cur: Vec<u8> = copy_range(base, 0, base.len());
    assert(base@.subrange(0, base@.len() as int) =~= base@);
    let mut i: usize = 0;
    assert(dv.take(0) =~= Seq::<Seq<u8>>::empty());
    while i < deltas.len()
        invariant
            i <= deltas@.len(),
            dv == deltas@.map_values(|d: Vec<u8>| d@),
            deltas_result(base@, dv.take(i as int)) == Some(cur@),
        decreases deltas@.len() - i,
    {
        assert(dv.take(i + 1).drop_last() =~= dv.take(i as int));
        assert(dv.take(i + 1).last() == deltas@[i as int]@);
        match apply_delta(cur.as_slice(), deltas[i].as_slice()) {
            None => {
                proof {
                    let j = i + 1;
                    assert forall|k: int| j <= k <= dv.len() implies deltas_result(base@, #[trigger] dv.take(k)) is None by {
                        lemma_deltas_none(base@, dv, j, k);
                    }
                    assert(dv.take(dv.len() as int) =~= dv);
                }
                return None;
            },
            Some(next) => {
                cur = next;
            },
        }
        i = i + 1;
    }
    assert(dv.take(i as int) =~= dv);
    Some(cur)
}

proof fn lemma_deltas_none(base: Seq<u8>, dv: Seq<Seq<u8>>, j: int, k: int)
    requires
        0 <= j <= k <= dv.len(),
        deltas_result(base, dv.take(j)) is None,
    ensures
        deltas_result(base, dv.take(k)) is None,
    decreases k - j,
{
    if k > j {
        lemma_deltas_none(base, dv, j, k - 1);
        assert(dv.take(k).drop_last() =~= dv.take(k - 1));
    }
}

} // verus!
