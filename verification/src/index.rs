//! The staging area (`.git/index`): entries kept sorted by path, and the
//! binary form that is stored on disk.

use crate::bytes::{
    be16, be16_at, be32, be32_at, lemma_be16_roundtrip, lemma_be32_roundtrip, push_all, push_be16,
    push_be32, read_be16, read_be32,
};
use crate::digest::{sha1, sha1_digest};
use crate::hexenc::{encode_hex, hex_bytes, hex_text, is_object_id_text, parse_object_id};
use crate::order::{
    bytes_lt, compare_bytes, lemma_lt_asymmetric, lemma_lt_irreflexive, lemma_lt_total,
    lemma_lt_transitive, Order3,
};
use crate::text::{from_utf8_lossy, lossy_text};
use vstd::prelude::*;
use vstd::utf8::*;

verus! {

broadcast use vstd::string::group_string_axioms;

/// One staged file: the stat data recorded when it was added, the id of
/// its blob, the flags word (whose low 12 bits hold the path length) and
/// its path.
pub struct IndexEntry {
    pub ctime_s: u32,
    pub ctime_n: u32,
    pub mtime_s: u32,
    pub mtime_n: u32,
    pub dev: u32,
    pub ino: u32,
    pub mode: u32,
    pub uid: u32,
    pub gid: u32,
    pub size: u32,
    pub sha1: [u8; 20],
    pub flags: u16,
    pub path: String,
}

/// The mathematical value of an index entry.
pub struct EntryView {
    pub ctime_s: u32,
    pub ctime_n: u32,
    pub mtime_s: u32,
    pub mtime_n: u32,
    pub dev: u32,
    pub ino: u32,
    pub mode: u32,
    pub uid: u32,
    pub gid: u32,
    pub size: u32,
    pub sha1: Seq<u8>,
    pub flags: u16,
    pub path: Seq<char>,
}

impl View for IndexEntry {
    type V = EntryView;

    open spec fn view(&self) -> EntryView {
        EntryView {
            ctime_s: self.ctime_s,
            ctime_n: self.ctime_n,
            mtime_s: self.mtime_s,
            mtime_n: self.mtime_n,
            dev: self.dev,
            ino: self.ino,
            mode: self.mode,
            uid: self.uid,
            gid: self.gid,
            size: self.size,
            sha1: self.sha1@,
            flags: self.flags,
            path: self.path@,
        }
    }
}

impl Clone for IndexEntry {
    fn clone(&self) -> (r: Self)
        ensures
            r@ == self@,
    {
        IndexEntry {
            ctime_s: self.ctime_s,
            ctime_n: self.ctime_n,
            mtime_s: self.mtime_s,
            mtime_n: self.mtime_n,
            dev: self.dev,
            ino: self.ino,
            mode: self.mode,
            uid: self.uid,
            gid: self.gid,
            size: self.size,
            sha1: self.sha1,
            flags: self.flags,
            path: self.path.clone(),
        }
    }
}

/// The stat data of a file in the work tree, as the index records it.
pub struct FileStat {
    pub ctime_s: u32,
    pub ctime_n: u32,
    pub mtime_s: u32,
    pub mtime_n: u32,
    pub dev: u32,
    pub ino: u32,
    pub mode: u32,
    pub uid: u32,
    pub gid: u32,
    pub size: u32,
}

impl IndexEntry {
    /// The staged blob id as hex text.
    pub fn sha_hex(&self) -> (r: String)
        ensures
            r@ == hex_text(self.sha1@),
    {
        encode_hex(&self.sha1)
    }

    /// The recorded stat data still describes the file: modification time,
    /// size, inode and device all agree.
    pub fn matches_stat(&self, mtime_s: u32, mtime_n: u32, size: u32, ino: u32, dev: u32) -> (r:
        bool)
        ensures
            r == (self.mtime_s == mtime_s && self.mtime_n == mtime_n && self.size == size
                && self.ino == ino && self.dev == dev),
    {
        self.mtime_s == mtime_s && self.mtime_n == mtime_n && self.size == size && self.ino == ino
            && self.dev == dev
    }
}

/// The bytes by which entries are ordered: the UTF-8 form of the path.
pub open spec fn entry_key(e: EntryView) -> Seq<u8> {
    encode_utf8(e.path)
}

/// Entries in strictly increasing path order (so no path occurs twice).
pub open spec fn sorted_entries(s: Seq<EntryView>) -> bool {
    forall|i: int, j: int|
        0 <= i < j < s.len() ==> bytes_lt(entry_key(#[trigger] s[i]), entry_key(#[trigger] s[j]))
}

/// `s` with `e` put in its place by path, replacing an entry with the same path.
pub open spec fn insert_sorted(s: Seq<EntryView>, e: EntryView) -> Seq<EntryView>
    decreases s.len(),
{
    if s.len() == 0 {
        seq![e]
    } else if bytes_lt(entry_key(e), entry_key(s[0])) {
        seq![e] + s
    } else if entry_key(e) == entry_key(s[0]) {
        seq![e] + s.drop_first()
    } else {
        seq![s[0]] + insert_sorted(s.drop_first(), e)
    }
}

/// `s` without the entries whose path is `p`.
pub open spec fn remove_path(s: Seq<EntryView>, p: Seq<char>) -> Seq<EntryView>
    decreases s.len(),
{
    if s.len() == 0 {
        s
    } else if s[0].path == p {
        remove_path(s.drop_first(), p)
    } else {
        seq![s[0]] + remove_path(s.drop_first(), p)
    }
}

/// The first entry of `s` whose path is `p`.
pub open spec fn lookup(s: Seq<EntryView>, p: Seq<char>) -> Option<EntryView>
    decreases s.len(),
{
    if s.len() == 0 {
        None
    } else if s[0].path == p {
        Some(s[0])
    } else {
        lookup(s.drop_first(), p)
    }
}

/// The entries that a sequence of insertions builds, starting from none.
pub open spec fn entries_from(es: Seq<EntryView>) -> Seq<EntryView> {
    es.fold_left(Seq::<EntryView>::empty(), |acc: Seq<EntryView>, e: EntryView| insert_sorted(acc, e))
}

pub proof fn lemma_key_injective(p: Seq<char>, q: Seq<char>)
    requires
        encode_utf8(p) == encode_utf8(q),
    ensures
        p == q,
{
    encode_utf8_decode_utf8(p);
    encode_utf8_decode_utf8(q);
}

proof fn lemma_sorted_tail(s: Seq<EntryView>)
    requires
        sorted_entries(s),
        s.len() > 0,
    ensures
        sorted_entries(s.drop_first()),
{
    assert forall|i: int, j: int| 0 <= i < j < s.drop_first().len() implies bytes_lt(
        entry_key(#[trigger] s.drop_first()[i]),
        entry_key(#[trigger] s.drop_first()[j]),
    ) by {
        assert(s.drop_first()[i] == s[i + 1]);
        assert(s.drop_first()[j] == s[j + 1]);
    }
}

/// Where an entry with key `k` goes in sorted `s`: all before `i` sort below `k`.
pub open spec fn is_insert_point(s: Seq<EntryView>, k: Seq<u8>, i: int) -> bool {
    &&& 0 <= i <= s.len()
    &&& forall|j: int| 0 <= j < i ==> bytes_lt(entry_key(#[trigger] s[j]), k)
    &&& i < s.len() ==> !bytes_lt(entry_key(s[i]), k)
}

proof fn lemma_insert_at(s: Seq<EntryView>, e: EntryView, i: int)
    requires
        sorted_entries(s),
        is_insert_point(s, entry_key(e), i),
    ensures
        insert_sorted(s, e) == (if i < s.len() && entry_key(s[i]) == entry_key(e) {
            s.update(i, e)
        } else {
            s.insert(i, e)
        }),
    decreases s.len(),
{
    let k = entry_key(e);
    if s.len() == 0 {
        assert(s.insert(i, e) =~= seq![e]);
    } else if i == 0 {
        lemma_lt_total(entry_key(s[0]), k);
        if entry_key(s[0]) == k {
            assert(s.update(0, e) =~= seq![e] + s.drop_first());
        } else {
            assert(s.insert(0, e) =~= seq![e] + s);
        }
    } else {
        assert(bytes_lt(entry_key(s[0]), k));
        lemma_lt_asymmetric(entry_key(s[0]), k);
        lemma_lt_irreflexive(k);
        lemma_sorted_tail(s);
        let t = s.drop_first();
        assert forall|j: int| 0 <= j < i - 1 implies bytes_lt(entry_key(#[trigger] t[j]), k) by {
            assert(t[j] == s[j + 1]);
        }
        lemma_insert_at(t, e, i - 1);
        if i < s.len() && entry_key(s[i]) == k {
            assert(s.update(i, e) =~= seq![s[0]] + t.update(i - 1, e));
        } else {
            assert(s.insert(i, e) =~= seq![s[0]] + t.insert(i - 1, e));
        }
    }
}

/// Inserting keeps the entries sorted.
pub proof fn lemma_insert_sorted_sorted(s: Seq<EntryView>, e: EntryView)
    requires
        sorted_entries(s),
    ensures
        sorted_entries(insert_sorted(s, e)),
    decreases s.len(),
{
    let k = entry_key(e);
    if s.len() > 0 {
        lemma_sorted_tail(s);
        lemma_insert_sorted_sorted(s.drop_first(), e);
        let r = insert_sorted(s, e);
        if bytes_lt(k, entry_key(s[0])) {
            assert forall|i: int, j: int| 0 <= i < j < r.len() implies bytes_lt(
                entry_key(#[trigger] r[i]),
                entry_key(#[trigger] r[j]),
            ) by {
                if i == 0 {
                    if j > 1 {
                        lemma_lt_transitive(k, entry_key(s[0]), entry_key(s[j - 1]));
                    }
                } else {
                    assert(r[i] == s[i - 1] && r[j] == s[j - 1]);
                }
            }
        } else if k == entry_key(s[0]) {
            assert forall|i: int, j: int| 0 <= i < j < r.len() implies bytes_lt(
                entry_key(#[trigger] r[i]),
                entry_key(#[trigger] r[j]),
            ) by {
                if i == 0 {
                    assert(r[j] == s[j]);
                } else {
                    assert(r[i] == s[i] && r[j] == s[j]);
                }
            }
        } else {
            lemma_lt_total(k, entry_key(s[0]));
            let t = insert_sorted(s.drop_first(), e);
            lemma_insert_members(s.drop_first(), e);
            assert forall|i: int, j: int| 0 <= i < j < r.len() implies bytes_lt(
                entry_key(#[trigger] r[i]),
                entry_key(#[trigger] r[j]),
            ) by {
                if i == 0 {
                    assert(r[j] == t[j - 1]);
                    let x = t[j - 1];
                    if entry_key(x) == k {
                    } else {
                        let m = choose|m: int| 0 <= m < s.drop_first().len() && s.drop_first()[m] == x;
                        assert(s.drop_first()[m] == s[m + 1]);
                    }
                } else {
                    assert(r[i] == t[i - 1] && r[j] == t[j - 1]);
                }
            }
        }
    }
}

/// Every entry of `insert_sorted(s, e)` is `e` or an entry of `s`.
proof fn lemma_insert_members(s: Seq<EntryView>, e: EntryView)
    ensures
        forall|i: int|
            0 <= i < insert_sorted(s, e).len() ==> entry_key(#[trigger] insert_sorted(s, e)[i])
                == entry_key(e) || exists|m: int| 0 <= m < s.len() && s[m] == insert_sorted(s, e)[i],
    decreases s.len(),
{
    if s.len() > 0 {
        lemma_insert_members(s.drop_first(), e);
        let r = insert_sorted(s, e);
        assert forall|i: int| 0 <= i < r.len() implies entry_key(#[trigger] r[i]) == entry_key(e)
            || exists|m: int| 0 <= m < s.len() && s[m] == r[i] by {
            if bytes_lt(entry_key(e), entry_key(s[0])) {
                if i > 0 {
                    assert(s[i - 1] == r[i]);
                }
            } else if entry_key(e) == entry_key(s[0]) {
                if i > 0 {
                    assert(s[i] == r[i]);
                }
            } else {
                if i == 0 {
                    assert(s[0] == r[0]);
                } else {
                    let t = insert_sorted(s.drop_first(), e);
                    assert(r[i] == t[i - 1]);
                    if entry_key(t[i - 1]) != entry_key(e) {
                        let m = choose|m: int| 0 <= m < s.drop_first().len() && s.drop_first()[m] == t[i - 1];
                        assert(s[m + 1] == r[i]);
                    }
                }
            }
        }
    }
}

/// After inserting `e`, looking up its path finds `e`, and every other path
/// finds what it found before.
pub proof fn lemma_lookup_insert(s: Seq<EntryView>, e: EntryView, p: Seq<char>)
    ensures
        lookup(insert_sorted(s, e), p) == (if p == e.path {
            Some(e)
        } else {
            lookup(s, p)
        }),
    decreases s.len(),
{
    if s.len() == 0 {
        assert(seq![e].drop_first() =~= Seq::<EntryView>::empty());
        assert(lookup(Seq::<EntryView>::empty(), p) is None);
        assert(insert_sorted(s, e) == seq![e]);
        assert(seq![e][0] == e);
    } else {
        lemma_lookup_insert(s.drop_first(), e, p);
        let r = insert_sorted(s, e);
        if bytes_lt(entry_key(e), entry_key(s[0])) {
            assert(r == seq![e] + s);
            assert(r[0] == e);
            assert(r.drop_first() =~= s);
        } else if entry_key(e) == entry_key(s[0]) {
            lemma_key_injective(e.path, s[0].path);
            assert(r == seq![e] + s.drop_first());
            assert(r[0] == e);
            assert(r.drop_first() =~= s.drop_first());
        } else {
            let t = insert_sorted(s.drop_first(), e);
            assert(r == seq![s[0]] + t);
            assert(r[0] == s[0]);
            assert(r.drop_first() =~= t);
            assert(e.path != s[0].path);
        }
    }
}

/// After removing a path, looking it up finds nothing, and every other path
/// finds what it found before.
pub proof fn lemma_lookup_remove(s: Seq<EntryView>, q: Seq<char>, p: Seq<char>)
    ensures
        lookup(remove_path(s, q), p) == (if p == q {
            None
        } else {
            lookup(s, p)
        }),
    decreases s.len(),
{
    if s.len() > 0 {
        lemma_lookup_remove(s.drop_first(), q, p);
        if s[0].path != q {
            assert((seq![s[0]] + remove_path(s.drop_first(), q)).drop_first() =~= remove_path(
                s.drop_first(),
                q,
            ));
        }
    }
}

proof fn lemma_no_path_beyond(s: Seq<EntryView>, k: Seq<u8>, i: int)
    requires
        sorted_entries(s),
        is_insert_point(s, k, i),
        i < s.len() ==> entry_key(s[i]) != k,
    ensures
        forall|j: int| 0 <= j < s.len() ==> entry_key(#[trigger] s[j]) != k,
{
    assert forall|j: int| 0 <= j < s.len() implies entry_key(#[trigger] s[j]) != k by {
        if j < i {
            lemma_lt_irreflexive(k);
        } else {
            lemma_lt_total(entry_key(s[i]), k);
            if j > i {
                lemma_lt_transitive(k, entry_key(s[i]), entry_key(s[j]));
                lemma_lt_irreflexive(k);
            }
        }
    }
}

proof fn lemma_lookup_at(s: Seq<EntryView>, p: Seq<char>, i: int)
    requires
        0 <= i <= s.len(),
        forall|j: int| 0 <= j < i ==> (#[trigger] s[j]).path != p,
        i < s.len() ==> s[i].path == p,
    ensures
        lookup(s, p) == (if i < s.len() {
            Some(s[i])
        } else {
            None
        }),
    decreases s.len(),
{
    if s.len() > 0 && i > 0 {
        let t = s.drop_first();
        assert forall|j: int| 0 <= j < i - 1 implies (#[trigger] t[j]).path != p by {
            assert(t[j] == s[j + 1]);
        }
        lemma_lookup_at(t, p, i - 1);
    }
}

proof fn lemma_remove_at(s: Seq<EntryView>, p: Seq<char>, i: int)
    requires
        0 <= i <= s.len(),
        forall|j: int| 0 <= j < s.len() && j != i ==> (#[trigger] s[j]).path != p,
        i < s.len() ==> s[i].path == p,
    ensures
        remove_path(s, p) == (if i < s.len() {
            s.remove(i)
        } else {
            s
        }),
    decreases s.len(),
{
    if s.len() > 0 {
        let t = s.drop_first();
        assert forall|j: int| 0 <= j < t.len() && j != i - 1 implies (#[trigger] t[j]).path != p by {
            assert(t[j] == s[j + 1]);
        }
        if i == 0 {
            lemma_remove_at(t, p, t.len() as int);
            assert(s.remove(0) =~= t);
        } else {
            lemma_remove_at(t, p, i - 1);
            if i < s.len() {
                assert(s.remove(i) =~= seq![s[0]] + t.remove(i - 1));
            } else {
                assert(s =~= seq![s[0]] + t);
            }
        }
    }
}


/// The mode that a file is staged with: `100755` when its owner may
/// execute it, else `100644`.
pub open spec fn staged_mode(m: u32) -> u32 {
    if m & 0o100u32 != 0 {
        0o100755u32
    } else {
        0o100644u32
    }
}

/// The entry that staging `path` with blob `id` and stat data `st` records:
/// the normalised file mode, and flags holding the byte length of the path,
/// cut to 12 bits.
pub open spec fn staged_entry(path: Seq<char>, id: Seq<u8>, st: FileStat) -> EntryView {
    EntryView {
        ctime_s: st.ctime_s,
        ctime_n: st.ctime_n,
        mtime_s: st.mtime_s,
        mtime_n: st.mtime_n,
        dev: st.dev,
        ino: st.ino,
        mode: staged_mode(st.mode),
        uid: st.uid,
        gid: st.gid,
        size: st.size,
        sha1: id,
        flags: (encode_utf8(path).len() % 4096) as u16,
        path: path,
    }
}

/// `n` zero bytes.
pub open spec fn zeros(n: int) -> Seq<u8> {
    Seq::new(n as nat, |i: int| 0u8)
}

/// How many zero bytes (one to eight) end an entry of `n` bytes: enough for
/// a multiple of 8, and at least one, so the path is NUL-terminated.
pub open spec fn pad_len(n: int) -> int {
    8 - n % 8
}

/// The ten stat words of an entry, big-endian.
pub open spec fn stat_bytes(e: EntryView) -> Seq<u8> {
    be32(e.ctime_s) + be32(e.ctime_n) + be32(e.mtime_s) + be32(e.mtime_n) + be32(e.dev) + be32(
        e.ino,
    ) + be32(e.mode) + be32(e.uid) + be32(e.gid) + be32(e.size)
}

/// An entry on disk: stat words, id, flags and path, padded with zeros to a
/// multiple of 8 bytes.
#[verifier::opaque]
pub open spec fn entry_bytes(e: EntryView) -> Seq<u8> {
    let body = stat_bytes(e) + e.sha1 + be16(e.flags) + encode_utf8(e.path);
    body + zeros(pad_len(body.len() as int))
}

/// The entries on disk, one after another.
pub open spec fn entries_bytes(s: Seq<EntryView>) -> Seq<u8>
    decreases s.len(),
{
    if s.len() == 0 {
        Seq::empty()
    } else {
        entry_bytes(s[0]) + entries_bytes(s.drop_first())
    }
}

/// The index file before its checksum: signature `DIRC`, version 2, the
/// entry count (cut to 32 bits) and the entries.
pub open spec fn index_body(s: Seq<EntryView>) -> Seq<u8> {
    seq![68u8, 73u8, 82u8, 67u8] + be32(2) + be32(s.len() as u32) + entries_bytes(s)
}

/// The index file: its body followed by the SHA-1 of the body.
pub open spec fn index_bytes(s: Seq<EntryView>) -> Seq<u8> {
    index_body(s) + sha1_digest(index_body(s))
}

/// The entry that starts at `off`, and where the next one starts; `None`
/// where reading it would run past the data.
#[verifier::opaque]
pub open spec fn entry_at(d: Seq<u8>, off: int) -> Option<(EntryView, int)> {
    if off + 62 > d.len() {
        None
    } else {
        let flags = be16_at(d, off + 60);
        let plen = (flags & 0xFFFu16) as int;
        let next = off + 62 + plen + pad_len(62 + plen);
        if off + 62 + plen > d.len() || next > usize::MAX {
            None
        } else {
            Some(
                (
                    EntryView {
                        ctime_s: be32_at(d, off),
                        ctime_n: be32_at(d, off + 4),
                        mtime_s: be32_at(d, off + 8),
                        mtime_n: be32_at(d, off + 12),
                        dev: be32_at(d, off + 16),
                        ino: be32_at(d, off + 20),
                        mode: be32_at(d, off + 24),
                        uid: be32_at(d, off + 28),
                        gid: be32_at(d, off + 32),
                        size: be32_at(d, off + 36),
                        sha1: d.subrange(off + 40, off + 60),
                        flags: flags,
                        path: lossy_text(d.subrange(off + 62, off + 62 + plen)),
                    },
                    next,
                ),
            )
        }
    }
}

/// The `n` entries that start at `off`, `None` where one runs past the data.
pub open spec fn entries_at(d: Seq<u8>, off: int, n: nat) -> Option<Seq<EntryView>>
    decreases n,
{
    if n == 0 {
        Some(Seq::empty())
    } else {
        match entry_at(d, off) {
            None => None,
            Some((e, next)) => match entries_at(d, next, (n - 1) as nat) {
                None => None,
                Some(rest) => Some(seq![e] + rest),
            },
        }
    }
}

/// The entries that an index file holds: none when it is shorter than its
/// header, else the counted entries, later ones replacing earlier ones with
/// the same path; `None` where an entry runs past the data.
pub open spec fn parsed_index(d: Seq<u8>) -> Option<Seq<EntryView>> {
    if d.len() < 12 {
        Some(Seq::empty())
    } else {
        match entries_at(d, 12, be32_at(d, 8) as nat) {
            Some(es) => Some(entries_from(es)),
            None => None,
        }
    }
}

spec fn prepend_opt(acc: Seq<EntryView>, o: Option<Seq<EntryView>>) -> Option<Seq<EntryView>> {
    match o {
        Some(r) => Some(acc + r),
        None => None,
    }
}

/// An entry as the index writes it: a 20-byte id and flags that give the
/// byte length of its path.
pub open spec fn entry_well_formed(e: EntryView) -> bool {
    &&& e.sha1.len() == 20
    &&& (e.flags & 0xFFFu16) as int == encode_utf8(e.path).len()
}

proof fn lemma_entries_bytes_push(s: Seq<EntryView>, i: int)
    requires
        0 <= i < s.len(),
    ensures
        entries_bytes(s.take(i + 1)) == entries_bytes(s.take(i)) + entry_bytes(s[i]),
    decreases i,
{
    if i == 0 {
        assert(s.take(1).drop_first() =~= Seq::<EntryView>::empty());
        assert(s.take(0) =~= Seq::<EntryView>::empty());
        assert(entries_bytes(Seq::<EntryView>::empty()) == Seq::<u8>::empty());
        assert(s.take(1)[0] == s[0]);
        assert(entries_bytes(s.take(1)) =~= entry_bytes(s[0]));
    } else {
        let t = s.drop_first();
        lemma_entries_bytes_push(t, i - 1);
        assert(s.take(i + 1).drop_first() =~= t.take(i));
        assert(s.take(i).drop_first() =~= t.take(i - 1));
        assert(s.take(i + 1)[0] == s[0]);
        assert(s.take(i)[0] == s[0]);
        assert(t[i - 1] == s[i]);
        assert(entries_bytes(s.take(i + 1)) =~= entries_bytes(s.take(i)) + entry_bytes(s[i]));
    }
}

proof fn lemma_sub_of_sub(d: Seq<u8>, off: int, eb: Seq<u8>, a: int, b: int)
    requires
        0 <= off,
        off + eb.len() <= d.len(),
        d.subrange(off, off + eb.len()) == eb,
        0 <= a <= b <= eb.len(),
    ensures
        d.subrange(off + a, off + b) == eb.subrange(a, b),
{
    assert forall|t: int| 0 <= t < b - a implies d.subrange(off + a, off + b)[t] == eb.subrange(a, b)[t] by {
        assert(d.subrange(off, off + eb.len())[a + t] == d[off + a + t]);
    }
    assert(d.subrange(off + a, off + b) =~= eb.subrange(a, b));
}

proof fn lemma_entry_at_roundtrip(d: Seq<u8>, off: int, e: EntryView)
    requires
        0 <= off,
        off + entry_bytes(e).len() <= d.len(),
        d.len() <= usize::MAX,
        d.subrange(off, off + entry_bytes(e).len()) == entry_bytes(e),
        entry_well_formed(e),
    ensures
        entry_at(d, off) == Some((e, off + entry_bytes(e).len())),
{
    reveal(entry_bytes);
    reveal(entry_at);
    let eb = entry_bytes(e);
    let st = stat_bytes(e);
    let pb = encode_utf8(e.path);
    let plen = pb.len() as int;
    assert(st.len() == 40);
    let body = st + e.sha1 + be16(e.flags) + pb;
    assert(body.len() == 62 + plen);
    assert(eb == body + zeros(pad_len(62 + plen)));
    assert(eb.subrange(0, 4) =~= be32(e.ctime_s));
    assert(eb.subrange(4, 8) =~= be32(e.ctime_n));
    assert(eb.subrange(8, 12) =~= be32(e.mtime_s));
    assert(eb.subrange(12, 16) =~= be32(e.mtime_n));
    assert(eb.subrange(16, 20) =~= be32(e.dev));
    assert(eb.subrange(20, 24) =~= be32(e.ino));
    assert(eb.subrange(24, 28) =~= be32(e.mode));
    assert(eb.subrange(28, 32) =~= be32(e.uid));
    assert(eb.subrange(32, 36) =~= be32(e.gid));
    assert(eb.subrange(36, 40) =~= be32(e.size));
    assert(eb.subrange(40, 60) =~= e.sha1);
    assert(eb.subrange(60, 62) =~= be16(e.flags));
    assert(eb.subrange(62, 62 + plen) =~= pb);
    lemma_sub_of_sub(d, off, eb, 0, 4);
    lemma_sub_of_sub(d, off, eb, 4, 8);
    lemma_sub_of_sub(d, off, eb, 8, 12);
    lemma_sub_of_sub(d, off, eb, 12, 16);
    lemma_sub_of_sub(d, off, eb, 16, 20);
    lemma_sub_of_sub(d, off, eb, 20, 24);
    lemma_sub_of_sub(d, off, eb, 24, 28);
    lemma_sub_of_sub(d, off, eb, 28, 32);
    lemma_sub_of_sub(d, off, eb, 32, 36);
    lemma_sub_of_sub(d, off, eb, 36, 40);
    lemma_sub_of_sub(d, off, eb, 40, 60);
    lemma_sub_of_sub(d, off, eb, 60, 62);
    lemma_sub_of_sub(d, off, eb, 62, 62 + plen);
    lemma_be32_roundtrip(e.ctime_s, d, off);
    lemma_be32_roundtrip(e.ctime_n, d, off + 4);
    lemma_be32_roundtrip(e.mtime_s, d, off + 8);
    lemma_be32_roundtrip(e.mtime_n, d, off + 12);
    lemma_be32_roundtrip(e.dev, d, off + 16);
    lemma_be32_roundtrip(e.ino, d, off + 20);
    lemma_be32_roundtrip(e.mode, d, off + 24);
    lemma_be32_roundtrip(e.uid, d, off + 28);
    lemma_be32_roundtrip(e.gid, d, off + 32);
    lemma_be32_roundtrip(e.size, d, off + 36);
    lemma_be16_roundtrip(e.flags, d, off + 60);
    encode_utf8_valid_utf8(e.path);
    encode_utf8_decode_utf8(e.path);
}

proof fn lemma_entries_at_roundtrip(d: Seq<u8>, off: int, s: Seq<EntryView>)
    requires
        0 <= off,
        off + entries_bytes(s).len() <= d.len(),
        d.len() <= usize::MAX,
        d.subrange(off, off + entries_bytes(s).len()) == entries_bytes(s),
        forall|i: int| 0 <= i < s.len() ==> entry_well_formed(#[trigger] s[i]),
    ensures
        entries_at(d, off, s.len()) == Some(s),
    decreases s.len(),
{
    if s.len() == 0 {
        assert(entries_at(d, off, 0) == Some(Seq::<EntryView>::empty()));
        assert(s =~= Seq::<EntryView>::empty());
    } else {
        let eb = entry_bytes(s[0]);
        let rb = entries_bytes(s.drop_first());
        assert(entries_bytes(s) == eb + rb);
        lemma_sub_of_sub(d, off, eb + rb, 0, eb.len() as int);
        assert((eb + rb).subrange(0, eb.len() as int) =~= eb);
        assert(entry_well_formed(s[0]));
        lemma_entry_at_roundtrip(d, off, s[0]);
        lemma_sub_of_sub(d, off, eb + rb, eb.len() as int, (eb + rb).len() as int);
        assert((eb + rb).subrange(eb.len() as int, (eb + rb).len() as int) =~= rb);
        let t = s.drop_first();
        assert forall|i: int| 0 <= i < t.len() implies entry_well_formed(#[trigger] t[i]) by {
            assert(t[i] == s[i + 1]);
        }
        lemma_entries_at_roundtrip(d, off + eb.len(), t);
        assert(seq![s[0]] + t =~= s);
    }
}

proof fn lemma_entries_from_sorted(s: Seq<EntryView>)
    requires
        sorted_entries(s),
    ensures
        entries_from(s) == s,
    decreases s.len(),
{
    if s.len() > 0 {
        let p = s.drop_last();
        assert(sorted_entries(p)) by {
            assert forall|i: int, j: int| 0 <= i < j < p.len() implies bytes_lt(
                entry_key(#[trigger] p[i]),
                entry_key(#[trigger] p[j]),
            ) by {
                assert(p[i] == s[i] && p[j] == s[j]);
            }
        }
        lemma_entries_from_sorted(p);
        let e = s.last();
        assert(is_insert_point(p, entry_key(e), p.len() as int)) by {
            assert forall|j: int| 0 <= j < p.len() implies bytes_lt(entry_key(#[trigger] p[j]), entry_key(e)) by {
                assert(p[j] == s[j]);
            }
        }
        lemma_insert_at(p, e, p.len() as int);
        assert(p.insert(p.len() as int, e) =~= s);
    }
}

/// Reading back a written index gives the entries that were written, for
/// sorted, well-formed entries fewer than 2^32.
pub proof fn lemma_index_roundtrip(s: Seq<EntryView>)
    requires
        sorted_entries(s),
        forall|i: int| 0 <= i < s.len() ==> entry_well_formed(#[trigger] s[i]),
        s.len() < 0x1_0000_0000,
        index_bytes(s).len() <= usize::MAX,
    ensures
        parsed_index(index_bytes(s)) == Some(s),
{
    let d = index_bytes(s);
    let hdr = seq![68u8, 73u8, 82u8, 67u8] + be32(2) + be32(s.len() as u32);
    assert(index_body(s) == hdr + entries_bytes(s));
    assert(d.subrange(8, 12) =~= be32(s.len() as u32));
    lemma_be32_roundtrip(s.len() as u32, d, 8);
    assert(d.subrange(12, 12 + entries_bytes(s).len() as int) =~= entries_bytes(s));
    lemma_entries_at_roundtrip(d, 12, s);
    lemma_entries_from_sorted(s);
}


/// Appends the on-disk form of one entry.
fn push_entry(data: &mut Vec<u8>, e: &IndexEntry)
    ensures
        final(data)@ == old(data)@ + entry_bytes(e@),
{
    let ghost before = data@;
    let start = data.len();
    push_be32(data, e.ctime_s);
    push_be32(data, e.ctime_n);
    push_be32(data, e.mtime_s);
    push_be32(data, e.mtime_n);
    push_be32(data, e.dev);
    push_be32(data, e.ino);
    push_be32(data, e.mode);
    push_be32(data, e.uid);
    push_be32(data, e.gid);
    push_be32(data, e.size);
    push_all(data, &e.sha1);
    push_be16(data, e.flags);
    push_all(data, e.path.as_str().as_bytes());
    let entry_len = data.len() - start;
    let padding = 8 - entry_len % 8;
    let ghost body = data@.subrange(before.len() as int, data@.len() as int);
    assert(body =~= stat_bytes(e@) + e@.sha1 + be16(e.flags) + encode_utf8(e@.path));
    let mut z: usize = 0;
    while z < padding
        invariant
            z <= padding,
            data@ == before + body + zeros(z as int),
        decreases padding - z,
    {
        data.push(0u8);
        z = z + 1;
        assert(data@ =~= before + body + zeros(z as int));
    }
    reveal(entry_bytes);
    assert(entry_bytes(e@) =~= body + zeros(padding as int));
    assert(data@ =~= before + entry_bytes(e@));
}

/// Reads the entry that starts at `off`.
fn parse_entry(data: &[u8], off: usize) -> (r: Option<(IndexEntry, usize)>)
    ensures
        r is Some <==> entry_at(data@, off as int) is Some,
        r matches Some((e, next)) ==> entry_at(data@, off as int) == Some((e@, next as int)),
{
    reveal(entry_at);
    if off > data.len() || data.len() - off < 62 {
        return None;
    }
    let flags = read_be16(data, off + 60);
    let plen = (flags & 0xFFFu16) as usize;
    if data.len() - off - 62 < plen {
        return None;
    }
    let end = off + 62 + plen;
    let pad = 8 - (62 + plen) % 8;
    if end > usize::MAX - pad {
        return None;
    }
    let mut id = [0u8; 20];
    let mut i: usize = 0;
    while i < 20
        invariant
            i <= 20,
            off + 62 <= data.len(),
            forall|j: int| 0 <= j < i ==> id@[j] == data@[off + 40 + j],
        decreases 20 - i,
    {
        id[i] = data[off + 40 + i];
        i = i + 1;
    }
    assert(id@ =~= data@.subrange(off + 40, off + 60));
    let path = from_utf8_lossy(&data[off + 62..end]);
    let e = IndexEntry {
        ctime_s: read_be32(data, off),
        ctime_n: read_be32(data, off + 4),
        mtime_s: read_be32(data, off + 8),
        mtime_n: read_be32(data, off + 12),
        dev: read_be32(data, off + 16),
        ino: read_be32(data, off + 20),
        mode: read_be32(data, off + 24),
        uid: read_be32(data, off + 28),
        gid: read_be32(data, off + 32),
        size: read_be32(data, off + 36),
        sha1: id,
        flags: flags,
        path: path,
    };
    Some((e, end + pad))
}

/// The staged entries, kept in increasing path order.
pub struct Index {
    entries: Vec<IndexEntry>,
}

impl View for Index {
    type V = Seq<EntryView>;

    closed spec fn view(&self) -> Seq<EntryView> {
        self.entries@.map_values(|e: IndexEntry| e@)
    }
}

impl Index {
    #[verifier::type_invariant]
    spec fn sorted(self) -> bool {
        sorted_entries(self.entries@.map_values(|e: IndexEntry| e@))
    }

    /// An index with no entries.
    pub fn new() -> (r: Index)
        ensures
            r@ == Seq::<EntryView>::empty(),
            sorted_entries(r@),
    {
        let r = Index { entries: Vec::new() };
        assert(r@ =~= Seq::<EntryView>::empty());
        r
    }

    /// The number of entries.
    pub fn len(&self) -> (r: usize)
        ensures
            r == self@.len(),
    {
        self.entries.len()
    }

    /// True when nothing is staged.
    pub fn is_empty(&self) -> (r: bool)
        ensures
            r == (self@.len() == 0),
    {
        self.entries.len() == 0
    }

    /// The entries, in increasing path order.
    pub fn entries(&self) -> (r: &[IndexEntry])
        ensures
            r@.map_values(|e: IndexEntry| e@) == self@,
            sorted_entries(self@),
    {
        proof {
            use_type_invariant(self);
        }
        self.entries.as_slice()
    }

    /// Where `key` belongs among the entries, and whether an entry has it.
    fn position(&self, key: &[u8]) -> (r: (usize, bool))
        ensures
            is_insert_point(self@, key@, r.0 as int),
            r.1 == (r.0 < self@.len() && entry_key(self@[r.0 as int]) == key@),
    {
        let mut i: usize = 0;
        while i < self.entries.len()
            invariant
                i <= self.entries@.len(),
                forall|j: int| 0 <= j < i ==> bytes_lt(entry_key(#[trigger] self@[j]), key@),
            decreases self.entries@.len() - i,
        {
            match compare_bytes(self.entries[i].path.as_str().as_bytes(), key) {
                Order3::Less => {
                    i = i + 1;
                },
                Order3::Equal => {
                    return (i, true);
                },
                Order3::Greater => {
                    proof {
                        lemma_lt_asymmetric(key@, entry_key(self@[i as int]));
                    }
                    return (i, false);
                },
            }
        }
        (i, false)
    }

    /// The entry staged at `path`.
    pub fn get(&self, path: &str) -> (r: Option<&IndexEntry>)
        ensures
            r is Some <==> lookup(self@, path@) is Some,
            r matches Some(e) ==> lookup(self@, path@) == Some(e@),
    {
        proof {
            use_type_invariant(self);
        }
        let (i, found) = self.position(path.as_bytes());
        proof {
            if found {
                assert forall|j: int| 0 <= j < i implies (#[trigger] self@[j]).path != path@ by {
                    lemma_lt_irreflexive(encode_utf8(path@));
                }
                lemma_key_injective(self@[i as int].path, path@);
                lemma_lookup_at(self@, path@, i as int);
            } else {
                lemma_no_path_beyond(self@, encode_utf8(path@), i as int);
                lemma_lookup_at(self@, path@, self@.len() as int);
            }
        }
        if found {
            Some(&self.entries[i])
        } else {
            None
        }
    }

    /// True when an entry is staged at `path`.
    pub fn contains(&self, path: &str) -> (r: bool)
        ensures
            r == lookup(self@, path@) is Some,
    {
        self.get(path).is_some()
    }

    /// Stages `entry`, replacing the entry with the same path.
    pub fn insert(&mut self, entry: IndexEntry)
        ensures
            final(self)@ == insert_sorted(old(self)@, entry@),
            sorted_entries(final(self)@),
    {
        proof {
            use_type_invariant(&*self);
        }
        let ghost s = self@;
        let (i, found) = self.position(entry.path.as_str().as_bytes());
        proof {
            lemma_insert_at(s, entry@, i as int);
            lemma_insert_sorted_sorted(s, entry@);
        }
        let mut entries = Vec::new();
        std::mem::swap(&mut entries, &mut self.entries);
        if found {
            entries[i] = entry;
        } else {
            entries.insert(i, entry);
        }
        assert(entries@.map_values(|e: IndexEntry| e@) =~= insert_sorted(s, entry@));
        self.entries = entries;
    }

    /// Unstages `path`, giving back its entry.
    pub fn remove(&mut self, path: &str) -> (r: Option<IndexEntry>)
        ensures
            r is Some <==> lookup(old(self)@, path@) is Some,
            r matches Some(e) ==> lookup(old(self)@, path@) == Some(e@),
            final(self)@ == remove_path(old(self)@, path@),
            sorted_entries(final(self)@),
    {
        proof {
            use_type_invariant(&*self);
        }
        let ghost s = self@;
        let (i, found) = self.position(path.as_bytes());
        proof {
            if found {
                lemma_key_injective(s[i as int].path, path@);
                assert forall|j: int| 0 <= j < s.len() && j != i implies (#[trigger] s[j]).path
                    != path@ by {
                    lemma_lt_irreflexive(encode_utf8(path@));
                    if j > i {
                        assert(bytes_lt(entry_key(s[i as int]), entry_key(s[j])));
                    }
                }
                lemma_remove_at(s, path@, i as int);
                lemma_lookup_at(s, path@, i as int);
            } else {
                lemma_no_path_beyond(s, encode_utf8(path@), i as int);
                lemma_remove_at(s, path@, s.len() as int);
                lemma_lookup_at(s, path@, s.len() as int);
            }
        }
        if found {
            let mut entries = Vec::new();
            std::mem::swap(&mut entries, &mut self.entries);
            let e = entries.remove(i);
            assert(entries@.map_values(|e: IndexEntry| e@) =~= s.remove(i as int));
            assert forall|a: int, b: int| 0 <= a < b < s.remove(i as int).len() implies bytes_lt(
                entry_key(#[trigger] s.remove(i as int)[a]),
                entry_key(#[trigger] s.remove(i as int)[b]),
            ) by {
                let aa = if a < i { a } else { a + 1 };
                let bb = if b < i { b } else { b + 1 };
                assert(s.remove(i as int)[a] == s[aa] && s.remove(i as int)[b] == s[bb]);
            }
            self.entries = entries;
            Some(e)
        } else {
            None
        }
    }


    /// Stages `path` with blob `sha` (40 hex digits) and the file's stat
    /// data, replacing any entry at that path.
    pub fn add_entry(&mut self, path: String, sha: &str, stat: &FileStat)
        requires
            is_object_id_text(sha@),
        ensures
            final(self)@ == insert_sorted(
                old(self)@,
                staged_entry(path@, hex_bytes(encode_utf8(sha@)).unwrap(), *stat),
            ),
            sorted_entries(final(self)@),
    {
        let id = parse_object_id(sha).unwrap();
        let len = path.as_str().as_bytes().len();
        let flags: u16 = (len as u16) & 0xFFFu16;
        assert((len as u16) & 0xFFFu16 == (len % 4096) as u16) by (bit_vector);
        assert(len == encode_utf8(path@).len());
        let mode: u32 = if stat.mode & 0o100u32 != 0 {
            0o100755u32
        } else {
            0o100644u32
        };
        let entry = IndexEntry {
            ctime_s: stat.ctime_s,
            ctime_n: stat.ctime_n,
            mtime_s: stat.mtime_s,
            mtime_n: stat.mtime_n,
            dev: stat.dev,
            ino: stat.ino,
            mode: mode,
            uid: stat.uid,
            gid: stat.gid,
            size: stat.size,
            sha1: id,
            flags: flags,
            path: path,
        };
        self.insert(entry);
    }

    /// The bytes of the index file for these entries: header, entries in
    /// path order, SHA-1 checksum.
    pub fn serialize(&self) -> (r: Vec<u8>)
        ensures
            r@ == index_bytes(self@),
    {
        let mut data: Vec<u8> = Vec::new();
        data.push(68u8);
        data.push(73u8);
        data.push(82u8);
        data.push(67u8);
        push_be32(&mut data, 2u32);
        let count = self.entries.len() as u32;
        push_be32(&mut data, count);
        let ghost hdr = data@;
        assert(hdr =~= seq![68u8, 73u8, 82u8, 67u8] + be32(2) + be32(self@.len() as u32));
        let mut i: usize = 0;
        assert(self@.take(0) =~= Seq::<EntryView>::empty());
        while i < self.entries.len()
            invariant
                i <= self.entries@.len(),
                self@.len() == self.entries@.len(),
                data@ == hdr + entries_bytes(self@.take(i as int)),
            decreases self.entries@.len() - i,
        {
            let e = &self.entries[i];
            assert(self@[i as int] == e@);
            push_entry(&mut data, e);
            proof {
                lemma_entries_bytes_push(self@, i as int);
                assert(data@ =~= hdr + entries_bytes(self@.take(i + 1)));
            }
            i = i + 1;
        }
        assert(self@.take(i as int) =~= self@);
        let ghost body_all = data@;
        let digest = sha1(data.as_slice());
        push_all(&mut data, &digest);
        data
    }

    /// The index that the bytes of an index file hold; `None` where an
    /// entry runs past the data.
    pub fn parse(data: &[u8]) -> (r: Option<Index>)
        ensures
            r is Some <==> parsed_index(data@) is Some,
            r matches Some(idx) ==> idx@ == parsed_index(data@).unwrap() && sorted_entries(idx@),
    {
        if data.len() < 12 {
            return Some(Index::new());
        }
        let n = read_be32(data, 8);
        let mut off: usize = 12;
        let mut idx = Index::new();
        let mut k: u32 = 0;
        let ghost d = data@;
        let ghost mut acc: Seq<EntryView> = Seq::empty();
        assert(prepend_opt(acc, entries_at(d, 12, n as nat)) =~= entries_at(d, 12, n as nat)) by {
            match entries_at(d, 12, n as nat) {
                Some(r) => {
                    assert(acc + r =~= r);
                },
                None => {},
            }
        }
        assert(entries_from(acc) =~= Seq::<EntryView>::empty());
        while k < n
            invariant
                d == data@,
                k <= n,
                n == be32_at(d, 8),
                d.len() >= 12,
                prepend_opt(acc, entries_at(d, off as int, (n - k) as nat)) == entries_at(
                    d,
                    12,
                    n as nat,
                ),
                idx@ == entries_from(acc),
                sorted_entries(idx@),
            decreases n - k,
        {
            match parse_entry(data, off) {
                None => {
                    assert(entries_at(d, off as int, (n - k) as nat) is None);
                    return None;
                },
                Some((e, next)) => {
                    let ghost ev = e@;
                    proof {
                        let m = (n - k) as nat;
                        assert(entries_at(d, off as int, m) == match entries_at(d, next as int, (m - 1) as nat) {
                            None => None,
                            Some(rest) => Some(seq![ev] + rest),
                        });
                        match entries_at(d, next as int, (m - 1) as nat) {
                            Some(rest) => {
                                assert(acc + (seq![ev] + rest) =~= acc.push(ev) + rest);
                            },
                            None => {},
                        }
                        assert(acc.push(ev).drop_last() =~= acc);
                    }
                    idx.insert(e);
                    proof {
                        acc = acc.push(ev);
                    }
                    off = next;
                    k = k + 1;
                }
            }
        }
        assert(entries_at(d, off as int, 0) == Some(Seq::<EntryView>::empty()));
        assert(acc + Seq::<EntryView>::empty() =~= acc);
        Some(idx)
    }

    /// The index that `.git/index` holds, given the file's bytes (`None` when
    /// there is no file, which gives an empty index); `None` where an entry
    /// runs past the data.
    pub fn load(file: Option<&[u8]>) -> (r: Option<Index>)
        ensures
            file is None ==> (r matches Some(i) && i@ == Seq::<EntryView>::empty()),
            file matches Some(d) ==> (r is Some <==> parsed_index(d@) is Some),
            file matches Some(d) ==> (r matches Some(i) ==> i@ == parsed_index(d@).unwrap()),
    {
        match file {
            None => Some(Index::new()),
            Some(d) => Index::parse(d),
        }
    }

    /// The bytes that `write` stores at `.git/index` through its lock file:
    /// the serialized index (the file work is the caller's).
    pub fn write(&self) -> (r: Vec<u8>)
        ensures
            r@ == index_bytes(self@),
    {
        self.serialize()
    }

    /// Unstages everything.
    pub fn clear(&mut self)
        ensures
            final(self)@ == Seq::<EntryView>::empty(),
            sorted_entries(final(self)@),
    {
        self.entries = Vec::new();
        assert(self@ =~= Seq::<EntryView>::empty());
    }
}

/// An entry that `add_entry` stages is well formed when its path has fewer
/// than 4096 bytes (the flags word keeps only 12 bits of the length), so an
/// index of such entries reads back as written.
pub proof fn lemma_staged_entry_well_formed(path: Seq<char>, id: Seq<u8>, st: FileStat)
    requires
        id.len() == 20,
        encode_utf8(path).len() < 4096,
    ensures
        entry_well_formed(staged_entry(path, id, st)),
{
    let n = encode_utf8(path).len();
    let f = (n % 4096) as u16;
    assert(f == n);
    assert(f & 0xFFFu16 == f) by (bit_vector)
        requires
            f < 4096,
    ;
}

} // verus!
