//! Pack files: delta instructions, the `.idx` lookup table and the entry
//! headers of `.pack` data.

use crate::bytes::{be32_at, push_all, read_be32};
use crate::hexenc::{decode_hex, encode_hex, hex_bytes, hex_text};
use crate::zlib::{decompress, zlib_decompress};
use crate::order::{bytes_lt, compare_bytes, Order3};
use vstd::prelude::*;

verus! {

/// Where the size word that starts at `c` ends: its bytes run up to and
/// including the first byte below 0x80. `None` when that byte lies past the
/// data or when the word is so long that its shift would reach the width of
/// `usize`.
pub open spec fn size_word_end(d: Seq<u8>, c: int) -> Option<int>
    decreases d.len() - c,
{
    if c < 0 || c >= d.len() {
        None
    } else if d[c] < 0x80 {
        Some(c + 1)
    } else {
        size_word_end(d, c + 1)
    }
}

/// The end of a size word, when its shifts stay below the width of `usize`.
pub open spec fn size_word_next(d: Seq<u8>, c: int) -> Option<int> {
    match size_word_end(d, c) {
        Some(e) => if (e - c - 1) * 7 < usize::BITS {
            Some(e)
        } else {
            None
        },
        None => None,
    }
}

/// Skips the size word at `c` (its value only sizes an allocation).
fn skip_size_word(d: &[u8], c: usize) -> (r: Option<usize>)
    ensures
        r is Some <==> size_word_next(d@, c as int) is Some,
        r matches Some(e) ==> size_word_next(d@, c as int) == Some(e as int),
{
    let mut i = c;
    let mut shift: usize = 0;
    loop
        invariant
            c <= i,
            shift == (i - c) * 7,
            size_word_end(d@, c as int) == size_word_end(d@, i as int),
            (i - c) * 7 < usize::BITS + 7,
        decreases d@.len() - i,
    {
        if shift >= usize::BITS as usize {
            proof {
                lemma_size_word_end_ge(d@, i as int);
            }
            return None;
        }
        if i >= d.len() {
            return None;
        }
        let byte = d[i];
        i = i + 1;
        if byte < 0x80 {
            return Some(i);
        }
        shift = shift + 7;
    }
}

proof fn lemma_size_word_end_ge(d: Seq<u8>, c: int)
    ensures
        size_word_end(d, c) matches Some(e) ==> e > c,
    decreases d.len() - c,
{
    if 0 <= c < d.len() && d[c] >= 0x80 {
        lemma_size_word_end_ge(d, c + 1);
    }
}

/// The byte at `p` when `present`, with the position after it; `(0, p)` when
/// not present; `None` when present but past the data.
pub open spec fn opt_byte(d: Seq<u8>, p: int, present: bool) -> Option<(int, int)> {
    if !present {
        Some((0, p))
    } else if 0 <= p < d.len() {
        Some((d[p] as int, p + 1))
    } else {
        None
    }
}

/// The offset selected by bits 0..3 of copy instruction `cmd` (one byte per
/// set bit, least significant first, read from `p` on), with the position
/// after those bytes.
pub open spec fn copy_offset(d: Seq<u8>, p: int, cmd: u8) -> Option<(int, int)> {
    match opt_byte(d, p, cmd & 0x01 != 0) {
        None => None,
        Some((o0, p1)) => match opt_byte(d, p1, cmd & 0x02 != 0) {
            None => None,
            Some((o1, p2)) => match opt_byte(d, p2, cmd & 0x04 != 0) {
                None => None,
                Some((o2, p3)) => match opt_byte(d, p3, cmd & 0x08 != 0) {
                    None => None,
                    Some((o3, p4)) => Some((o0 + o1 * 256 + o2 * 65536 + o3 * 16777216, p4)),
                },
            },
        },
    }
}

/// The size selected by bits 4..6 of copy instruction `cmd`, read from `p`
/// on; a size of 0 stands for 0x10000.
pub open spec fn copy_size(d: Seq<u8>, p: int, cmd: u8) -> Option<(int, int)> {
    match opt_byte(d, p, cmd & 0x10 != 0) {
        None => None,
        Some((s0, p1)) => match opt_byte(d, p1, cmd & 0x20 != 0) {
            None => None,
            Some((s1, p2)) => match opt_byte(d, p2, cmd & 0x40 != 0) {
                None => None,
                Some((s2, p3)) => {
                    let size = s0 + s1 * 256 + s2 * 65536;
                    Some(
                        (
                            if size == 0 {
                                0x10000
                            } else {
                                size
                            },
                            p3,
                        ),
                    )
                },
            },
        },
    }
}

/// The offset, size and next position of a copy instruction `cmd` whose
/// argument bytes start at `p`.
#[verifier::opaque]
pub open spec fn copy_args(d: Seq<u8>, p: int, cmd: u8) -> Option<(int, int, int)> {
    match copy_offset(d, p, cmd) {
        None => None,
        Some((off, q)) => match copy_size(d, q, cmd) {
            None => None,
            Some((size, next)) => Some((off, size, next)),
        },
    }
}

/// The output of the delta instructions from `c` on, appended to `acc`:
/// a command with the high bit set copies a range of `base`; a command
/// `1..=127` inserts that many following bytes; a zero command does
/// nothing. `None` where an instruction reaches past its data or past `base`.
pub open spec fn run_delta(base: Seq<u8>, delta: Seq<u8>, c: int, acc: Seq<u8>) -> Option<Seq<u8>>
    decreases delta.len() - c,
{
    if c < 0 || c >= delta.len() {
        Some(acc)
    } else {
        let cmd = delta[c];
        if cmd & 0x80 != 0 {
            match copy_args(delta, c + 1, cmd) {
                None => None,
                Some((off, size, next)) => if off + size > base.len() || off + size > usize::MAX
                    || next <= c || next > delta.len() {
                    None
                } else {
                    run_delta(base, delta, next, acc + base.subrange(off, off + size))
                },
            }
        } else if cmd > 0 {
            if c + 1 + cmd > delta.len() {
                None
            } else {
                run_delta(base, delta, c + 1 + cmd, acc + delta.subrange(c + 1, c + 1 + cmd))
            }
        } else {
            run_delta(base, delta, c + 1, acc)
        }
    }
}

/// The object that a delta rebuilds from `base`: after the two size words
/// (source and result size), the instructions run to the end of the delta.
pub open spec fn delta_result(base: Seq<u8>, delta: Seq<u8>) -> Option<Seq<u8>> {
    match size_word_next(delta, 0) {
        None => None,
        Some(c1) => match size_word_next(delta, c1) {
            None => None,
            Some(c2) => run_delta(base, delta, c2, Seq::empty()),
        },
    }
}

/// Reads one optional argument byte of a copy instruction.
fn read_opt_byte(d: &[u8], p: usize, present: bool) -> (r: Option<(usize, usize)>)
    ensures
        r is Some <==> opt_byte(d@, p as int, present) is Some,
        r matches Some((v, q)) ==> opt_byte(d@, p as int, present) == Some((v as int, q as int)),
{
    if !present {
        Some((0, p))
    } else if p < d.len() {
        Some((d[p] as usize, p + 1))
    } else {
        None
    }
}

/// Reads the offset bytes of a copy instruction.
fn read_copy_offset(d: &[u8], p: usize, cmd: u8) -> (r: Option<(usize, usize)>)
    requires
        p <= d@.len(),
    ensures
        r is Some <==> copy_offset(d@, p as int, cmd) is Some,
        r matches Some((o, n)) ==> copy_offset(d@, p as int, cmd) == Some((o as int, n as int))
            && p <= n <= d@.len(),
{
    let (o0, p1) = match read_opt_byte(d, p, cmd & 0x01 != 0) {
        Some(x) => x,
        None => return None,
    };
    let (o1, p2) = match read_opt_byte(d, p1, cmd & 0x02 != 0) {
        Some(x) => x,
        None => return None,
    };
    let (o2, p3) = match read_opt_byte(d, p2, cmd & 0x04 != 0) {
        Some(x) => x,
        None => return None,
    };
    let (o3, p4) = match read_opt_byte(d, p3, cmd & 0x08 != 0) {
        Some(x) => x,
        None => return None,
    };
    let offset: u64 = o0 as u64 + (o1 as u64) * 256 + (o2 as u64) * 65536 + (o3 as u64) * 16777216;
    if offset > usize::MAX as u64 {
        return None;
    }
    Some((offset as usize, p4))
}

/// Reads the size bytes of a copy instruction.
fn read_copy_size(d: &[u8], p: usize, cmd: u8) -> (r: Option<(usize, usize)>)
    requires
        p <= d@.len(),
    ensures
        r is Some <==> copy_size(d@, p as int, cmd) is Some,
        r matches Some((s, n)) ==> copy_size(d@, p as int, cmd) == Some((s as int, n as int)) && p
            <= n <= d@.len(),
{
    let (s0, p1) = match read_opt_byte(d, p, cmd & 0x10 != 0) {
        Some(x) => x,
        None => return None,
    };
    let (s1, p2) = match read_opt_byte(d, p1, cmd & 0x20 != 0) {
        Some(x) => x,
        None => return None,
    };
    let (s2, p3) = match read_opt_byte(d, p2, cmd & 0x40 != 0) {
        Some(x) => x,
        None => return None,
    };
    let size = s0 + s1 * 256 + s2 * 65536;
    if size == 0 {
        Some((0x10000, p3))
    } else {
        Some((size, p3))
    }
}

/// Reads the arguments of a copy instruction.
fn read_copy_args(d: &[u8], p: usize, cmd: u8) -> (r: Option<(usize, usize, usize)>)
    requires
        p <= d@.len(),
    ensures
        r is Some <==> copy_args(d@, p as int, cmd) is Some,
        r matches Some((o, s, n)) ==> copy_args(d@, p as int, cmd) == Some(
            (o as int, s as int, n as int),
        ) && p <= n <= d@.len(),
{
    reveal(copy_args);
    let (offset, q) = match read_copy_offset(d, p, cmd) {
        Some(x) => x,
        None => return None,
    };
    let (size, next) = match read_copy_size(d, q, cmd) {
        Some(x) => x,
        None => return None,
    };
    Some((offset, size, next))
}

/// Applies a delta to `base`: copy and insert instructions after the two
/// size headers;
/// `None` where an instruction reaches past its data or past `base`.
pub fn apply_delta(base: &[u8], delta: &[u8]) -> (r: Option<Vec<u8>>)
    ensures
        r is Some <==> delta_result(base@, delta@) is Some,
        r matches Some(v) ==> delta_result(base@, delta@) == Some(v@),
{
    let c1 = match skip_size_word(delta, 0) {
        Some(c) => c,
        None => return None,
    };
    let mut cursor = match skip_size_word(delta, c1) {
        Some(c) => c,
        None => return None,
    };
    let mut result: Vec<u8> = Vec::new();
    while cursor < delta.len()
        invariant
            delta_result(base@, delta@) == run_delta(base@, delta@, cursor as int, result@),
        decreases delta@.len() - cursor,
    {
        let cmd = delta[cursor];
        if cmd & 0x80 != 0 {
            let (offset, size, p7) = match read_copy_args(delta, cursor + 1, cmd) {
                Some(x) => x,
                None => return None,
            };
            if offset > base.len() || size > base.len() - offset {
                return None;
            }
            push_all(&mut result, &base[offset..offset + size]);
            cursor = p7;
        } else if cmd > 0 {
            let size = cmd as usize;
            if size > delta.len() - cursor - 1 {
                return None;
            }
            push_all(&mut result, &delta[cursor + 1..cursor + 1 + size]);
            cursor = cursor + 1 + size;
        } else {
            cursor = cursor + 1;
        }
    }
    Some(result)
}


/// The outcome of looking an object up in a pack index.
pub enum IdxLookup {
    /// The object is listed; its entry starts at this offset of the pack.
    Found(u64),
    /// The index does not list the object (or is not a version-2 index, or
    /// the id is not hex text).
    Absent,
    /// The index is cut short where the lookup reads it.
    Corrupt,
}

/// The outcome of the binary search over the sorted id table.
pub enum SearchResult {
    Found(int),
    Absent,
    Corrupt,
}

/// The 20-byte id in row `i` of the id table.
pub open spec fn idx_row(idx: Seq<u8>, i: int) -> Seq<u8> {
    idx.subrange(1032 + i * 20, 1032 + i * 20 + 20)
}

/// Binary search for `t` among rows `low..high` of the id table.
pub open spec fn idx_search(idx: Seq<u8>, t: Seq<u8>, low: int, high: int) -> SearchResult
    decreases high - low,
{
    if low >= high || low < 0 {
        SearchResult::Absent
    } else if low + high > u32::MAX {
        SearchResult::Corrupt
    } else {
        let mid = (low + high) / 2;
        if 1032 + mid * 20 + 20 > idx.len() {
            SearchResult::Corrupt
        } else if idx_row(idx, mid) == t {
            SearchResult::Found(mid)
        } else if bytes_lt(idx_row(idx, mid), t) {
            idx_search(idx, t, mid + 1, high)
        } else {
            idx_search(idx, t, low, mid)
        }
    }
}

/// What a version-2 pack index says of the object with hex id `target`:
/// the magic `\xfftOc` must open it, the object count is the last fan-out
/// word, and a found row's pack offset is read from the offset table.
pub open spec fn idx_lookup(idx: Seq<u8>, target: Seq<u8>) -> IdxLookup {
    if idx.len() < 4 {
        IdxLookup::Corrupt
    } else if idx.subrange(0, 4) != seq![0xFFu8, 0x74u8, 0x4Fu8, 0x63u8] {
        IdxLookup::Absent
    } else if idx.len() < 1032 {
        IdxLookup::Corrupt
    } else {
        match hex_bytes(target) {
            None => IdxLookup::Absent,
            Some(t) => {
                let n = be32_at(idx, 1028) as int;
                match idx_search(idx, t, 0, n) {
                    SearchResult::Absent => IdxLookup::Absent,
                    SearchResult::Corrupt => IdxLookup::Corrupt,
                    SearchResult::Found(i) => {
                        let os = 1032 + n * 24 + i * 4;
                        if os + 4 > idx.len() {
                            IdxLookup::Corrupt
                        } else {
                            IdxLookup::Found(be32_at(idx, os) as u64)
                        }
                    },
                }
            },
        }
    }
}

/// Looks an object up in the bytes of a pack's version-2 `.idx` file and
/// gives its offset in the pack.
pub fn find_in_pack_index(idx: &[u8], target_sha: &str) -> (r: IdxLookup)
    ensures
        r == idx_lookup(idx@, vstd::utf8::encode_utf8(target_sha@)),
{
    if idx.len() < 4 {
        return IdxLookup::Corrupt;
    }
    if !(idx[0] == 0xFFu8 && idx[1] == 0x74u8 && idx[2] == 0x4Fu8 && idx[3] == 0x63u8) {
        assert(idx@.subrange(0, 4) != seq![0xFFu8, 0x74u8, 0x4Fu8, 0x63u8]) by {
            if idx@.subrange(0, 4) == seq![0xFFu8, 0x74u8, 0x4Fu8, 0x63u8] {
                assert(idx@.subrange(0, 4)[0] == idx@[0]);
                assert(idx@.subrange(0, 4)[1] == idx@[1]);
                assert(idx@.subrange(0, 4)[2] == idx@[2]);
                assert(idx@.subrange(0, 4)[3] == idx@[3]);
            }
        }
        return IdxLookup::Absent;
    }
    assert(idx@.subrange(0, 4) =~= seq![0xFFu8, 0x74u8, 0x4Fu8, 0x63u8]);
    if idx.len() < 1032 {
        return IdxLookup::Corrupt;
    }
    let target = match decode_hex(target_sha.as_bytes()) {
        Some(t) => t,
        None => return IdxLookup::Absent,
    };
    let n = read_be32(idx, 1028);
    let mut low: u64 = 0;
    let mut high: u64 = n as u64;
    let ghost t = target@;
    while low < high
        invariant
            high <= u32::MAX,
            idx_search(idx@, t, 0, n as int) == idx_search(idx@, t, low as int, high as int),
            t == target@,
            hex_bytes(vstd::utf8::encode_utf8(target_sha@)) == Some(t),
            n == be32_at(idx@, 1028),
            idx@.len() >= 1032,
            idx@.subrange(0, 4) == seq![0xFFu8, 0x74u8, 0x4Fu8, 0x63u8],
        decreases high - low,
    {
        if low + high > u32::MAX as u64 {
            return IdxLookup::Corrupt;
        }
        let mid = (low + high) / 2;
        let start = 1032 + mid * 20;
        if start + 20 > idx.len() as u64 {
            return IdxLookup::Corrupt;
        }
        let st = start as usize;
        let row = &idx[st..st + 20];
        assert(row@ == idx_row(idx@, mid as int));
        match compare_bytes(row, target.as_slice()) {
            Order3::Equal => {
                let os = 1032 + (n as u64) * 24 + mid * 4;
                if os + 4 > idx.len() as u64 {
                    return IdxLookup::Corrupt;
                }
                let off = read_be32(idx, os as usize);
                return IdxLookup::Found(off as u64);
            },
            Order3::Less => {
                low = mid + 1;
            },
            Order3::Greater => {
                proof {
                    crate::order::lemma_lt_asymmetric(row@, t);
                }
                high = mid;
            },
        }
    }
    IdxLookup::Absent
}


/// The id table holds `n` rows within the data, in strictly increasing order.
pub open spec fn idx_rows_sorted(idx: Seq<u8>, n: int) -> bool {
    &&& 0 <= n
    &&& 1032 + n * 20 <= idx.len()
    &&& forall|i: int, j: int|
        0 <= i < j < n ==> bytes_lt(#[trigger] idx_row(idx, i), #[trigger] idx_row(idx, j))
}

/// On a sorted id table, the binary search finds exactly the row that holds
/// the id, and reports the id absent when no row holds it.
pub proof fn lemma_idx_search_sorted(idx: Seq<u8>, t: Seq<u8>, low: int, high: int, n: int)
    requires
        idx_rows_sorted(idx, n),
        2 * n <= u32::MAX,
        0 <= low <= high <= n,
        forall|i: int| 0 <= i < n && (i < low || i >= high) ==> idx_row(idx, i) != t,
    ensures
        forall|i: int| 0 <= i < n && idx_row(idx, i) == t ==> idx_search(idx, t, low, high)
            == SearchResult::Found(i),
        (forall|i: int| 0 <= i < n ==> idx_row(idx, i) != t) ==> idx_search(idx, t, low, high)
            == SearchResult::Absent,
    decreases high - low,
{
    if low < high {
        let mid = (low + high) / 2;
        let rm = idx_row(idx, mid);
        if rm == t {
            assert forall|i: int| 0 <= i < n && idx_row(idx, i) == t implies i == mid by {
                if i < mid {
                    assert(bytes_lt(idx_row(idx, i), idx_row(idx, mid)));
                    crate::order::lemma_lt_irreflexive(t);
                } else if i > mid {
                    assert(bytes_lt(idx_row(idx, mid), idx_row(idx, i)));
                    crate::order::lemma_lt_irreflexive(t);
                }
            }
        } else if bytes_lt(rm, t) {
            assert forall|i: int| 0 <= i < n && (i < mid + 1 || i >= high) implies idx_row(idx, i) != t by {
                if low <= i <= mid {
                    if i < mid {
                        assert(bytes_lt(idx_row(idx, i), idx_row(idx, mid)));
                        if idx_row(idx, i) == t {
                            crate::order::lemma_lt_asymmetric(rm, t);
                        }
                    }
                }
            }
            lemma_idx_search_sorted(idx, t, mid + 1, high, n);
        } else {
            crate::order::lemma_lt_total(rm, t);
            assert forall|i: int| 0 <= i < n && (i < low || i >= mid) implies idx_row(idx, i) != t by {
                if mid <= i < high {
                    if i > mid {
                        assert(bytes_lt(idx_row(idx, mid), idx_row(idx, i)));
                        if idx_row(idx, i) == t {
                            crate::order::lemma_lt_asymmetric(rm, t);
                        }
                    }
                }
            }
            lemma_idx_search_sorted(idx, t, low, mid, n);
        }
    }
}


/// Where the continuation bytes of an entry header end, from `c` on, when
/// the next size bits would be shifted by `shift`; `None` where a byte lies
/// past the data or the shift would reach 64.
pub open spec fn header_rest(p: Seq<u8>, c: int, shift: int) -> Option<int>
    decreases p.len() - c,
{
    if c < 0 || c >= p.len() || shift >= 64 {
        None
    } else if p[c] & 0x80 == 0 {
        Some(c + 1)
    } else {
        header_rest(p, c + 1, shift + 7)
    }
}

/// Where the header of the entry at `off` ends: the first byte holds the
/// type in bits 4..6; while a byte has its high bit set, another follows.
pub open spec fn header_end(p: Seq<u8>, off: int) -> Option<int> {
    if off < 0 || off >= p.len() {
        None
    } else if p[off] & 0x80 == 0 {
        Some(off + 1)
    } else {
        header_rest(p, off + 1, 4)
    }
}

/// The rest of an offset-delta distance, whose value so far is `rel`: each
/// further byte adds one, shifts left by 7 and adds its low 7 bits.
pub open spec fn ofs_rest(p: Seq<u8>, c: int, rel: usize) -> Option<(usize, int)>
    decreases p.len() - c,
{
    if rel == usize::MAX || c < 0 || c >= p.len() {
        None
    } else {
        let b = p[c];
        let r2 = (((rel + 1) as usize) << 7usize) | ((b & 0x7F) as usize);
        if b & 0x80 != 0 {
            ofs_rest(p, c + 1, r2)
        } else {
            Some((r2, c + 1))
        }
    }
}

/// The distance back to the base of an offset delta, and where it ends.
pub open spec fn ofs_distance(p: Seq<u8>, c: int) -> Option<(usize, int)> {
    if c < 0 || c >= p.len() {
        None
    } else {
        let b = p[c];
        let r = (b & 0x7F) as usize;
        if b & 0x80 != 0 {
            ofs_rest(p, c + 1, r)
        } else {
            Some((r, c + 1))
        }
    }
}

/// A copy instruction with all seven argument bytes (command `0xFF`)
/// copies `size` bytes of the base from `offset`, where the offset is the
/// little-endian number of the four offset bytes and the size that of the
/// three size bytes (zero standing for 0x10000); the instructions after it
/// continue the output. A copy reaching past the base fails.
pub proof fn lemma_full_copy(base: Seq<u8>, delta: Seq<u8>, c: int, acc: Seq<u8>)
    requires
        0 <= c,
        c + 8 <= delta.len(),
        delta[c] == 0xFFu8,
    ensures
        ({
            let offset = delta[c + 1] + delta[c + 2] * 256 + delta[c + 3] * 65536 + delta[c + 4] * 16777216;
            let s = delta[c + 5] + delta[c + 6] * 256 + delta[c + 7] * 65536;
            let size = if s == 0 {
                65536
            } else {
                s
            };
            run_delta(base, delta, c, acc) == if offset + size <= base.len() && offset + size <= usize::MAX {
                run_delta(base, delta, c + 8, acc + base.subrange(offset, offset + size))
            } else {
                None
            }
        }),
{
    reveal(copy_args);
    let cmd = delta[c];
    assert(cmd & 0x80u8 != 0 && cmd & 0x01u8 != 0 && cmd & 0x02u8 != 0 && cmd & 0x04u8 != 0 && cmd & 0x08u8
        != 0 && cmd & 0x10u8 != 0 && cmd & 0x20u8 != 0 && cmd & 0x40u8 != 0) by (bit_vector)
        requires
            cmd == 0xFFu8,
    ;
}

/// A delta of one full copy instruction rebuilds exactly the copied range
/// of the base: after one-byte size words, the command `0xFF` with offset
/// bytes `o0..o3` and size bytes `s0..s2` gives the base's bytes from
/// `o0 + 256*o1 + 65536*o2 + 16777216*o3`, for `s0 + 256*s1 + 65536*s2`
/// bytes (0x10000 when that is zero), and fails when they reach past it.
pub proof fn lemma_copy_delta(
    base: Seq<u8>,
    h1: u8,
    h2: u8,
    o0: u8,
    o1: u8,
    o2: u8,
    o3: u8,
    s0: u8,
    s1: u8,
    s2: u8,
)
    requires
        h1 < 0x80,
        h2 < 0x80,
    ensures
        ({
            let delta = seq![h1, h2, 0xFFu8, o0, o1, o2, o3, s0, s1, s2];
            let offset = o0 + o1 * 256 + o2 * 65536 + o3 * 16777216;
            let s = s0 + s1 * 256 + s2 * 65536;
            let size = if s == 0 {
                65536
            } else {
                s
            };
            delta_result(base, delta) == if offset + size <= base.len() && offset + size <= usize::MAX {
                Some(base.subrange(offset, offset + size))
            } else {
                None
            }
        }),
{
    let delta = seq![h1, h2, 0xFFu8, o0, o1, o2, o3, s0, s1, s2];
    assert(size_word_end(delta, 0) == Some(1int));
    assert(size_word_end(delta, 1) == Some(2int));
    assert(size_word_next(delta, 0) == Some(1int));
    assert(size_word_next(delta, 1) == Some(2int));
    lemma_full_copy(base, delta, 2, Seq::empty());
    let offset = o0 + o1 * 256 + o2 * 65536 + o3 * 16777216;
    let s = s0 + s1 * 256 + s2 * 65536;
    let size = if s == 0 {
        65536
    } else {
        s
    };
    if offset + size <= base.len() && offset + size <= usize::MAX {
        assert(Seq::<u8>::empty() + base.subrange(offset, offset + size) =~= base.subrange(offset, offset + size));
    }
}

/// Offset-delta distances follow git's encoding, which gives each distance
/// one form: one byte `b` (below 0x80) is the distance `b`; two bytes
/// `0x80|a`, `b` are `(a + 1) * 128 + b`; three bytes `0x80|a`, `0x80|b`,
/// `c` are `((a + 1) * 128 + b + 1) * 128 + c`.
pub proof fn lemma_ofs_distance_forms(p: Seq<u8>, k: int)
    requires
        0 <= k < p.len(),
    ensures
        p[k] < 0x80 ==> ofs_distance(p, k) == Some((p[k] as usize, k + 1)),
        k + 1 < p.len() && p[k] >= 0x80 && p[k + 1] < 0x80 ==> ofs_distance(p, k) == Some(
            (((p[k] - 0x80 + 1) * 128 + p[k + 1]) as usize, k + 2),
        ),
        k + 2 < p.len() && p[k] >= 0x80 && p[k + 1] >= 0x80 && p[k + 2] < 0x80 ==> ofs_distance(p, k) == Some(
            (((((p[k] - 0x80 + 1) * 128 + (p[k + 1] - 0x80)) + 1) * 128 + p[k + 2]) as usize, k + 3),
        ),
{
    reveal_with_fuel(ofs_rest, 3);
    let a = p[k];
    assert(a < 0x80 ==> (a & 0x80u8) == 0 && (a & 0x7Fu8) == a) by (bit_vector);
    assert(a >= 0x80 ==> (a & 0x80u8) != 0 && (a & 0x7Fu8) == a - 0x80) by (bit_vector);
    if k + 1 < p.len() && a >= 0x80 {
        let b = p[k + 1];
        let r = (a & 0x7Fu8) as usize;
        assert(b < 0x80 ==> (b & 0x80u8) == 0 && (b & 0x7Fu8) == b) by (bit_vector);
        assert(b >= 0x80 ==> (b & 0x80u8) != 0 && (b & 0x7Fu8) == b - 0x80) by (bit_vector);
        assert(r < 128);
        let r1 = (r + 1) as usize;
        let bl = (b & 0x7Fu8) as usize;
        assert((r1 << 7usize) | bl == r1 * 128 + bl) by (bit_vector)
            requires
                r1 <= 128,
                bl < 128,
        ;
        if b >= 0x80 && k + 2 < p.len() {
            let c2 = p[k + 2];
            let r2 = ((r1 << 7usize) | bl) as usize;
            assert(r1 <= 128);
            assert(r2 == r1 * 128 + bl);
            assert(r2 < 16512);
            assert(c2 < 0x80 ==> (c2 & 0x80u8) == 0 && (c2 & 0x7Fu8) == c2) by (bit_vector);
            let r3 = (r2 + 1) as usize;
            assert(r3 == r2 + 1);
            assert(r3 <= 16512);
            assert((c2 & 0x7Fu8) < 128) by (bit_vector);
            let cl = (c2 & 0x7Fu8) as usize;
            assert((r3 << 7usize) | cl == r3 * 128 + cl) by (bit_vector)
                requires
                    r3 <= 16512,
                    cl < 128,
            ;
        }
    }
}

/// The name of a pack object type.
pub open spec fn pack_type_name(t: u8) -> Seq<char> {
    if t == 1 {
        "commit"@
    } else if t == 2 {
        "tree"@
    } else if t == 3 {
        "blob"@
    } else {
        "tag"@
    }
}

/// What an entry of a pack yields.
pub enum PackEntry {
    /// A whole object: its type and data.
    Object { obj_type: String, data: Vec<u8> },
    /// Deltas to apply, in order, to the object with hex id `base`, which
    /// lies outside this pack's reach.
    RefDelta { base: String, deltas: Vec<Vec<u8>> },
    /// No object: an unknown type, or data that does not decompress.
    Absent,
}

/// The mathematical value of a pack entry.
pub enum PackEntryView {
    Object(Seq<char>, Seq<u8>),
    RefDelta(Seq<char>, Seq<Seq<u8>>),
    Absent,
}

impl View for PackEntry {
    type V = PackEntryView;

    open spec fn view(&self) -> PackEntryView {
        match self {
            PackEntry::Object { obj_type, data } => PackEntryView::Object(obj_type@, data@),
            PackEntry::RefDelta { base, deltas } => PackEntryView::RefDelta(
                base@,
                deltas@.map_values(|d: Vec<u8>| d@),
            ),
            PackEntry::Absent => PackEntryView::Absent,
        }
    }
}

/// The entry at `off` of pack data: types 1 to 4 are whole zlib-compressed
/// objects; type 6 is a delta against the entry a distance back; type 7 a
/// delta against the object with the 20-byte id that follows the header.
/// `None` where the entry is cut short, its delta does not apply, or its
/// base distance is zero or reaches before the start.
pub open spec fn pack_entry(p: Seq<u8>, off: int) -> Option<PackEntryView>
    decreases off,
{
    if off < 0 || off >= p.len() {
        None
    } else {
        let t = (p[off] >> 4u8) & 7u8;
        match header_end(p, off) {
            None => None,
            Some(c) => if 1 <= t <= 4 {
                match zlib_decompress(p.skip(c)) {
                    None => Some(PackEntryView::Absent),
                    Some(d) => Some(PackEntryView::Object(pack_type_name(t), d)),
                }
            } else if t == 6 {
                match ofs_distance(p, c) {
                    None => None,
                    Some((rel, c2)) => if rel == 0 || rel > off {
                        None
                    } else {
                        match pack_entry(p, off - rel) {
                            None => None,
                            Some(PackEntryView::Absent) => Some(PackEntryView::Absent),
                            Some(base) => match zlib_decompress(p.skip(c2)) {
                                None => Some(PackEntryView::Absent),
                                Some(dd) => match base {
                                    PackEntryView::Object(bt, bd) => match delta_result(bd, dd) {
                                        None => None,
                                        Some(r) => Some(PackEntryView::Object(bt, r)),
                                    },
                                    PackEntryView::RefDelta(b, ds) => Some(
                                        PackEntryView::RefDelta(b, ds.push(dd)),
                                    ),
                                    PackEntryView::Absent => Some(PackEntryView::Absent),
                                },
                            },
                        }
                    },
                }
            } else if t == 7 {
                if c + 20 > p.len() {
                    None
                } else {
                    match zlib_decompress(p.skip(c + 20)) {
                        None => Some(PackEntryView::Absent),
                        Some(dd) => Some(
                            PackEntryView::RefDelta(hex_text(p.subrange(c, c + 20)), seq![dd]),
                        ),
                    }
                }
            } else {
                Some(PackEntryView::Absent)
            },
        }
    }
}

fn read_header_end(p: &[u8], off: usize) -> (r: Option<usize>)
    ensures
        r is Some <==> header_end(p@, off as int) is Some,
        r matches Some(c) ==> header_end(p@, off as int) == Some(c as int) && c <= p@.len(),
{
    if off >= p.len() {
        return None;
    }
    if p[off] & 0x80 == 0 {
        return Some(off + 1);
    }
    let mut c = off + 1;
    let mut shift: usize = 4;
    loop
        invariant
            off < c <= p@.len(),
            4 <= shift,
            header_end(p@, off as int) == header_rest(p@, c as int, shift as int),
        decreases p@.len() - c,
    {
        if c >= p.len() || shift >= 64 {
            return None;
        }
        let b = p[c];
        c = c + 1;
        if b & 0x80 == 0 {
            return Some(c);
        }
        shift = shift + 7;
    }
}

fn read_ofs_distance(p: &[u8], c: usize) -> (r: Option<(usize, usize)>)
    ensures
        r is Some <==> ofs_distance(p@, c as int) is Some,
        r matches Some((rel, n)) ==> ofs_distance(p@, c as int) == Some((rel, n as int)) && n
            <= p@.len(),
{
    if c >= p.len() {
        return None;
    }
    let b0 = p[c];
    let mut rel: usize = (b0 & 0x7F) as usize;
    if b0 & 0x80 == 0 {
        return Some((rel, c + 1));
    }
    let mut i = c + 1;
    loop
        invariant
            c < i <= p@.len(),
            ofs_distance(p@, c as int) == ofs_rest(p@, i as int, rel),
        decreases p@.len() - i,
    {
        if rel == usize::MAX || i >= p.len() {
            return None;
        }
        let b = p[i];
        rel = ((rel + 1) << 7usize) | ((b & 0x7F) as usize);
        i = i + 1;
        if b & 0x80 == 0 {
            return Some((rel, i));
        }
    }
}

fn pack_type_string(t: u8) -> (r: String)
    ensures
        r@ == pack_type_name(t),
{
    if t == 1 {
        "commit".to_owned()
    } else if t == 2 {
        "tree".to_owned()
    } else if t == 3 {
        "blob".to_owned()
    } else {
        "tag".to_owned()
    }
}

/// The entry at `off` of pack data: a whole object, an offset delta with
/// its base resolved in the pack, or a reference delta naming its base.
pub fn unpack_object(pack: &[u8], off: usize) -> (r: Option<PackEntry>)
    ensures
        r is Some <==> pack_entry(pack@, off as int) is Some,
        r matches Some(e) ==> pack_entry(pack@, off as int) == Some(e@),
    decreases off,
{
    if off >= pack.len() {
        return None;
    }
    let t = (pack[off] >> 4u8) & 7u8;
    let c = match read_header_end(pack, off) {
        Some(c) => c,
        None => return None,
    };
    if 1 <= t && t <= 4 {
        match decompress(&pack[c..pack.len()]) {
            None => Some(PackEntry::Absent),
            Some(d) => Some(PackEntry::Object { obj_type: pack_type_string(t), data: d }),
        }
    } else if t == 6 {
        let (rel, c2) = match read_ofs_distance(pack, c) {
            Some(x) => x,
            None => return None,
        };
        if rel == 0 || rel > off {
            return None;
        }
        let base = match unpack_object(pack, off - rel) {
            Some(b) => b,
            None => return None,
        };
        if let PackEntry::Absent = base {
            return Some(PackEntry::Absent);
        }
        let dd = match decompress(&pack[c2..pack.len()]) {
            Some(d) => d,
            None => return Some(PackEntry::Absent),
        };
        match base {
            PackEntry::Object { obj_type, data } => match apply_delta(data.as_slice(), dd.as_slice()) {
                None => None,
                Some(r) => Some(PackEntry::Object { obj_type, data: r }),
            },
            PackEntry::RefDelta { base, deltas } => {
                let mut deltas = deltas;
                let ghost before = deltas@;
                deltas.push(dd);
                assert(deltas@.map_values(|d: Vec<u8>| d@) =~= before.map_values(|d: Vec<u8>| d@).push(
                    dd@,
                ));
                Some(PackEntry::RefDelta { base, deltas })
            },
            PackEntry::Absent => Some(PackEntry::Absent),
        }
    } else if t == 7 {
        if c > pack.len() || pack.len() - c < 20 {
            return None;
        }
        let base = encode_hex(&pack[c..c + 20]);
        match decompress(&pack[c + 20..pack.len()]) {
            None => Some(PackEntry::Absent),
            Some(dd) => {
                let mut deltas: Vec<Vec<u8>> = Vec::new();
                deltas.push(dd);
                assert(deltas@.map_values(|d: Vec<u8>| d@) =~= seq![dd@]);
                Some(PackEntry::RefDelta { base, deltas })
            },
        }
    } else {
        Some(PackEntry::Absent)
    }
}

} // verus!
