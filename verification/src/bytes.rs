//! Byte-level helpers: big-endian integers, concatenation and search.

use vstd::prelude::*;

verus! {

/// The four big-endian bytes of `x`.
pub open spec fn be32(x: u32) -> Seq<u8> {
    seq![(x >> 24u32) as u8, (x >> 16u32) as u8, (x >> 8u32) as u8, x as u8]
}

/// The two big-endian bytes of `x`.
pub open spec fn be16(x: u16) -> Seq<u8> {
    seq![(x >> 8u16) as u8, x as u8]
}

/// The `u32` that the four bytes of `s` starting at `off` spell in big-endian order.
pub open spec fn be32_at(s: Seq<u8>, off: int) -> u32 {
    ((s[off] as u32) << 24u32) | ((s[off + 1] as u32) << 16u32) | ((s[off + 2] as u32) << 8u32) | (
    s[off + 3] as u32)
}

/// The `u16` that the two bytes of `s` starting at `off` spell in big-endian order.
pub open spec fn be16_at(s: Seq<u8>, off: int) -> u16 {
    ((s[off] as u16) << 8u16) | (s[off + 1] as u16)
}

pub proof fn lemma_be32_roundtrip(x: u32, s: Seq<u8>, off: int)
    requires
        0 <= off,
        off + 4 <= s.len(),
        s.subrange(off, off + 4) == be32(x),
    ensures
        be32_at(s, off) == x,
{
    let b0 = s[off];
    let b1 = s[off + 1];
    let b2 = s[off + 2];
    let b3 = s[off + 3];
    assert(b0 == s.subrange(off, off + 4)[0]);
    assert(b1 == s.subrange(off, off + 4)[1]);
    assert(b2 == s.subrange(off, off + 4)[2]);
    assert(b3 == s.subrange(off, off + 4)[3]);
    assert(b0 == (x >> 24u32) as u8 && b1 == (x >> 16u32) as u8 && b2 == (x >> 8u32) as u8 && b3
        == x as u8 ==> ((b0 as u32) << 24u32) | ((b1 as u32) << 16u32) | ((b2 as u32) << 8u32) | (
    b3 as u32) == x) by (bit_vector);
}

pub proof fn lemma_be16_roundtrip(x: u16, s: Seq<u8>, off: int)
    requires
        0 <= off,
        off + 2 <= s.len(),
        s.subrange(off, off + 2) == be16(x),
    ensures
        be16_at(s, off) == x,
{
    let b0 = s[off];
    let b1 = s[off + 1];
    assert(b0 == s.subrange(off, off + 2)[0]);
    assert(b1 == s.subrange(off, off + 2)[1]);
    assert(b0 == (x >> 8u16) as u8 && b1 == x as u8 ==> ((b0 as u16) << 8u16) | (b1 as u16) == x)
        by (bit_vector);
}

/// Appends the big-endian bytes of `x`.
pub fn push_be32(out: &mut Vec<u8>, x: u32)
    ensures
        final(out)@ == old(out)@ + be32(x),
{
    out.push((x >> 24u32) as u8);
    out.push((x >> 16u32) as u8);
    out.push((x >> 8u32) as u8);
    out.push(x as u8);
    assert(final(out)@ =~= old(out)@ + be32(x));
}

/// Appends the big-endian bytes of `x`.
pub fn push_be16(out: &mut Vec<u8>, x: u16)
    ensures
        final(out)@ == old(out)@ + be16(x),
{
    out.push((x >> 8u16) as u8);
    out.push(x as u8);
    assert(final(out)@ =~= old(out)@ + be16(x));
}

/// Appends all of `src`.
pub fn push_all(out: &mut Vec<u8>, src: &[u8])
    ensures
        final(out)@ == old(out)@ + src@,
{
    let ghost start = out@;
    let mut i: usize = 0;
    while i < src.len()
        invariant
            i <= src@.len(),
            out@ == start + src@.take(i as int),
        decreases src@.len() - i,
    {
        out.push(src[i]);
        i = i + 1;
        assert(out@ =~= start + src@.take(i as int));
    }
    assert(src@.take(i as int) =~= src@);
}

/// Reads the big-endian `u32` at `off`.
pub fn read_be32(data: &[u8], off: usize) -> (r: u32)
    requires
        off + 4 <= data@.len(),
    ensures
        r == be32_at(data@, off as int),
{
    ((data[off] as u32) << 24u32) | ((data[off + 1] as u32) << 16u32) | ((data[off + 2] as u32)
        << 8u32) | (data[off + 3] as u32)
}

/// Reads the big-endian `u16` at `off`.
pub fn read_be16(data: &[u8], off: usize) -> (r: u16)
    requires
        off + 2 <= data@.len(),
    ensures
        r == be16_at(data@, off as int),
{
    ((data[off] as u16) << 8u16) | (data[off + 1] as u16)
}

/// Copies `data[from..to]` into a fresh vector.
pub fn copy_range(data: &[u8], from: usize, to: usize) -> (r: Vec<u8>)
    requires
        from <= to <= data@.len(),
    ensures
        r@ == data@.subrange(from as int, to as int),
{
    let mut r: Vec<u8> = Vec::new();
    let mut i = from;
    while i < to
        invariant
            from <= i <= to <= data@.len(),
            r@ == data@.subrange(from as int, i as int),
        decreases to - i,
    {
        r.push(data[i]);
        i = i + 1;
        assert(r@ =~= data@.subrange(from as int, i as int));
    }
    r
}

/// The first position at or after `from` that holds `b`, if any.
#[verifier::opaque]
pub open spec fn find_from(s: Seq<u8>, from: int, b: u8) -> Option<int> {
    if exists|k: int| from <= k < s.len() && s[k] == b {
        Some(choose|k: int| from <= k < s.len() && s[k] == b && forall|j: int| from <= j < k ==> s[j] != b)
    } else {
        None
    }
}

/// Finds the first `b` at or after `from`.
pub fn find_byte(data: &[u8], from: usize, b: u8) -> (r: Option<usize>)
    requires
        from <= data@.len(),
    ensures
        match r {
            Some(k) => from <= k < data@.len() && data@[k as int] == b && forall|j: int|
                from <= j < k ==> data@[j] != b,
            None => forall|j: int| from <= j < data@.len() ==> data@[j] != b,
        },
        r matches Some(k) ==> find_from(data@, from as int, b) == Some(k as int),
        r is None ==> find_from(data@, from as int, b) is None,
{
    reveal(find_from);
    let mut i = from;
    while i < data.len()
        invariant
            from <= i <= data@.len(),
            forall|j: int| from <= j < i ==> data@[j] != b,
        decreases data@.len() - i,
    {
        if data[i] == b {
            proof {
                lemma_find_from_is(data@, from as int, b, i as int);
            }
            return Some(i);
        }
        i = i + 1;
    }
    None
}

/// `find_from` names the first `b` at or after `from`.
pub proof fn lemma_find_from_is(s: Seq<u8>, from: int, b: u8, k: int)
    requires
        from <= k < s.len(),
        s[k] == b,
        forall|j: int| from <= j < k ==> s[j] != b,
    ensures
        find_from(s, from, b) == Some(k),
{
    reveal(find_from);
    let c = choose|c: int| from <= c < s.len() && s[c] == b && forall|j: int| from <= j < c ==> s[j] != b;
    if c < k {
    } else if c > k {
        assert(s[k] != b);
    }
}

/// `find_from` finds nothing where the byte does not occur.
pub proof fn lemma_find_from_none(s: Seq<u8>, from: int, b: u8)
    requires
        forall|j: int| from <= j < s.len() ==> s[j] != b,
    ensures
        find_from(s, from, b) is None,
{
    reveal(find_from);
}

/// What `find_from` says of its result.
pub proof fn lemma_find_from_spec(s: Seq<u8>, from: int, b: u8)
    ensures
        find_from(s, from, b) matches Some(k) ==> from <= k < s.len() && s[k] == b && forall|j: int|
            from <= j < k ==> s[j] != b,
        find_from(s, from, b) is None ==> forall|j: int| from <= j < s.len() ==> s[j] != b,
{
    reveal(find_from);
    if exists|k: int| from <= k < s.len() && s[k] == b {
        let w = choose|k: int| from <= k < s.len() && s[k] == b;
        lemma_first_exists(s, from, b, w);
    }
}

proof fn lemma_first_exists(s: Seq<u8>, from: int, b: u8, w: int)
    requires
        from <= w < s.len(),
        s[w] == b,
    ensures
        exists|c: int| from <= c < s.len() && s[c] == b && forall|j: int| from <= j < c ==> s[j] != b,
    decreases w - from,
{
    if exists|j: int| from <= j < w && s[j] == b {
        let j = choose|j: int| from <= j < w && s[j] == b;
        lemma_first_exists(s, from, b, j);
    } else {
        assert(from <= w < s.len() && s[w] == b && forall|j: int| from <= j < w ==> s[j] != b);
    }
}

} // verus!
