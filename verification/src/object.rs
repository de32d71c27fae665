//! Loose objects: the `"<type> <size>\0"` frame, its SHA-1 name and its
//! zlib form.

use crate::bytes::{copy_range, find_byte, find_from, lemma_find_from_is, push_all};
use crate::digest::{sha1, sha1_digest};
use crate::hexenc::{encode_hex, hex_text};
use crate::text::{
    ascii_chars, chars_of, from_utf8_lossy, is_ascii_bytes, lemma_encode_ascii,
    lemma_encode_avoids, lemma_encode_concat, lossy_text, string_of,
};
use crate::zlib::{compress, decompress, zlib_compress, zlib_decompress};
use vstd::prelude::*;
use vstd::utf8::*;

verus! {

/// The decimal digits of `n`, most significant first, without leading zeros.
pub open spec fn decimal(n: nat) -> Seq<u8>
    decreases n,
{
    if n < 10 {
        seq![(48 + n) as u8]
    } else {
        decimal(n / 10) + seq![(48 + n % 10) as u8]
    }
}

pub proof fn lemma_decimal_digits(n: nat)
    ensures
        decimal(n).len() >= 1,
        forall|i: int| 0 <= i < decimal(n).len() ==> 48 <= #[trigger] decimal(n)[i] <= 57,
    decreases n,
{
    if n >= 10 {
        lemma_decimal_digits(n / 10);
        let d = decimal(n);
        assert forall|i: int| 0 <= i < d.len() implies 48 <= #[trigger] d[i] <= 57 by {
            if i < decimal(n / 10).len() {
                assert(d[i] == decimal(n / 10)[i]);
            }
        }
    }
}

/// Appends the decimal digits of `n`.
pub fn push_decimal(out: &mut Vec<u8>, n: usize)
    ensures
        final(out)@ == old(out)@ + decimal(n as nat),
    decreases n,
{
    if n >= 10 {
        push_decimal(out, n / 10);
    }
    let ghost mid = out@;
    out.push((48 + n % 10) as u8);
    assert(final(out)@ =~= old(out)@ + decimal(n as nat));
}

/// The framed bytes of an object: its type, a space, the decimal size of
/// its data, a NUL byte and the data.
pub open spec fn object_frame(obj_type: Seq<char>, data: Seq<u8>) -> Seq<u8> {
    encode_utf8(obj_type) + seq![32u8] + decimal(data.len()) + seq![0u8] + data
}

/// Builds the framed bytes of an object.
pub fn frame_object(obj_type: &str, data: &[u8]) -> (r: Vec<u8>)
    ensures
        r@ == object_frame(obj_type@, data@),
{
    let mut r: Vec<u8> = Vec::new();
    push_all(&mut r, obj_type.as_bytes());
    r.push(32u8);
    push_decimal(&mut r, data.len());
    r.push(0u8);
    push_all(&mut r, data);
    r
}

/// An object ready to be stored: its raw id, the id as hex text, and the
/// zlib form of its frame, which is what the object file holds.
pub struct LooseObject {
    pub id: [u8; 20],
    pub sha: String,
    pub compressed: Vec<u8>,
}

/// The object that `write_object` stores for `obj_type` and `data`: named by
/// the SHA-1 of its frame, holding the compressed frame.
pub fn encode_object(obj_type: &str, data: &[u8]) -> (r: LooseObject)
    ensures
        r.id@ == sha1_digest(object_frame(obj_type@, data@)),
        r.sha@ == hex_text(r.id@),
        r.compressed@ == zlib_compress(object_frame(obj_type@, data@)),
        zlib_decompress(r.compressed@) == Some(object_frame(obj_type@, data@)),
{
    let full = frame_object(obj_type, data);
    let id = sha1(full.as_slice());
    let sha = encode_hex(&id);
    let compressed = compress(full.as_slice());
    LooseObject { id, sha, compressed }
}

/// The hex id of the object that `obj_type` and `data` make, without
/// compressing it (what `hash-object` prints without `-w`).
pub fn hash_object(obj_type: &str, data: &[u8]) -> (r: String)
    ensures
        r@ == hex_text(sha1_digest(object_frame(obj_type@, data@))),
{
    let full = frame_object(obj_type, data);
    let id = sha1(full.as_slice());
    encode_hex(&id)
}

/// The characters before the first space (all of them when there is none).
pub open spec fn text_before_space(cs: Seq<char>) -> Seq<char>
    decreases cs.len(),
{
    if cs.len() == 0 {
        cs
    } else if cs[0] == ' ' {
        Seq::empty()
    } else {
        seq![cs[0]] + text_before_space(cs.drop_first())
    }
}

/// The type and data of decompressed object bytes: the type is the header
/// text (up to the first NUL) before its first space; the data follows the NUL.
pub open spec fn object_parts(d: Seq<u8>) -> Option<(Seq<char>, Seq<u8>)> {
    match find_from(d, 0, 0u8) {
        Some(k) => Some((text_before_space(lossy_text(d.take(k))), d.skip(k + 1))),
        None => None,
    }
}

/// The type and data that an object file holds, `None` when it does not
/// decompress or holds no NUL byte.
pub open spec fn loose_object(file: Seq<u8>) -> Option<(Seq<char>, Seq<u8>)> {
    match zlib_decompress(file) {
        Some(d) => object_parts(d),
        None => None,
    }
}

/// The characters of `s` before its first space.
pub fn before_space(s: &str) -> (r: String)
    ensures
        r@ == text_before_space(s@),
{
    let cs = chars_of(s);
    let mut i: usize = 0;
    while i < cs.len() && cs[i] != ' '
        invariant
            i <= cs@.len(),
            cs@ == s@,
            forall|j: int| 0 <= j < i ==> cs@[j] != ' ',
        decreases cs@.len() - i,
    {
        i = i + 1;
    }
    proof {
        lemma_before_space_prefix(cs@, i as int);
    }
    string_of(&cs.as_slice()[0..i])
}

proof fn lemma_before_space_prefix(cs: Seq<char>, i: int)
    requires
        0 <= i <= cs.len(),
        forall|j: int| 0 <= j < i ==> cs[j] != ' ',
        i == cs.len() || cs[i] == ' ',
    ensures
        text_before_space(cs) == cs.take(i),
    decreases cs.len(),
{
    if cs.len() == 0 {
        assert(cs.take(i) =~= cs);
    } else if i == 0 {
        assert(cs.take(i) =~= Seq::<char>::empty());
    } else {
        lemma_before_space_prefix(cs.drop_first(), i - 1);
        assert(cs.take(i) =~= seq![cs[0]] + cs.drop_first().take(i - 1));
    }
}

/// The type and data held in the bytes of an object file: decompressed,
/// the text before the first NUL names the type, the rest is the data.
pub fn parse_loose_object(file: &[u8]) -> (r: Option<(String, Vec<u8>)>)
    ensures
        r is Some <==> loose_object(file@) is Some,
        r matches Some((t, d)) ==> loose_object(file@) == Some((t@, d@)),
{
    let decompressed = match decompress(file) {
        Some(d) => d,
        None => return None,
    };
    let nul = match find_byte(decompressed.as_slice(), 0, 0u8) {
        Some(k) => k,
        None => return None,
    };
    let header = from_utf8_lossy(&decompressed.as_slice()[0..nul]);
    assert(decompressed@.subrange(0, nul as int) == decompressed@.take(nul as int));
    let obj_type = before_space(header.as_str());
    assert(nul < decompressed.len());
    let data = copy_range(decompressed.as_slice(), nul + 1, decompressed.len());
    assert(data@ == decompressed@.skip(nul + 1));
    Some((obj_type, data))
}

/// The frame of an object reads back as its type and data, for any type
/// name that holds neither a space nor a NUL.
pub proof fn lemma_object_parts_frame(obj_type: Seq<char>, data: Seq<u8>)
    requires
        forall|i: int| 0 <= i < obj_type.len() ==> obj_type[i] != ' ' && obj_type[i] != '\0',
    ensures
        object_parts(object_frame(obj_type, data)) == Some((obj_type, data)),
{
    let t = encode_utf8(obj_type);
    let dec = decimal(data.len());
    let frame = object_frame(obj_type, data);
    lemma_decimal_digits(data.len());
    lemma_encode_avoids(obj_type, 0u8);
    let k: int = t.len() as int + 1 + dec.len() as int;
    assert(frame[k] == 0u8);
    assert forall|j: int| 0 <= j < k implies frame[j] != 0u8 by {
        if j < t.len() {
            assert(frame[j] == t[j]);
        } else if j == t.len() {
        } else {
            assert(frame[j] == dec[j - t.len() - 1]);
        }
    }
    lemma_find_from_is(frame, 0, 0u8, k);
    let header = frame.take(k);
    let tail = seq![32u8] + dec;
    assert(header =~= t + tail);
    assert(is_ascii_bytes(tail));
    lemma_encode_ascii(tail);
    lemma_encode_concat(obj_type, ascii_chars(tail));
    encode_utf8_valid_utf8(obj_type + ascii_chars(tail));
    encode_utf8_decode_utf8(obj_type + ascii_chars(tail));
    let text = obj_type + ascii_chars(tail);
    assert(decode_utf8(header) == text);
    assert(text[obj_type.len() as int] == ' ');
    lemma_before_space_prefix(text, obj_type.len() as int);
    assert(text.take(obj_type.len() as int) =~= obj_type);
    assert(frame.skip(k + 1) =~= data);
}

/// Reading an object file gives back the type and data it was written
/// with, for any type name that holds neither a space nor a NUL.
pub proof fn lemma_loose_object_roundtrip(obj_type: Seq<char>, data: Seq<u8>, file: Seq<u8>)
    requires
        forall|i: int| 0 <= i < obj_type.len() ==> obj_type[i] != ' ' && obj_type[i] != '\0',
        zlib_decompress(file) == Some(object_frame(obj_type, data)),
    ensures
        loose_object(file) == Some((obj_type, data)),
{
    lemma_object_parts_frame(obj_type, data);
}

} // verus!
