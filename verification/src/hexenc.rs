//! Lower-case hexadecimal text for object ids, through the `hex` crate.

use vstd::prelude::*;

verus! {

/// The lower-case hex digit for a nibble.
pub open spec fn hex_digit(n: int) -> char {
    if n < 10 {
        (n + 48) as char
    } else {
        (n + 87) as char
    }
}

/// The lower-case hex text of a byte string: two digits per byte, high nibble first.
pub open spec fn hex_text(b: Seq<u8>) -> Seq<char> {
    Seq::new(
        2 * b.len(),
        |i: int|
            if i % 2 == 0 {
                hex_digit(b[i / 2] as int / 16)
            } else {
                hex_digit(b[i / 2] as int % 16)
            },
    )
}

/// The value of one hex digit, upper or lower case.
pub open spec fn hex_value(c: u8) -> Option<u8> {
    if 48 <= c <= 57 {
        Some((c - 48) as u8)
    } else if 97 <= c <= 102 {
        Some((c - 87) as u8)
    } else if 65 <= c <= 70 {
        Some((c - 55) as u8)
    } else {
        None
    }
}

/// The bytes that a hex text spells: `None` when its length is odd or a
/// character is not a hex digit.
pub open spec fn hex_bytes(s: Seq<u8>) -> Option<Seq<u8>> {
    if s.len() % 2 != 0 || exists|i: int| 0 <= i < s.len() && hex_value(s[i]) is None {
        None
    } else {
        Some(
            Seq::new(
                s.len() / 2,
                |i: int| (hex_value(s[2 * i]).unwrap() * 16 + hex_value(s[2 * i + 1]).unwrap()) as u8,
            ),
        )
    }
}

/// `hex::encode`: the lower-case hex text of `data`.
#[verifier::external_body]
pub(crate) fn encode_hex(data: &[u8]) -> (r: String)
    ensures
        r@ == hex_text(data@),
{
    ::hex::encode(data)
}

/// `hex::decode`: the bytes that `text` spells, `None` when it is not hex
/// text of even length (the crate's error is dropped).
#[verifier::external_body]
pub(crate) fn decode_hex(text: &[u8]) -> (r: Option<Vec<u8>>)
    ensures
        r is Some <==> hex_bytes(text@) is Some,
        r matches Some(v) ==> v@ == hex_bytes(text@).unwrap(),
{
    ::hex::decode(text).ok()
}


/// `text` is the hex form of a 20-byte object id.
pub open spec fn is_object_id_text(text: Seq<char>) -> bool {
    hex_bytes(vstd::utf8::encode_utf8(text)) matches Some(b) && b.len() == 20
}

/// The 20 bytes that a 40-digit hex object id spells, `None` for any other text.
pub fn parse_object_id(text: &str) -> (r: Option<[u8; 20]>)
    ensures
        r is Some <==> is_object_id_text(text@),
        r matches Some(id) ==> id@ == hex_bytes(vstd::utf8::encode_utf8(text@)).unwrap(),
{
    let bytes = match decode_hex(text.as_bytes()) {
        Some(b) => b,
        None => return None,
    };
    if bytes.len() != 20 {
        return None;
    }
    let mut id = [0u8; 20];
    let mut i: usize = 0;
    while i < 20
        invariant
            i <= 20,
            bytes@.len() == 20,
            forall|j: int| 0 <= j < i ==> id@[j] == bytes@[j],
        decreases 20 - i,
    {
        id[i] = bytes[i];
        i = i + 1;
    }
    assert(id@ =~= bytes@);
    Some(id)
}

} // verus!
