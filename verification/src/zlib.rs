//! zlib streams, through the `flate2` crate.

use std::io::Read;
use std::io::Write;
use vstd::prelude::*;

verus! {

/// The zlib stream that `flate2` writes for `data` at the default level.
pub uninterp spec fn zlib_compress(data: Seq<u8>) -> Seq<u8>;

/// What `flate2` reads out of a zlib stream at the start of `data`, or
/// `None` where it reports an error.
pub uninterp spec fn zlib_decompress(data: Seq<u8>) -> Option<Seq<u8>>;

/// `flate2::write::ZlibEncoder` at `Compression::default()`, into a vector:
/// the compressed stream, which decompresses back to `data` (writing into a
/// vector does not fail).
#[verifier::external_body]
pub(crate) fn compress(data: &[u8]) -> (r: Vec<u8>)
    ensures
        r@ == zlib_compress(data@),
        zlib_decompress(r@) == Some(data@),
{
    let mut encoder = flate2::write::ZlibEncoder::new(Vec::new(), flate2::Compression::default());
    encoder.write_all(data).unwrap();
    encoder.finish().unwrap()
}

/// `flate2::read::ZlibDecoder` read to the end: the decompressed bytes of
/// the zlib stream at the start of `data`, `None` on a read error.
#[verifier::external_body]
pub(crate) fn decompress(data: &[u8]) -> (r: Option<Vec<u8>>)
    ensures
        r is Some <==> zlib_decompress(data@) is Some,
        r matches Some(v) ==> v@ == zlib_decompress(data@).unwrap(),
{
    let mut decoder = flate2::read::ZlibDecoder::new(data);
    let mut out = Vec::new();
    match decoder.read_to_end(&mut out) {
        Ok(_) => Some(out),
        Err(_) => None,
    }
}

} // verus!
