//! The compression utility: the zlib stream that wraps every object on
//! disk. Compression is specified through the inverse direction only: what
//! zlib decompression makes of a byte string.

use std::io::Read;
use std::io::Write;
use vstd::prelude::*;

verus! {

/// What zlib decompression makes of a byte string: the decompressed bytes,
/// or nothing if the string is not a well-formed zlib stream. The name
/// stands for whatever `flate2`'s decoder computes, which depends on the
/// input bytes alone.
pub uninterp spec fn zlib_inflate(data: Seq<u8>) -> Option<Seq<u8>>;

/// Relies on `flate2::write::ZlibEncoder`: the result is a zlib stream
/// whose decompression restores `data` exactly.
#[verifier::external_body]
pub fn zlib_compress(data: &Vec<u8>) -> (r: Vec<u8>)
    ensures
        zlib_inflate(r@) == Some(data@),
{
    let mut enc = flate2::write::ZlibEncoder::new(Vec::new(), flate2::Compression::default());
    enc.write_all(data.as_slice()).expect("writing to an in-memory encoder cannot fail");
    enc.finish().expect("finishing an in-memory encoder cannot fail")
}

/// Relies on `flate2::read::ZlibDecoder`: decompresses a zlib stream held
/// wholly in memory, or reports that the stream is malformed.
#[verifier::external_body]
pub fn zlib_decompress(data: &Vec<u8>) -> (r: Option<Vec<u8>>)
    ensures
        match r {
            Some(v) => zlib_inflate(data@) == Some(v@),
            None => zlib_inflate(data@) == None::<Seq<u8>>,
        },
{
    let mut out = Vec::new();
    let mut dec = flate2::read::ZlibDecoder::new(data.as_slice());
    match dec.read_to_end(&mut out) {
        Ok(_) => Some(out),
        Err(_) => None,
    }
}

} // verus!
