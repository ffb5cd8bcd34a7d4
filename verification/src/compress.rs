//! Trusted boundary to the general-purpose compressor.  The compressed image
//! of a byte sequence is given a name, `zlib_of`; which streams the
//! decompressor accepts and what it returns on them are given names too,
//! `zlib_decodes` and `zlib_inflate`.  The facts relied on: both directions
//! are functions of their input alone, decompression is lossless on
//! compressed images, and a stream the decompressor rejects is reported, not
//! a panic.

use vstd::prelude::*;

verus! {

/// The zlib-wrapped compressed image of `input` at compression level `level`.
/// A function of its arguments alone.
pub uninterp spec fn zlib_of(level: u8, input: Seq<u8>) -> Seq<u8>;

/// Whether the decompressor accepts `b` as a well-formed zlib stream.
/// A function of the bytes alone.
pub uninterp spec fn zlib_decodes(b: Seq<u8>) -> bool;

/// What the decompressor returns on a stream it accepts.  A function of the
/// bytes alone.
pub uninterp spec fn zlib_inflate(b: Seq<u8>) -> Seq<u8>;

/// Relies on miniz_oxide::deflate::compress_to_vec_zlib: the compressed image
/// depends only on the input bytes and the level (levels above the highest
/// are clamped), and compression never fails.
#[verifier::external_body]
pub(crate) fn compress_zlib(input: &[u8], level: u8) -> (r: Vec<u8>)
    ensures
        r@ == zlib_of(level, input@),
{
    miniz_oxide::deflate::compress_to_vec_zlib(input, level)
}

/// Relies on miniz_oxide::inflate::decompress_to_vec_zlib: whether a stream
/// decodes, and to what, depends on its bytes alone; decompression is
/// lossless, so on the compressed image of some bytes it returns exactly
/// those bytes; a stream it cannot decode is reported, not a panic.
#[verifier::external_body]
pub(crate) fn decompress_zlib(input: &[u8]) -> (r: Option<Vec<u8>>)
    ensures
        r is None <==> !zlib_decodes(input@),
        r matches Some(d) ==> d@ == zlib_inflate(input@),
        r is None ==> forall|level: u8, s: Seq<u8>| input@ != #[trigger] zlib_of(level, s),
        r matches Some(d) ==> forall|level: u8, s: Seq<u8>|
            input@ == #[trigger] zlib_of(level, s) ==> d@ == s,
{
    match miniz_oxide::inflate::decompress_to_vec_zlib(input) {
        Ok(v) => Some(v),
        Err(_) => None,
    }
}

} // verus!
