//! The save-file codec: serialize, compress at a fixed high level, frame
//! behind the container header; the inverse validates the header,
//! decompresses and decodes.  Together with `container`, this is where the
//! round-trip guarantee lives, and every load outcome is classified: which
//! bytes load, which are corrupt, and which are a schema mismatch.

use vstd::prelude::*;

use crate::compress::compress_zlib;
use crate::compress::decompress_zlib;
use crate::compress::zlib_decodes;
use crate::compress::zlib_inflate;
use crate::compress::zlib_of;
use crate::container::container_seq;
use crate::container::frame;
use crate::container::header_ok;
use crate::container::lemma_container_parts;
use crate::container::payload_seq;
use crate::container::unframe;
use crate::data::Data;
use crate::errors::Info;
use crate::errors::LoadError;
use crate::errors::SaveError;
use crate::serial::bincode_decode;
use crate::serial::bincode_decodes;
use crate::serial::bincode_encode;
use crate::serial::bincode_of;

verus! {

/// The fixed compression level: the highest, chosen once; saves are
/// infrequent and size matters more than latency.
pub const COMPRESSION_LEVEL: u8 = 10;

/// The full container image of a record: its serialized bytes, compressed at
/// `level`, behind the header.
pub open spec fn container_of_record(level: u8, x: u32, y: u32, text: Seq<char>) -> Seq<u8> {
    container_seq(zlib_of(level, bincode_of(x, y, text)))
}

/// Encode a record into container bytes, reporting both byte counts.
/// Encoding always succeeds: the serializer cannot refuse this record shape,
/// the compressor cannot fail, and framing is total.  The result is a
/// function of the record alone, so overwriting a prior save leaves no trace
/// of it.
pub fn encode_save(d: &Data) -> (r: Result<(Vec<u8>, Info), SaveError>)
    ensures
        r is Ok,
        r matches Ok(out) ==> {
            &&& out.0@ == container_of_record(COMPRESSION_LEVEL, d.x, d.y, d.text@)
            &&& out.1.uncompressed_byte_count == bincode_of(d.x, d.y, d.text@).len()
            &&& out.1.compressed_byte_count == zlib_of(
                COMPRESSION_LEVEL,
                bincode_of(d.x, d.y, d.text@),
            ).len() + 4
        },
{
    let serialized = match bincode_encode(d) {
        Some(v) => v,
        None => {
            proof {
                assert(false);
            }
            return Err(SaveError::SerializeRefused);
        },
    };
    let uncompressed_byte_count = serialized.len();
    let compressed = compress_zlib(serialized.as_slice(), COMPRESSION_LEVEL);
    let framed = frame(compressed.as_slice());
    let compressed_byte_count = framed.len();
    Ok((framed, Info { uncompressed_byte_count, compressed_byte_count }))
}

/// Decode container bytes back into a record.  Every outcome is pinned: a
/// missing or mismatched header is corrupt, a payload the decompressor
/// rejects is corrupt, a decompressed stream the serializer rejects is a
/// schema mismatch, and anything else decodes.  On the container image of
/// any record, the record comes back: the round-trip guarantee.
pub fn decode_save(bytes: &[u8]) -> (r: Result<Data, LoadError>)
    ensures
        r is Ok ==> header_ok(bytes@),
        !header_ok(bytes@) ==> r == Err::<Data, LoadError>(LoadError::CorruptOrIncompatible),
        header_ok(bytes@) && !zlib_decodes(payload_seq(bytes@)) ==> r == Err::<Data, LoadError>(
            LoadError::CorruptOrIncompatible,
        ),
        header_ok(bytes@) && zlib_decodes(payload_seq(bytes@)) && !bincode_decodes(
            zlib_inflate(payload_seq(bytes@)),
        ) ==> r == Err::<Data, LoadError>(LoadError::SchemaMismatch),
        header_ok(bytes@) && zlib_decodes(payload_seq(bytes@)) && bincode_decodes(
            zlib_inflate(payload_seq(bytes@)),
        ) ==> r is Ok,
        r != Err::<Data, LoadError>(LoadError::NotFound),
        forall|level: u8, x: u32, y: u32, t: Seq<char>|
            bytes@ == #[trigger] container_of_record(level, x, y, t) ==> (r matches Ok(d) && d.x
                == x && d.y == y && d.text@ == t),
{
    let payload = match unframe(bytes) {
        Ok(p) => p,
        Err(e) => {
            proof {
                assert forall|level: u8, x: u32, y: u32, t: Seq<char>|
                    bytes@ == #[trigger] container_of_record(level, x, y, t) implies false by {
                    lemma_container_parts(zlib_of(level, bincode_of(x, y, t)));
                }
            }
            return Err(e);
        },
    };
    let raw = decompress_zlib(payload.as_slice());
    proof {
        assert forall|level: u8, x: u32, y: u32, t: Seq<char>|
            bytes@ == #[trigger] container_of_record(level, x, y, t) implies payload@ == zlib_of(
            level,
            bincode_of(x, y, t),
        ) by {
            lemma_container_parts(zlib_of(level, bincode_of(x, y, t)));
        }
    }
    let raw = match raw {
        Some(v) => v,
        None => {
            return Err(LoadError::CorruptOrIncompatible);
        },
    };
    match bincode_decode(raw.as_slice()) {
        Some(d) => Ok(d),
        None => Err(LoadError::SchemaMismatch),
    }
}

/// Law: loading what a save produced returns the saved value.  Saving never
/// fails, and decoding the encoded container gives a record with the same
/// fields.
pub fn save_then_load(d: &Data) -> (r: Result<Data, SaveError>)
    ensures
        r is Ok,
        r matches Ok(out) ==> out.same_value(*d),
{
    let (bytes, _info) = match encode_save(d) {
        Ok(p) => p,
        Err(e) => {
            proof {
                assert(false);
            }
            return Err(e);
        },
    };
    match decode_save(bytes.as_slice()) {
        Ok(out) => Ok(out),
        Err(_) => {
            proof {
                assert(bytes@ == container_of_record(COMPRESSION_LEVEL, d.x, d.y, d.text@));
                assert(false);
            }
            Err(SaveError::SerializeRefused)
        },
    }
}

} // verus!
