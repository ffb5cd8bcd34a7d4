//! Trusted boundary to the schema-driven binary serializer.  Its byte format
//! is the serializer's own responsibility, so the encoding of a record is
//! given a name, `bincode_of`, and the set of byte sequences it decodes a
//! name, `bincode_decodes`.  The facts relied on: encoding this record shape
//! cannot fail, decoding inverts encoding, and which inputs decode depends on
//! the bytes alone.

use vstd::prelude::*;

use crate::data::Data;

verus! {

/// The serializer's byte encoding of a record with fields `x`, `y`, `text`.
/// A function of the field values alone.
pub uninterp spec fn bincode_of(x: u32, y: u32, text: Seq<char>) -> Seq<u8>;

/// Whether the deserializer accepts `b` as the encoding of some record.
/// A function of the bytes alone.
pub uninterp spec fn bincode_decodes(b: Seq<u8>) -> bool;

/// Relies on bincode::serialize for (u32, u32, String): the encoding depends
/// on the field values alone, and with fixed-width integers, no size limit
/// and an in-memory destination it cannot fail for this shape.
#[verifier::external_body]
pub(crate) fn bincode_encode(d: &Data) -> (r: Option<Vec<u8>>)
    ensures
        r is Some,
        r matches Some(b) ==> b@ == bincode_of(d.x, d.y, d.text@),
{
    match bincode::serialize(&(d.x, d.y, &d.text)) {
        Ok(v) => Some(v),
        Err(_) => None,
    }
}

/// Relies on bincode::deserialize for (u32, u32, String): whether bytes
/// decode depends on them alone; it inverts bincode::serialize, so bytes that
/// are the encoding of some record decode to exactly that record; bytes it
/// cannot decode are reported, not a panic.
#[verifier::external_body]
pub(crate) fn bincode_decode(b: &[u8]) -> (r: Option<Data>)
    ensures
        r is None <==> !bincode_decodes(b@),
        r is None ==> forall|x: u32, y: u32, t: Seq<char>| b@ != #[trigger] bincode_of(x, y, t),
        r matches Some(d) ==> forall|x: u32, y: u32, t: Seq<char>|
            b@ == #[trigger] bincode_of(x, y, t) ==> d.x == x && d.y == y && d.text@ == t,
{
    match bincode::deserialize::<(u32, u32, String)>(b) {
        Ok((x, y, text)) => Some(Data { x, y, text }),
        Err(_) => None,
    }
}

} // verus!
