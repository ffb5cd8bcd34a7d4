//! The standalone container format: a fixed four-byte header (two identity
//! bytes and a major/minor version) followed by the compressed payload.
//! Every file this library writes begins with exactly this header; a load
//! that does not find it treats the file as foreign or incompatible.

use vstd::prelude::*;

use crate::errors::LoadError;

verus! {

/// First identity byte of the header: 'S'.
pub const MAGIC_0: u8 = 0x53;

/// Second identity byte of the header: 't'.
pub const MAGIC_1: u8 = 0x74;

/// Major format version.
pub const VERSION_MAJOR: u8 = 0;

/// Minor format version.
pub const VERSION_MINOR: u8 = 1;

/// The exact four header bytes.
pub open spec fn header_seq() -> Seq<u8> {
    seq![MAGIC_0, MAGIC_1, VERSION_MAJOR, VERSION_MINOR]
}

/// The container holding `payload`: the header followed by the payload.
pub open spec fn container_seq(payload: Seq<u8>) -> Seq<u8> {
    header_seq() + payload
}

/// Whether `b` starts with the expected header.
pub open spec fn header_ok(b: Seq<u8>) -> bool {
    b.len() >= 4 && b.subrange(0, 4) == header_seq()
}

/// The payload part of a container: everything after the header.
pub open spec fn payload_seq(b: Seq<u8>) -> Seq<u8> {
    b.subrange(4, b.len() as int)
}

/// A container built from a payload is well formed and yields that payload back.
pub proof fn lemma_container_parts(payload: Seq<u8>)
    ensures
        header_ok(container_seq(payload)),
        payload_seq(container_seq(payload)) == payload,
{
    assert(container_seq(payload).subrange(0, 4) =~= header_seq());
    assert(payload_seq(container_seq(payload)) =~= payload);
}

/// Prefix the payload with the four header bytes.
pub fn frame(payload: &[u8]) -> (r: Vec<u8>)
    ensures
        r@ == container_seq(payload@),
        r@.len() == payload@.len() + 4,
{
    let mut r: Vec<u8> = Vec::new();
    r.push(MAGIC_0);
    r.push(MAGIC_1);
    r.push(VERSION_MAJOR);
    r.push(VERSION_MINOR);
    r.extend_from_slice(payload);
    proof {
        assert(r@ =~= container_seq(payload@));
    }
    r
}

/// Validate the header and return the payload that follows it.  A short or
/// mismatched header means the bytes are foreign or from an incompatible
/// version, never a panic.
pub fn unframe(b: &[u8]) -> (r: Result<Vec<u8>, LoadError>)
    ensures
        match r {
            Ok(p) => header_ok(b@) && p@ == payload_seq(b@),
            Err(e) => e == LoadError::CorruptOrIncompatible && !header_ok(b@),
        },
{
    if b.len() < 4 {
        return Err(LoadError::CorruptOrIncompatible);
    }
    if b[0] != MAGIC_0 || b[1] != MAGIC_1 || b[2] != VERSION_MAJOR || b[3] != VERSION_MINOR {
        proof {
            if header_ok(b@) {
                assert(b@.subrange(0, 4)[0] == b@[0]);
                assert(b@.subrange(0, 4)[1] == b@[1]);
                assert(b@.subrange(0, 4)[2] == b@[2]);
                assert(b@.subrange(0, 4)[3] == b@[3]);
            }
        }
        return Err(LoadError::CorruptOrIncompatible);
    }
    let mut p: Vec<u8> = Vec::new();
    let mut i: usize = 4;
    while i < b.len()
        invariant
            4 <= i <= b@.len(),
            p@ == b@.subrange(4, i as int),
        decreases b@.len() - i,
    {
        p.push(b[i]);
        i = i + 1;
        proof {
            assert(p@ =~= b@.subrange(4, i as int));
        }
    }
    proof {
        assert(b@.subrange(0, 4) =~= header_seq());
        assert(p@ == payload_seq(b@));
    }
    Ok(p)
}

} // verus!
