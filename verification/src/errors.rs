//! Error taxonomy: every low-level failure is translated at the component
//! boundary into one of these kinds; raw library errors never reach a caller.

use vstd::prelude::*;

verus! {

/// Why a save path could not be resolved.  Both kinds are configuration-level
/// failures: the host decides whether to abort.
#[derive(Clone, Copy, Debug, PartialEq, Eq, Structural)]
pub enum PathError {
    /// The home-directory environment variable is unset, so there is nowhere
    /// to store data.
    MissingHome,
    /// The target platform has no defined home-directory convention.
    UnsupportedPlatform,
}

/// Why a save failed.
#[derive(Clone, Copy, Debug, PartialEq, Eq, Structural)]
pub enum SaveError {
    /// The schema-driven serializer reported it cannot encode the value.
    SerializeRefused,
    /// The destination could not be created or a write failed.
    WriteFailure,
}

/// Why a load produced no value.
#[derive(Clone, Copy, Debug, PartialEq, Eq, Structural)]
pub enum LoadError {
    /// The file or archive entry does not exist: an expected, common state.
    NotFound,
    /// The container header does not match, or the compressed stream is
    /// malformed: the file is foreign or unreadable.
    CorruptOrIncompatible,
    /// The stored shape does not match the requested type.
    SchemaMismatch,
}

/// Byte counts reported by a successful save; observational only.
#[derive(Clone, Copy, Debug, PartialEq, Eq, Structural)]
pub struct Info {
    /// Length of the serializer's output before compression.
    pub uncompressed_byte_count: usize,
    /// Length of the written container: compressed payload plus header.
    pub compressed_byte_count: usize,
}

} // verus!
