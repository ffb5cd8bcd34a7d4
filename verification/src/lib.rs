//! A small persistence library: values are serialized with a schema-driven
//! binary encoder, compressed, and framed behind a fixed four-byte container
//! header.  The inverse path validates the header, decompresses and decodes.
//! An alternate archive mode stores several named resources inside one
//! zip-style container.  All container framing, error classification, path
//! resolution and archive bookkeeping is verified; the serializer, the
//! compressor and the archive format itself are outside collaborators reached
//! through narrow trusted interfaces.

pub mod archive;
pub mod codec;
pub mod compress;
pub mod container;
pub mod data;
pub mod errors;
pub mod paths;
pub mod serial;
