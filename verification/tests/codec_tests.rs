use stronghold::codec::{decode_save, encode_save, save_then_load, COMPRESSION_LEVEL};
use stronghold::container::{MAGIC_0, MAGIC_1, VERSION_MAJOR, VERSION_MINOR};
use stronghold::data::Data;
use stronghold::errors::LoadError;

#[test]
fn it_works() {
    assert_eq!(2 + 2, 4);
}

fn sample() -> Data {
    Data { x: 0, y: 0, text: "Hello, world!".to_string() }
}

#[test]
fn round_trip_returns_saved_value() {
    let d = sample();
    let (bytes, _info) = encode_save(&d).unwrap();
    let out = decode_save(bytes.as_slice()).unwrap();
    assert_eq!(out.x, 0);
    assert_eq!(out.y, 0);
    assert_eq!(out.text, "Hello, world!");
}

#[test]
fn round_trip_law_function() {
    let d = Data { x: 17, y: 42_000_000, text: String::new() };
    let out = save_then_load(&d).unwrap();
    assert_eq!(out.x, 17);
    assert_eq!(out.y, 42_000_000);
    assert_eq!(out.text, "");
}

#[test]
fn container_starts_with_header() {
    let (bytes, _info) = encode_save(&sample()).unwrap();
    assert_eq!(&bytes[..4], &[MAGIC_0, MAGIC_1, VERSION_MAJOR, VERSION_MINOR]);
}

#[test]
fn info_reports_exact_sizes() {
    let d = sample();
    let (bytes, info) = encode_save(&d).unwrap();
    // Two 4-byte integers, an 8-byte length, and 13 text bytes.
    assert_eq!(info.uncompressed_byte_count, 29);
    assert_eq!(info.compressed_byte_count, bytes.len());
    assert_eq!(info.compressed_byte_count, (bytes.len() - 4) + 4);
    assert!(info.compressed_byte_count > 4);
}

#[test]
fn foreign_bytes_are_corrupt_not_a_crash() {
    let r = decode_save(b"garbage that is no container");
    assert_eq!(r.unwrap_err(), LoadError::CorruptOrIncompatible);
}

#[test]
fn short_bytes_are_corrupt() {
    assert_eq!(decode_save(&[MAGIC_0, MAGIC_1]).unwrap_err(), LoadError::CorruptOrIncompatible);
}

#[test]
fn wrong_version_is_corrupt() {
    let (mut bytes, _info) = encode_save(&sample()).unwrap();
    bytes[2] = bytes[2].wrapping_add(1);
    assert_eq!(decode_save(bytes.as_slice()).unwrap_err(), LoadError::CorruptOrIncompatible);
}

#[test]
fn truncated_payload_is_corrupt() {
    let (bytes, _info) = encode_save(&sample()).unwrap();
    let truncated = &bytes[..6];
    assert_eq!(decode_save(truncated).unwrap_err(), LoadError::CorruptOrIncompatible);
}

#[test]
fn corrupted_payload_byte_is_corrupt_not_garbage() {
    let d = sample();
    let (mut bytes, _info) = encode_save(&d).unwrap();
    bytes[5] = bytes[5].wrapping_add(1);
    assert_eq!(decode_save(bytes.as_slice()).unwrap_err(), LoadError::CorruptOrIncompatible);
}

#[test]
fn uncompressed_payload_is_rejected() {
    // A container whose payload skipped the compression stage must not load:
    // the compressor is not the identity.
    let serialized = bincode::serialize(&(0u32, 0u32, "Hello, world!")).unwrap();
    let mut bytes = vec![MAGIC_0, MAGIC_1, VERSION_MAJOR, VERSION_MINOR];
    bytes.extend_from_slice(&serialized);
    assert_eq!(decode_save(bytes.as_slice()).unwrap_err(), LoadError::CorruptOrIncompatible);
}

#[test]
fn wrong_shape_is_schema_mismatch() {
    // A well-formed container holding bytes that are no record encoding.
    let compressed = miniz_oxide::deflate::compress_to_vec_zlib(&[1u8, 2, 3], COMPRESSION_LEVEL);
    let mut bytes = vec![MAGIC_0, MAGIC_1, VERSION_MAJOR, VERSION_MINOR];
    bytes.extend_from_slice(&compressed);
    assert_eq!(decode_save(bytes.as_slice()).unwrap_err(), LoadError::SchemaMismatch);
}

#[test]
fn overwrite_leaves_only_second_value() {
    let d1 = Data { x: 1, y: 2, text: "first".to_string() };
    let d2 = Data { x: 3, y: 4, text: "second".to_string() };
    let (_b1, _i1) = encode_save(&d1).unwrap();
    let (b2, _i2) = encode_save(&d2).unwrap();
    // A save is a full overwrite: the stored bytes depend on the new value alone.
    let out = decode_save(b2.as_slice()).unwrap();
    assert_eq!(out.x, 3);
    assert_eq!(out.y, 4);
    assert_eq!(out.text, "second");
}
