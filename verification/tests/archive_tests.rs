use stronghold::archive::{
    archive_create_bytes, archive_load_bytes, archive_save_then_load, archive_save_two_then_load,
    archive_upsert_bytes,
};
use stronghold::errors::LoadError;

#[test]
fn archive_round_trip() {
    let out = archive_save_then_load("bin/data", b"payload bytes").unwrap();
    assert_eq!(out, b"payload bytes");
}

#[test]
fn archive_bytes_are_a_real_container() {
    // The writer is not the identity: the produced bytes carry the container
    // format's own framing, not the payload itself.
    let bytes = archive_create_bytes("bin/data", b"payload bytes").unwrap();
    assert_eq!(&bytes[..2], b"PK");
    assert_ne!(bytes.as_slice(), b"payload bytes");
}

#[test]
fn archive_missing_entry_is_not_found() {
    let bytes = archive_create_bytes("alpha", b"a").unwrap();
    let r = archive_load_bytes(bytes.as_slice(), "beta");
    assert_eq!(r.unwrap_err(), LoadError::NotFound);
}

#[test]
fn archive_foreign_bytes_are_corrupt() {
    let r = archive_load_bytes(b"this is no archive", "alpha");
    assert_eq!(r.unwrap_err(), LoadError::CorruptOrIncompatible);
}

#[test]
fn archive_two_entries_are_independent() {
    let first = archive_create_bytes("alpha", b"first payload").unwrap();
    let both = archive_upsert_bytes(first.as_slice(), "beta", b"second payload").unwrap();
    let a = archive_load_bytes(both.as_slice(), "alpha").unwrap();
    let b = archive_load_bytes(both.as_slice(), "beta").unwrap();
    assert_eq!(a, b"first payload");
    assert_eq!(b, b"second payload");
}

#[test]
fn archive_overwrite_leaves_only_second_payload() {
    let first = archive_create_bytes("alpha", b"old").unwrap();
    let second = archive_upsert_bytes(first.as_slice(), "alpha", b"new").unwrap();
    let out = archive_load_bytes(second.as_slice(), "alpha").unwrap();
    assert_eq!(out, b"new");
}

#[test]
fn archive_upsert_into_foreign_bytes_overwrites_them() {
    let out = archive_upsert_bytes(b"not an archive", "alpha", b"fresh").unwrap();
    let v = archive_load_bytes(out.as_slice(), "alpha").unwrap();
    assert_eq!(v, b"fresh");
}

#[test]
fn archive_three_entries_and_update() {
    let b1 = archive_create_bytes("one", b"1").unwrap();
    let b2 = archive_upsert_bytes(b1.as_slice(), "two", b"2").unwrap();
    let b3 = archive_upsert_bytes(b2.as_slice(), "three", b"3").unwrap();
    let b4 = archive_upsert_bytes(b3.as_slice(), "two", b"2 again").unwrap();
    assert_eq!(archive_load_bytes(b4.as_slice(), "one").unwrap(), b"1");
    assert_eq!(archive_load_bytes(b4.as_slice(), "two").unwrap(), b"2 again");
    assert_eq!(archive_load_bytes(b4.as_slice(), "three").unwrap(), b"3");
}

#[test]
fn archive_two_saves_law_function() {
    let (a, b) = archive_save_two_then_load("alpha", b"first", "beta", b"second").unwrap();
    assert_eq!(a, b"first");
    assert_eq!(b, b"second");
}

#[test]
fn archive_entry_readable_by_zip_itself() {
    // The stored entry is a genuine zip entry holding exactly the payload.
    let bytes = archive_create_bytes("bin/data", b"payload bytes").unwrap();
    let mut archive = zip::ZipArchive::new(std::io::Cursor::new(bytes)).unwrap();
    let mut entry = archive.by_name("bin/data").unwrap();
    let mut out = Vec::new();
    std::io::Read::read_to_end(&mut entry, &mut out).unwrap();
    assert_eq!(out, b"payload bytes");
}
