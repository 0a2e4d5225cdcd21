use sha1::Digest;
use gitstore::objects::{
    blob_from_bytes, encode_object, object_id, object_rel_dir, object_rel_path, parse_object,
    read_object, write_object, Object, ObjectError, ObjectId, ObjectKind,
};

fn blob(content: &[u8]) -> Object {
    Object { kind: ObjectKind::Blob, content: content.to_vec() }
}

#[test]
fn encode_blob_header_exact() {
    let enc = encode_object(ObjectKind::Blob, &b"abc".to_vec());
    assert_eq!(enc, b"blob 3\x00abc".to_vec());
}

#[test]
fn encode_tree_and_commit_headers() {
    let enc = encode_object(ObjectKind::Tree, &Vec::new());
    assert_eq!(enc, b"tree 0\x00".to_vec());
    let enc = encode_object(ObjectKind::Commit, &b"x".to_vec());
    assert_eq!(enc, b"commit 1\x00x".to_vec());
}

#[test]
fn object_round_trip_through_store() {
    let obj = blob(b"hello");
    let stored = write_object(&obj);
    let back = read_object(&stored.compressed).expect("stored object reads back");
    assert!(matches!(back.kind, ObjectKind::Blob));
    assert_eq!(back.content, b"hello".to_vec());
}

#[test]
fn object_round_trip_commit_kind() {
    let obj = Object { kind: ObjectKind::Commit, content: b"tree x\n".to_vec() };
    let stored = write_object(&obj);
    let back = read_object(&stored.compressed).expect("commit reads back");
    assert!(matches!(back.kind, ObjectKind::Commit));
    assert_eq!(back.content, b"tree x\n".to_vec());
}

#[test]
fn compressed_form_differs_from_encoding() {
    let obj = blob(b"hello world\n");
    let stored = write_object(&obj);
    assert_ne!(stored.compressed, encode_object(ObjectKind::Blob, &b"hello world\n".to_vec()));
}

#[test]
fn hello_world_blob_id_matches_reference() {
    let obj = blob_from_bytes(12, b"hello world\n".to_vec()).expect("sizes agree");
    let stored = write_object(&obj);
    assert_eq!(hex::encode(&stored.id.bytes), "3b18e512dba79e4c8300dd08aeb37f8e728b8dad");
}

#[test]
fn empty_blob_id_matches_reference() {
    let id = object_id(ObjectKind::Blob, &Vec::new());
    assert_eq!(hex::encode(&id.bytes), "e69de29bb2d1d6434b8b29ae775ad8c2e48c5391");
}

#[test]
fn content_addressing_is_idempotent() {
    let first = write_object(&blob(b"same bytes"));
    let second = write_object(&blob(b"same bytes"));
    assert_eq!(first.id.bytes, second.id.bytes);
    assert_eq!(first.rel_path, second.rel_path);
    assert_eq!(first.rel_dir, second.rel_dir);
}

#[test]
fn rel_path_splits_hex_after_two_digits() {
    let obj = blob_from_bytes(12, b"hello world\n".to_vec()).expect("sizes agree");
    let stored = write_object(&obj);
    assert_eq!(
        stored.rel_path,
        b"objects/3b/18e512dba79e4c8300dd08aeb37f8e728b8dad".to_vec()
    );
    assert_eq!(stored.rel_dir, b"objects/3b".to_vec());
    let path = object_rel_path(&stored.id);
    let dir = object_rel_dir(&stored.id);
    assert_eq!(path, stored.rel_path);
    assert_eq!(dir, stored.rel_dir);
}

#[test]
fn blob_from_bytes_rejects_size_mismatch() {
    let r = blob_from_bytes(11, b"hello world\n".to_vec());
    assert!(matches!(r, Err(ObjectError::SizeMismatch)));
}

#[test]
fn parse_rejects_unknown_kind() {
    let r = parse_object(&b"blobby 3\x00abc".to_vec());
    assert_eq!(r.unwrap_err(), ObjectError::UnknownKind);
}

#[test]
fn parse_accepts_correct_commit_spelling() {
    let o = parse_object(&b"commit 2\x00ab".to_vec()).expect("well-formed commit header");
    assert!(matches!(o.kind, ObjectKind::Commit));
    assert_eq!(o.content, b"ab".to_vec());
}

#[test]
fn parse_rejects_invalid_size() {
    assert_eq!(parse_object(&b"blob x\x00".to_vec()).unwrap_err(), ObjectError::InvalidSize);
    assert_eq!(parse_object(&b"blob \x00".to_vec()).unwrap_err(), ObjectError::InvalidSize);
    assert_eq!(
        parse_object(&b"blob 99999999999999999999999\x00".to_vec()).unwrap_err(),
        ObjectError::InvalidSize
    );
}

#[test]
fn parse_rejects_missing_terminator() {
    let mut d = Vec::new();
    d.extend_from_slice(b"blob 3");
    d.extend_from_slice(&[65u8; 40]);
    assert_eq!(parse_object(&d).unwrap_err(), ObjectError::CorruptHeader);
    assert_eq!(parse_object(&b"blob3\x00".to_vec()).unwrap_err(), ObjectError::CorruptHeader);
}

#[test]
fn parse_rejects_short_content() {
    assert_eq!(parse_object(&b"blob 5\x00abc".to_vec()).unwrap_err(), ObjectError::SizeMismatch);
}

#[test]
fn parse_bounds_content_to_declared_size() {
    let o = parse_object(&b"blob 3\x00abcdef".to_vec()).expect("trailing bytes are ignored");
    assert_eq!(o.content, b"abc".to_vec());
}

#[test]
fn read_object_rejects_garbage_stream() {
    let r = read_object(&b"this is not a zlib stream".to_vec());
    assert_eq!(r.unwrap_err(), ObjectError::CorruptHeader);
}

#[test]
fn object_id_matches_external_digest() {
    let content = b"check the hasher sees header plus content".to_vec();
    let id: ObjectId = object_id(ObjectKind::Blob, &content);
    let mut h = sha1::Sha1::new();
    h.update(&encode_object(ObjectKind::Blob, &content));
    assert_eq!(id.bytes, h.finalize().to_vec());
}
