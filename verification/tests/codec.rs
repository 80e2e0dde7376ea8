use mygit::MyGitError;
use mygit::Object;
use mygit::ObjectType;
use mygit::file_to_blob_object;
use mygit::hash;

#[test]
fn encode_blob_record_bytes() {
    let obj = Object { ty: ObjectType::Blob, contents: b"hello world\n".to_vec() };
    let mut out = Vec::new();
    let id = obj.write(&mut out);
    assert_eq!(out, b"blob 12\0hello world\n".to_vec());
    // The id of this record is well known.
    assert_eq!(id, "3b18e512dba79e4c8300dd08aeb37f8e728b8dad");
}

#[test]
fn encode_empty_payload() {
    let obj = Object { ty: ObjectType::Tree, contents: Vec::new() };
    let mut out = Vec::new();
    let id = obj.write(&mut out);
    assert_eq!(out, b"tree 0\0".to_vec());
    // The empty tree's id is well known.
    assert_eq!(id, "4b825dc642cb6eb9a060e54bf8d69288fbee4904");
}

#[test]
fn decode_round_trips_blob() {
    let obj = Object { ty: ObjectType::Blob, contents: b"some payload".to_vec() };
    let mut out = Vec::new();
    obj.write(&mut out);
    let back = Object::decode(&out).unwrap();
    assert_eq!(back.ty, ObjectType::Blob);
    assert_eq!(back.contents, b"some payload".to_vec());
}

#[test]
fn decode_round_trips_commit() {
    let obj = Object { ty: ObjectType::Commit, contents: b"tree x\n".to_vec() };
    let mut out = Vec::new();
    obj.write(&mut out);
    let back = Object::decode(&out).unwrap();
    assert_eq!(back.ty, ObjectType::Commit);
    assert_eq!(back.contents, b"tree x\n".to_vec());
}

#[test]
fn decode_round_trips_payload_with_nul_and_digits() {
    // A payload holding NULs and digit runs must not confuse the header
    // scan.
    let obj = Object { ty: ObjectType::Blob, contents: b"12\x0034 \x00x".to_vec() };
    let mut out = Vec::new();
    obj.write(&mut out);
    let back = Object::decode(&out).unwrap();
    assert_eq!(back.contents, b"12\x0034 \x00x".to_vec());
}

#[test]
fn decode_ignores_trailing_bytes() {
    let mut data = b"blob 2\0hi".to_vec();
    data.extend_from_slice(b"junk");
    let back = Object::decode(&data).unwrap();
    assert_eq!(back.contents, b"hi".to_vec());
}

#[test]
fn decode_rejects_unknown_kind() {
    let data = b"blub 2\0hi".to_vec();
    assert_eq!(Object::decode(&data).unwrap_err(), MyGitError::CorruptObject);
}

#[test]
fn decode_rejects_bad_length() {
    let data = b"blob 2x\0hi".to_vec();
    assert_eq!(Object::decode(&data).unwrap_err(), MyGitError::CorruptObject);
}

#[test]
fn decode_rejects_truncated_payload() {
    let data = b"blob 5\0hi".to_vec();
    assert_eq!(Object::decode(&data).unwrap_err(), MyGitError::CorruptObject);
}

#[test]
fn decode_rejects_missing_nul() {
    let data = b"blob 2 hi".to_vec();
    assert_eq!(Object::decode(&data).unwrap_err(), MyGitError::CorruptObject);
}

#[test]
fn decode_rejects_missing_space() {
    let data = b"blob2\0hi".to_vec();
    assert_eq!(Object::decode(&data).unwrap_err(), MyGitError::CorruptObject);
}

#[test]
fn hash_of_empty_input() {
    // SHA-1 of the empty byte sequence.
    assert_eq!(hash(b""), "da39a3ee5e6b4b0d3255bfef95601890afd80709");
}

#[test]
fn file_to_blob_object_wraps_contents() {
    let blob = file_to_blob_object(b"hi");
    assert_eq!(blob.contents, b"blob 2\0hi".to_vec());
}
