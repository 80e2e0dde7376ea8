use mygit::MyGitError;
use mygit::Object;
use mygit::ObjectType;
use mygit::hash_to_path;
use mygit::sha_to_path;
use mygit::zlib_decode;
use mygit::zlib_encode;

#[test]
fn path_of_valid_id() {
    let id = "3b18e512dba79e4c8300dd08aeb37f8e728b8dad";
    let path = hash_to_path(id).unwrap();
    assert_eq!(path, ".git/objects/3b/18e512dba79e4c8300dd08aeb37f8e728b8dad");
}

#[test]
fn short_id_is_invalid_hash() {
    // A malformed id is refused, never used as a path.
    assert_eq!(hash_to_path("abc").unwrap_err(), MyGitError::InvalidHash);
}

#[test]
fn non_hex_id_is_invalid_hash() {
    let id = "zz18e512dba79e4c8300dd08aeb37f8e728b8dad";
    assert_eq!(hash_to_path(id).unwrap_err(), MyGitError::InvalidHash);
}

#[test]
fn uppercase_id_is_invalid_hash() {
    let id = "3B18E512DBA79E4C8300DD08AEB37F8E728B8DAD";
    assert_eq!(hash_to_path(id).unwrap_err(), MyGitError::InvalidHash);
}

#[test]
fn empty_id_is_invalid_hash() {
    assert_eq!(hash_to_path("").unwrap_err(), MyGitError::InvalidHash);
}

#[test]
fn sha_to_path_matches_hash_to_path() {
    let id = "4b825dc642cb6eb9a060e54bf8d69288fbee4904";
    assert_eq!(sha_to_path(id), hash_to_path(id).unwrap());
}

#[test]
fn storing_same_content_twice_yields_one_path() {
    // Content addressing: the id and the path depend only on the bytes.
    let first = Object { ty: ObjectType::Blob, contents: b"same bytes".to_vec() };
    let second = Object { ty: ObjectType::Blob, contents: b"same bytes".to_vec() };
    let mut buf1 = Vec::new();
    let mut buf2 = Vec::new();
    let id1 = first.write(&mut buf1);
    let id2 = second.write(&mut buf2);
    assert_eq!(id1, id2);
    assert_eq!(buf1, buf2);
    assert_eq!(hash_to_path(&id1).unwrap(), hash_to_path(&id2).unwrap());
}

#[test]
fn zlib_round_trip() {
    let data = b"a body worth compressing, with repetition, repetition".to_vec();
    let packed = zlib_encode(&data);
    let unpacked = zlib_decode(&packed).unwrap();
    assert_eq!(unpacked, data);
}

#[test]
fn zlib_encode_emits_a_zlib_stream() {
    // A zlib stream starts with the 0x78 method byte, so the encoder
    // really compressed rather than passing the bytes through.
    let packed = zlib_encode(b"hello world");
    assert_eq!(packed[0], 0x78);
    assert_ne!(packed, b"hello world".to_vec());
}

#[test]
fn zlib_decode_rejects_garbage() {
    assert_eq!(zlib_decode(b"not a zlib stream").unwrap_err(), MyGitError::CorruptObject);
}
