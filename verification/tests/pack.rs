use mygit::MyGitError;
use mygit::ObjectType;
use mygit::decode_pack;
use mygit::hash;
use mygit::ingest_pack;
use mygit::pack::parse_object_header;
use mygit::pkt_encode;
use mygit::zlib_encode;

fn be32(n: u32) -> [u8; 4] {
    [(n >> 24) as u8, (n >> 16) as u8, (n >> 8) as u8, n as u8]
}

fn pack_of(entries: &[(u8, &[u8])]) -> Vec<u8> {
    let mut pack = b"PACK".to_vec();
    pack.extend_from_slice(&be32(2));
    pack.extend_from_slice(&be32(entries.len() as u32));
    for (ty, payload) in entries {
        let size = payload.len();
        if size < 16 {
            pack.push((ty << 4) | size as u8);
        } else {
            pack.push(0x80 | (ty << 4) | (size & 0xf) as u8);
            let mut rest = size >> 4;
            while rest >= 0x80 {
                pack.push(0x80 | (rest & 0x7f) as u8);
                rest >>= 7;
            }
            pack.push(rest as u8);
        }
        pack.extend_from_slice(&zlib_encode(payload));
    }
    pack
}

#[test]
fn one_blob_pack_decodes_to_the_payload() {
    // A synthetic pack: signature, version two, one blob whose stream
    // inflates to exactly the declared size; the cursor ends at the end
    // of the buffer.
    let pack = pack_of(&[(3, b"hello world\n")]);
    let (objs, cursor) = decode_pack(&pack).unwrap();
    assert_eq!(objs.len(), 1);
    assert_eq!(objs[0].ty, ObjectType::Blob);
    assert_eq!(objs[0].contents, b"hello world\n".to_vec());
    assert_eq!(cursor, pack.len());
}

#[test]
fn pack_with_three_kinds_decodes_in_order() {
    let pack = pack_of(&[(1, b"commit body"), (2, b"tree body"), (3, b"blob body")]);
    let (objs, _) = decode_pack(&pack).unwrap();
    assert_eq!(objs[0].ty, ObjectType::Commit);
    assert_eq!(objs[1].ty, ObjectType::Tree);
    assert_eq!(objs[2].ty, ObjectType::Blob);
}

#[test]
fn large_entry_uses_continuation_size_bytes() {
    let payload = vec![b'a'; 300];
    let pack = pack_of(&[(3, &payload)]);
    let (objs, cursor) = decode_pack(&pack).unwrap();
    assert_eq!(objs[0].contents.len(), 300);
    assert_eq!(cursor, pack.len());
}

#[test]
fn object_header_accumulates_size_bits() {
    // Size 300: low four bits 0b1100, then one continuation byte 0b10010
    // at offset four.
    let data = [0xbc_u8, 0x12];
    let (h, next) = parse_object_header(&data, 0).unwrap();
    assert_eq!(h.kind, 3);
    assert_eq!(h.size, 300);
    assert_eq!(next, 2);
}

#[test]
fn bad_signature_is_corrupt() {
    let mut pack = pack_of(&[(3, b"x")]);
    pack[0] = b'K';
    assert_eq!(decode_pack(&pack).unwrap_err(), MyGitError::CorruptPack);
}

#[test]
fn version_three_is_corrupt() {
    let mut pack = pack_of(&[(3, b"x")]);
    pack[7] = 3;
    assert_eq!(decode_pack(&pack).unwrap_err(), MyGitError::CorruptPack);
}

#[test]
fn count_above_entries_is_corrupt() {
    let mut pack = pack_of(&[(3, b"x")]);
    pack[11] = 2;
    assert_eq!(decode_pack(&pack).unwrap_err(), MyGitError::CorruptPack);
}

#[test]
fn size_mismatch_is_corrupt() {
    let mut pack = b"PACK".to_vec();
    pack.extend_from_slice(&be32(2));
    pack.extend_from_slice(&be32(1));
    // Declared size five, stream of two bytes.
    pack.push(0x35);
    pack.extend_from_slice(&zlib_encode(b"hi"));
    assert_eq!(decode_pack(&pack).unwrap_err(), MyGitError::CorruptPack);
}

#[test]
fn delta_entry_is_unsupported() {
    let mut pack = b"PACK".to_vec();
    pack.extend_from_slice(&be32(2));
    pack.extend_from_slice(&be32(1));
    // Type six is an offset delta.
    pack.push(0x62);
    pack.extend_from_slice(&zlib_encode(b"xx"));
    assert_eq!(decode_pack(&pack).unwrap_err(), MyGitError::UnsupportedObjectKind);
}

#[test]
fn bad_stream_is_corrupt() {
    let mut pack = b"PACK".to_vec();
    pack.extend_from_slice(&be32(2));
    pack.extend_from_slice(&be32(1));
    pack.push(0x32);
    pack.extend_from_slice(b"not zlib");
    assert_eq!(decode_pack(&pack).unwrap_err(), MyGitError::CorruptPack);
}

#[test]
fn ingest_unwraps_side_bands_and_builds_records() {
    let pack = pack_of(&[(3, b"hello world\n")]);
    let mut body = Vec::new();
    // A progress line on band two, then the pack on band one, split over
    // two lines to exercise reassembly.
    let mut progress = vec![2u8];
    progress.extend_from_slice(b"counting objects\n");
    body.extend_from_slice(&pkt_encode(&progress).unwrap());
    let half = pack.len() / 2;
    let mut band1a = vec![1u8];
    band1a.extend_from_slice(&pack[..half]);
    body.extend_from_slice(&pkt_encode(&band1a).unwrap());
    let mut band1b = vec![1u8];
    band1b.extend_from_slice(&pack[half..]);
    body.extend_from_slice(&pkt_encode(&band1b).unwrap());
    body.extend_from_slice(b"0000");
    let records = ingest_pack(&body).unwrap();
    assert_eq!(records.len(), 1);
    assert_eq!(records[0].data, b"blob 12\0hello world\n".to_vec());
    assert_eq!(records[0].id, "3b18e512dba79e4c8300dd08aeb37f8e728b8dad");
    assert_eq!(records[0].id, hash(&records[0].data));
}

#[test]
fn ingest_rejects_unframed_body() {
    assert_eq!(ingest_pack(b"PACKnonsense").unwrap_err(), MyGitError::ProtocolError);
}
