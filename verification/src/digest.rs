//! Content hashing for object ids.

use crate::asciistr::chars_of_ascii;
use crate::asciistr::string_from_ascii;
use crate::digits::hex_bytes;
use crate::digits::lemma_hex_bytes_index;
use crate::digits::push_hex;
use sha1::Digest;
use sha1::Sha1;
use vstd::prelude::*;

verus! {

/// The SHA-1 digest of a byte sequence: twenty bytes, a function of the
/// input bytes alone.
pub uninterp spec fn sha1_of(data: Seq<u8>) -> Seq<u8>;

/// The textual object id of an encoded record: the digest written as forty
/// lowercase hexadecimal characters.
pub open spec fn id_chars_of(data: Seq<u8>) -> Seq<char> {
    chars_of_ascii(hex_bytes(sha1_of(data)))
}

/// Relies on sha1's `Sha1`: the digest is twenty bytes and depends on the
/// input bytes alone.
#[verifier::external_body]
fn sha1_bytes(data: &[u8]) -> (r: Vec<u8>)
    ensures
        r@ == sha1_of(data@),
        r@.len() == 20,
{
    Sha1::digest(data).to_vec()
}

/// The hexadecimal object id of `data`.
pub fn hash(data: &[u8]) -> (r: String)
    ensures
        r@ == id_chars_of(data@),
        r@.len() == 40,
        crate::digits::valid_hex_id(r@),
{
    let digest = sha1_bytes(data);
    let mut hex: Vec<u8> = Vec::new();
    push_hex(&mut hex, digest.as_slice());
    proof {
        lemma_hex_bytes_index(digest@);
        crate::asciistr::lemma_ascii_bytes_utf8(hex@);
    }
    string_from_ascii(hex)
}

} // verus!
