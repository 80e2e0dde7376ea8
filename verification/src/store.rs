//! The content-addressable store layout.
//!
//! An object's compressed record lives at `.git/objects/<id[0:2]>/<id[2:]>`.
//! The path is a function of the id alone, and the id a function of the
//! encoded record alone, so storing identical content twice lands on one
//! file. This module computes and validates paths; reading and writing the
//! files themselves is left to the caller.

use crate::asciistr::lemma_ascii_bytes_utf8;
use crate::digest::id_chars_of;
use crate::digits::bytes_all_hex;
use crate::digits::valid_hex_id;
use crate::error::MyGitError;
use crate::object::ObjectType;
use crate::object::encode_rec;
use vstd::prelude::*;
use vstd::string::StrSliceExecFns;
use vstd::string::StringExecFns;
use vstd::utf8::encode_utf8;
use vstd::utf8::encode_utf8_decode_utf8;

verus! {

/// The store path of a textual object id: the first two characters name the
/// directory, the rest name the file.
pub open spec fn store_path_chars(id: Seq<char>) -> Seq<char> {
    ".git/objects/"@ + id.subrange(0, 2) + "/"@ + id.subrange(2, 40)
}

/// The directory holding the store file of an id.
pub open spec fn store_dir_chars(id: Seq<char>) -> Seq<char> {
    ".git/objects/"@ + id.subrange(0, 2)
}

/// Validates an object id and computes its store path. A malformed id is
/// refused, so a lookup can never reach a path outside the object store.
pub fn hash_to_path(hash: &str) -> (r: Result<String, MyGitError>)
    ensures
        match r {
            Ok(p) => valid_hex_id(hash@) && p@ == store_path_chars(hash@),
            Err(e) => !valid_hex_id(hash@) && e == MyGitError::InvalidHash,
        },
{
    let bs = hash.as_bytes();
    if bs.len() != 40 {
        return Err(MyGitError::InvalidHash);
    }
    if !bytes_all_hex(bs) {
        return Err(MyGitError::InvalidHash);
    }
    proof {
        crate::digits::hex_digits_are_ascii(bs@);
        lemma_ascii_bytes_utf8(bs@);
        encode_utf8_decode_utf8(hash@);
        assert(hash@.len() == 40);
    }
    let mut out = String::new();
    out.append(".git/objects/");
    out.append(hash.substring_ascii(0, 2));
    out.append("/");
    out.append(hash.substring_ascii(2, 40));
    proof {
        assert(out@ =~= store_path_chars(hash@));
    }
    Ok(out)
}

/// The store path of an id already known to be well formed.
pub fn sha_to_path(sha: &str) -> (r: String)
    requires
        valid_hex_id(sha@),
    ensures
        r@ == store_path_chars(sha@),
{
    match hash_to_path(sha) {
        Ok(p) => p,
        Err(_) => {
            proof {
                assert(false);
            }
            String::new()
        },
    }
}

/// The directory part of a well-formed id's store path.
pub fn sha_to_dir(sha: &str) -> (r: String)
    requires
        valid_hex_id(sha@),
    ensures
        r@ == store_dir_chars(sha@),
{
    proof {
        let bs = encode_utf8(sha@);
        crate::digits::hex_digits_are_ascii(bs);
        lemma_ascii_bytes_utf8(bs);
        encode_utf8_decode_utf8(sha@);
        assert(sha@.len() == 40);
    }
    let mut out = String::new();
    out.append(".git/objects/");
    out.append(sha.substring_ascii(0, 2));
    proof {
        assert(out@ =~= store_dir_chars(sha@));
    }
    out
}

/// One record ready to persist: its id and its encoded, uncompressed bytes.
/// The caller compresses the bytes and writes them at the id's store path.
#[derive(Debug, Clone)]
pub struct StoreRecord {
    pub id: String,
    pub data: Vec<u8>,
}

impl StoreRecord {
    /// The record holds the encoding of `t` and `payload`, under its id.
    pub open spec fn is_record_of(&self, t: ObjectType, payload: Seq<u8>) -> bool {
        &&& self.data@ == encode_rec(t, payload)
        &&& self.id@ == id_chars_of(encode_rec(t, payload))
        &&& valid_hex_id(self.id@)
    }
}

/// The id, and with it the store path, depends only on the kind and payload
/// of a record: storing the same content twice yields one file, not two.
pub proof fn lemma_store_deterministic(t1: ObjectType, p1: Seq<u8>, t2: ObjectType, p2: Seq<u8>)
    requires
        t1 == t2,
        p1 == p2,
    ensures
        id_chars_of(encode_rec(t1, p1)) == id_chars_of(encode_rec(t2, p2)),
        store_path_chars(id_chars_of(encode_rec(t1, p1))) == store_path_chars(
            id_chars_of(encode_rec(t2, p2)),
        ),
{
}

} // verus!
