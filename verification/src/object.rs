//! The object codec: the canonical `<kind> <length>\0<payload>` record.
//!
//! An object's id is the hash of the whole encoded record, so the kind and
//! the payload length are part of its identity.

use crate::digest::hash;
use crate::digest::id_chars_of;
use crate::digits::all_dec_digits;
use crate::digits::dec_bytes;
use crate::digits::dec_val;
use crate::digits::dec_value_of;
use crate::digits::find_byte;
use crate::digits::find_byte_in;
use crate::digits::is_dec_digit;
use crate::digits::lemma_find_byte_props;
use crate::digits::lemma_find_byte_skip;
use crate::digits::lemma_dec_bytes_digits;
use crate::digits::lemma_dec_bytes_len_u64;
use crate::digits::lemma_dec_val_dec_bytes;
use crate::digits::push_bytes;
use crate::digits::push_decimal;
use crate::error::MyGitError;
use vstd::prelude::*;
use vstd::slice::slice_subrange;

verus! {

/// The kinds of stored objects. Tree and commit records reference other
/// object ids in their payloads.
#[derive(Debug, Clone, Copy, PartialEq, Eq, Structural)]
pub enum ObjectType {
    Blob,
    Tree,
    Commit,
}

/// The ASCII kind token of an object type.
pub open spec fn kind_bytes(t: ObjectType) -> Seq<u8> {
    match t {
        ObjectType::Blob => seq![98u8, 108u8, 111u8, 98u8],  // "blob"
        ObjectType::Tree => seq![116u8, 114u8, 101u8, 101u8],  // "tree"
        ObjectType::Commit => seq![99u8, 111u8, 109u8, 109u8, 105u8, 116u8],  // "commit"
    }
}

/// Appends the kind token of `t`.
fn push_kind(out: &mut Vec<u8>, t: ObjectType)
    ensures
        final(out)@ == old(out)@ + kind_bytes(t),
{
    match t {
        ObjectType::Blob => {
            out.push(98);
            out.push(108);
            out.push(111);
            out.push(98);
        },
        ObjectType::Tree => {
            out.push(116);
            out.push(114);
            out.push(101);
            out.push(101);
        },
        ObjectType::Commit => {
            out.push(99);
            out.push(111);
            out.push(109);
            out.push(109);
            out.push(105);
            out.push(116);
        },
    }
    proof {
        assert(out@ =~= old(out)@ + kind_bytes(t));
    }
}

/// The canonical encoded record: kind token, space, decimal payload length,
/// NUL, payload.
pub open spec fn encode_rec(t: ObjectType, payload: Seq<u8>) -> Seq<u8> {
    kind_bytes(t) + seq![32u8] + dec_bytes(payload.len()) + seq![0u8] + payload
}

/// The object type named by a kind token, if any.
pub open spec fn kind_of_token(token: Seq<u8>) -> Option<ObjectType> {
    if token == kind_bytes(ObjectType::Blob) {
        Some(ObjectType::Blob)
    } else if token == kind_bytes(ObjectType::Tree) {
        Some(ObjectType::Tree)
    } else if token == kind_bytes(ObjectType::Commit) {
        Some(ObjectType::Commit)
    } else {
        None
    }
}

/// The bound within which a record's header (kind, space, length, NUL) must
/// close: the longest kind token, one space, at most twenty digits, one NUL.
pub open spec fn header_bound(len: nat) -> int {
    if len < 32 {
        len as int
    } else {
        32
    }
}

/// What decoding a buffer yields: the kind and payload of the record at its
/// head, or nothing when the header is unterminated or malformed, the kind
/// token is unrecognized, the length is not decimal, or the payload is
/// truncated. Bytes after the declared payload are ignored.
pub open spec fn decode_spec(data: Seq<u8>) -> Option<(ObjectType, Seq<u8>)> {
    let p = find_byte_in(data, 0u8, 0, header_bound(data.len()));
    if p < 0 {
        None
    } else {
        let header = data.subrange(0, p);
        let sp = find_byte_in(header, 32u8, 0, header.len() as int);
        if sp < 0 {
            None
        } else {
            let token = header.subrange(0, sp);
            let digits = header.subrange(sp + 1, header.len() as int);
            if kind_of_token(token) is None {
                None
            } else if !(digits.len() > 0 && all_dec_digits(digits)) {
                None
            } else if p + 1 + dec_val(digits) <= data.len() {
                Some((kind_of_token(token)->0, data.subrange(p + 1, p + 1 + dec_val(digits))))
            } else {
                None
            }
        }
    }
}

/// A stored object: its kind and its raw payload bytes. Immutable once
/// created; the codec never updates a record in place.
#[derive(Debug, Clone)]
pub struct Object {
    pub ty: ObjectType,
    pub contents: Vec<u8>,
}

/// Appends the encoded record of a payload under a kind and returns its id.
pub fn encode_object(ty: ObjectType, payload: &[u8], out: &mut Vec<u8>) -> (r: String)
    ensures
        final(out)@ == old(out)@ + encode_rec(ty, payload@),
        r@ == id_chars_of(encode_rec(ty, payload@)),
        r@.len() == 40,
        crate::digits::valid_hex_id(r@),
{
    let mut buf: Vec<u8> = Vec::new();
    push_kind(&mut buf, ty);
    buf.push(32);
    push_decimal(&mut buf, payload.len() as u64);
    buf.push(0);
    push_bytes(&mut buf, payload);
    proof {
        assert(buf@ =~= encode_rec(ty, payload@));
    }
    let id = hash(buf.as_slice());
    push_bytes(out, buf.as_slice());
    id
}

impl Object {
    /// Appends this object's encoded record to `out` and returns its id.
    pub fn write(&self, out: &mut Vec<u8>) -> (r: String)
        ensures
            final(out)@ == old(out)@ + encode_rec(self.ty, self.contents@),
            r@ == id_chars_of(encode_rec(self.ty, self.contents@)),
            r@.len() == 40,
            crate::digits::valid_hex_id(r@),
    {
        encode_object(self.ty, self.contents.as_slice(), out)
    }

    /// Decodes the record at the head of `data`.
    pub fn decode(data: &[u8]) -> (r: Result<Object, MyGitError>)
        ensures
            match r {
                Ok(o) => decode_spec(data@) == Some((o.ty, o.contents@)),
                Err(e) => decode_spec(data@) is None && e == MyGitError::CorruptObject,
            },
    {
        let bound: usize = if data.len() < 32 {
            data.len()
        } else {
            32
        };
        let p = match find_byte(data, 0, 0, bound) {
            Some(p) => p,
            None => {
                return Err(MyGitError::CorruptObject);
            },
        };
        proof {
            lemma_find_byte_props(data@, 0u8, 0, header_bound(data@.len()));
        }
        let header = slice_subrange(data, 0, p);
        let sp = match find_byte(header, 32, 0, p) {
            Some(sp) => sp,
            None => {
                return Err(MyGitError::CorruptObject);
            },
        };
        proof {
            lemma_find_byte_props(header@, 32u8, 0, p as int);
        }
        let token = slice_subrange(header, 0, sp);
        let kind = match Self::kind_of(token) {
            Some(k) => k,
            None => {
                return Err(MyGitError::CorruptObject);
            },
        };
        let digits = slice_subrange(header, sp + 1, p);
        let size = match dec_value_of(digits) {
            Some(v) => v,
            None => {
                proof {
                    if digits@.len() > 0 && all_dec_digits(digits@) {
                        // The declared length does not fit in memory, so the
                        // payload is necessarily truncated.
                        assert(dec_val(digits@) > usize::MAX);
                        assert(data@.len() <= usize::MAX);
                    }
                }
                return Err(MyGitError::CorruptObject);
            },
        };
        if size > data.len() - (p + 1) {
            return Err(MyGitError::CorruptObject);
        }
        let payload = slice_subrange(data, p + 1, p + 1 + size);
        let mut contents: Vec<u8> = Vec::new();
        push_bytes(&mut contents, payload);
        proof {
            assert(contents@ =~= data@.subrange(p as int + 1, p as int + 1 + dec_val(digits@)));
        }
        Ok(Object { ty: kind, contents })
    }

    /// Recognizes a kind token.
    fn kind_of(token: &[u8]) -> (r: Option<ObjectType>)
        ensures
            r == kind_of_token(token@),
    {
        if token.len() == 4 && token[0] == 98 && token[1] == 108 && token[2] == 111 && token[3]
            == 98 {
            proof {
                assert(token@ =~= kind_bytes(ObjectType::Blob));
            }
            Some(ObjectType::Blob)
        } else if token.len() == 4 && token[0] == 116 && token[1] == 114 && token[2] == 101
            && token[3] == 101 {
            proof {
                assert(token@ =~= kind_bytes(ObjectType::Tree));
            }
            Some(ObjectType::Tree)
        } else if token.len() == 6 && token[0] == 99 && token[1] == 111 && token[2] == 109
            && token[3] == 109 && token[4] == 105 && token[5] == 116 {
            proof {
                assert(token@ =~= kind_bytes(ObjectType::Commit));
            }
            Some(ObjectType::Commit)
        } else {
            proof {
                if token@ == kind_bytes(ObjectType::Blob) {
                    assert(token@.len() == 4 && token@[0] == 98 && token@[1] == 108 && token@[2]
                        == 111 && token@[3] == 98);
                }
                if token@ == kind_bytes(ObjectType::Tree) {
                    assert(token@.len() == 4 && token@[0] == 116 && token@[1] == 114 && token@[2]
                        == 101 && token@[3] == 101);
                }
                if token@ == kind_bytes(ObjectType::Commit) {
                    assert(token@.len() == 6 && token@[0] == 99 && token@[1] == 111 && token@[2]
                        == 109 && token@[3] == 109 && token@[4] == 105 && token@[5] == 116);
                }
            }
            None
        }
    }
}

/// A whole encoded blob record, as built from a file's contents.
#[derive(Debug, Clone)]
pub struct BlobObject {
    pub contents: Vec<u8>,
}

/// Wraps a file's contents as an encoded blob record.
pub fn file_to_blob_object(contents: &[u8]) -> (r: BlobObject)
    ensures
        r.contents@ == encode_rec(ObjectType::Blob, contents@),
{
    let mut buf: Vec<u8> = Vec::new();
    let obj = Object { ty: ObjectType::Blob, contents: slice_to_vec_bytes(contents) };
    obj.write(&mut buf);
    BlobObject { contents: buf }
}

/// Copies a byte slice into a vector.
fn slice_to_vec_bytes(s: &[u8]) -> (r: Vec<u8>)
    ensures
        r@ == s@,
{
    let mut out: Vec<u8> = Vec::new();
    push_bytes(&mut out, s);
    out
}

/// Decoding the encoding returns the kind and payload unchanged: the codec
/// round-trips on every payload that fits in memory.
pub proof fn lemma_decode_encode(t: ObjectType, payload: Seq<u8>)
    requires
        payload.len() <= u64::MAX,
    ensures
        decode_spec(encode_rec(t, payload)) == Some((t, payload)),
{
    let e = encode_rec(t, payload);
    let k = kind_bytes(t).len() as int;
    let digits = dec_bytes(payload.len());
    let d = digits.len() as int;
    let hp = k + 1 + d;
    lemma_dec_bytes_digits(payload.len());
    lemma_dec_bytes_len_u64(payload.len());
    lemma_dec_val_dec_bytes(payload.len());
    assert(e.len() == hp + 1 + payload.len());
    assert(e[hp] == 0);
    assert forall|j: int| 0 <= j < hp implies e[j] != 0 by {
        if j < k {
            assert(e[j] == kind_bytes(t)[j]);
        } else if j == k {
            assert(e[j] == 32);
        } else {
            assert(e[j] == digits[j - k - 1]);
            assert(is_dec_digit(digits[j - k - 1]));
        }
    }
    assert(hp < header_bound(e.len()));
    lemma_find_byte_props(e, 0u8, 0, header_bound(e.len()));
    lemma_find_byte_skip(e, 0u8, 0, header_bound(e.len()), hp);
    assert(find_byte_in(e, 0u8, 0, header_bound(e.len())) == hp);
    let header = e.subrange(0, hp);
    assert(header =~= kind_bytes(t) + seq![32u8] + digits);
    assert(header[k] == 32);
    assert forall|j: int| 0 <= j < k implies header[j] != 32 by {
        assert(header[j] == kind_bytes(t)[j]);
    }
    lemma_find_byte_props(header, 32u8, 0, hp);
    lemma_find_byte_skip(header, 32u8, 0, hp, k);
    assert(find_byte_in(header, 32u8, 0, hp) == k);
    let token = header.subrange(0, k);
    assert(token =~= kind_bytes(t));
    assert(kind_of_token(token) == Some(t)) by {
        match t {
            ObjectType::Blob => {},
            ObjectType::Tree => {
                assert(token != kind_bytes(ObjectType::Blob)) by {
                    assert(kind_bytes(ObjectType::Tree)[0] == 116);
                    assert(kind_bytes(ObjectType::Blob)[0] == 98);
                }
            },
            ObjectType::Commit => {
                assert(token != kind_bytes(ObjectType::Blob)) by {
                    assert(kind_bytes(ObjectType::Commit).len() == 6);
                    assert(kind_bytes(ObjectType::Blob).len() == 4);
                }
                assert(token != kind_bytes(ObjectType::Tree)) by {
                    assert(kind_bytes(ObjectType::Commit).len() == 6);
                    assert(kind_bytes(ObjectType::Tree).len() == 4);
                }
            },
        }
    }
    assert(header.subrange(k + 1, hp) =~= digits);
    assert(e.subrange(hp + 1, hp + 1 + payload.len()) =~= payload);
}

} // verus!
