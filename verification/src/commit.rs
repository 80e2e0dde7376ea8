//! Commit records.
//!
//! A commit's payload names the tree it snapshots, its parent commit, a
//! fixed author and committer line, and the message. The caller checks
//! that the named objects exist in the store before building the record.

use crate::asciistr::push_str_bytes;
use crate::digits::valid_hex_id;
use crate::error::MyGitError;
use crate::object::ObjectType;
use crate::object::encode_object;
use crate::store::StoreRecord;
use vstd::prelude::*;
use vstd::utf8::encode_utf8;

verus! {

/// The payload of a commit record over a tree id, a parent id and a
/// message.
pub open spec fn commit_payload(tree: Seq<char>, parent: Seq<char>, message: Seq<char>) -> Seq<
    u8,
> {
    encode_utf8("tree "@) + encode_utf8(tree) + seq![10u8] + encode_utf8("parent "@)
        + encode_utf8(parent) + seq![10u8] + encode_utf8(
        "author John Doe <john@doe.com> 1710605448 +0100\n"@,
    ) + encode_utf8("committer John Doe <john@doe.com> 1710605448 +0100\n"@) + seq![10u8]
        + encode_utf8(message) + seq![10u8]
}

/// Builds the commit record for a tree and its parent, and the id it
/// stores under. The ids must be well formed; whether they exist in the
/// store is the caller's check.
pub fn commit_tree(tree_sha: &str, parent_sha: &str, message: &str) -> (r: Result<
    StoreRecord,
    MyGitError,
>)
    ensures
        match r {
            Ok(rec) => valid_hex_id(tree_sha@) && valid_hex_id(parent_sha@) && rec.is_record_of(
                ObjectType::Commit,
                commit_payload(tree_sha@, parent_sha@, message@),
            ),
            Err(e) => e == MyGitError::InvalidHash && !(valid_hex_id(tree_sha@) && valid_hex_id(
                parent_sha@,
            )),
        },
{
    let tb = tree_sha.as_bytes();
    let pb = parent_sha.as_bytes();
    if !(tb.len() == 40 && crate::digits::bytes_all_hex(tb)) {
        return Err(MyGitError::InvalidHash);
    }
    if !(pb.len() == 40 && crate::digits::bytes_all_hex(pb)) {
        return Err(MyGitError::InvalidHash);
    }
    let mut buf: Vec<u8> = Vec::new();
    push_str_bytes(&mut buf, "tree ");
    push_str_bytes(&mut buf, tree_sha);
    buf.push(10);
    push_str_bytes(&mut buf, "parent ");
    push_str_bytes(&mut buf, parent_sha);
    buf.push(10);
    push_str_bytes(&mut buf, "author John Doe <john@doe.com> 1710605448 +0100\n");
    push_str_bytes(&mut buf, "committer John Doe <john@doe.com> 1710605448 +0100\n");
    buf.push(10);
    push_str_bytes(&mut buf, message);
    buf.push(10);
    proof {
        assert(buf@ =~= commit_payload(tree_sha@, parent_sha@, message@));
    }
    let mut data: Vec<u8> = Vec::new();
    let id = encode_object(ObjectType::Commit, buf.as_slice(), &mut data);
    Ok(StoreRecord { id, data })
}

} // verus!
