use vstd::prelude::*;

verus! {

/// The failure taxonomy of the library. Every fallible operation reports one
/// of these; nothing is retried or silently recovered.
#[derive(Debug, Clone, Copy, PartialEq, Eq, Structural)]
pub enum MyGitError {
    /// An object or file is absent from the store.
    NotFound,
    /// A malformed object id (not 40 lowercase hex characters).
    InvalidHash,
    /// A stored record with a bad header, length or kind.
    CorruptObject,
    /// A malformed pkt-line or reference advertisement.
    ProtocolError,
    /// A pack stream with a bad signature, version, count or zlib stream.
    CorruptPack,
    /// A delta-encoded pack entry, which this library does not resolve.
    UnsupportedObjectKind,
}

impl MyGitError {
    /// A one-line diagnostic naming the failure kind.
    pub fn message(&self) -> (r: &'static str)
        ensures
            r@ == self.spec_message(),
    {
        match self {
            MyGitError::NotFound => "object not found",
            MyGitError::InvalidHash => "invalid hash",
            MyGitError::CorruptObject => "corrupt object",
            MyGitError::ProtocolError => "protocol error",
            MyGitError::CorruptPack => "corrupt pack",
            MyGitError::UnsupportedObjectKind => "unsupported object kind",
        }
    }

    pub open spec fn spec_message(&self) -> Seq<char> {
        match self {
            MyGitError::NotFound => "object not found"@,
            MyGitError::InvalidHash => "invalid hash"@,
            MyGitError::CorruptObject => "corrupt object"@,
            MyGitError::ProtocolError => "protocol error"@,
            MyGitError::CorruptPack => "corrupt pack"@,
            MyGitError::UnsupportedObjectKind => "unsupported object kind"@,
        }
    }
}

} // verus!
