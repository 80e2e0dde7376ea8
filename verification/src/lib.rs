//! A content-addressable object store and a minimal smart-protocol client:
//! the object codec, the on-disk store layout, the directory-snapshot tree
//! builder, the pkt-line wire framing, the pack-stream decoder, and the
//! request/advertisement grammar used while cloning.

pub mod asciistr;
pub mod commit;
pub mod digest;
pub mod discovery;
pub mod digits;
pub mod error;
pub mod object;
pub mod pack;
pub mod pkt;
pub mod store;
pub mod tree;
pub mod zlib;

pub use commit::commit_tree;
pub use digest::hash;
pub use discovery::ReferenceDiscovery;
pub use discovery::build_fetch_request;
pub use error::MyGitError;
pub use object::BlobObject;
pub use object::Object;
pub use object::ObjectType;
pub use object::file_to_blob_object;
pub use pack::PackHeader;
pub use pack::PackObjectHeader;
pub use pack::decode_pack;
pub use pack::ingest_pack;
pub use pkt::PktLine;
pub use pkt::pkt_decode;
pub use pkt::pkt_encode;
pub use store::StoreRecord;
pub use store::hash_to_path;
pub use store::sha_to_path;
pub use tree::FileMode;
pub use tree::FsNode;
pub use tree::TreeEntry;
pub use tree::parse_tree_entries;
pub use tree::sort_entries;
pub use tree::tree_contents;
pub use tree::write_tree;
pub use zlib::zlib_decode;
pub use zlib::zlib_encode;
