//! A content-addressable object store and repository metadata layer.
//!
//! The crate covers the object model (blob, tree, commit, tag), the
//! loose-object storage codec (hashing, compression, framing), the binary
//! tree-entry codec, the key-value-list-with-message codec shared by commits
//! and tags, reference resolution, tree materialization and the
//! commit-ancestry walker.

pub mod blob;
pub mod commit;
pub mod error;
pub mod index;
pub mod kvlm;
pub mod object;
pub mod refs;
pub mod repository;
pub mod tag;
pub mod tree;
pub mod util;
