//! An incremental, deduplicating snapshot archiver.
//!
//! The library splits byte streams into content-defined chunks, names each
//! chunk and each directory listing by its SHA-256 digest, keeps a
//! per-session packer that never stores a blob twice, and walks a preorder
//! stream of directory entries with an explicit stack, comparing every entry
//! against a parent snapshot.
use vstd::prelude::*;

pub mod id;
pub mod order;
pub mod node;
pub mod decode;
pub mod store;
pub mod chunker;
pub mod path;
pub mod parent;
pub mod summary;
pub mod archiver;
pub mod backend;
pub mod command;

verus! {

} // verus!
