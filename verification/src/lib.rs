//! An in-memory object store indexed by a prefix tree.
//!
//! The index maps variable-length symbol sequences (string paths) to stored
//! objects. The trie supports insertion, point lookup, prefix enumeration and
//! delete with bottom-up pruning of dead branches; the loader composes the
//! trie into a key/value store of binary objects with content-type metadata,
//! and the transfer module carries the decisions of chunked uploads and
//! downloads against that store.

pub mod in_memory_loader;
mod keys;
pub mod loader_trait;
pub mod saved_file;
pub mod symbol;
pub mod transfer;
pub mod trie;
