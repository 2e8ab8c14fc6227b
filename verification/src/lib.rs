//! A packed, optionally encrypted, randomly accessible archive of named
//! entries, plus the tooling around it: a writer that builds an archive one
//! entry at a time, a reader that parses the index and serves per-entry
//! retrieval (decrypt and decompress on demand), a best-effort classifier
//! that maps loose filenames to canonical internal archive paths, and the
//! extraction and repackaging pipelines built on top of them.

pub mod checksum;
pub mod cipher;
pub mod classify;
pub mod codec;
pub mod errors;
pub mod extract;
pub mod format;
pub mod keys;
pub mod laws;
pub mod reader;
pub mod repack;
pub mod strutil;
pub mod writer;
