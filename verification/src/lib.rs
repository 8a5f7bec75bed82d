//! A verified builder for a versioned index of downloadable spell-check
//! dictionaries.
//!
//! The index is assembled by walking a remote file tree: every top-level
//! directory is treated as one language, and a language directory resolves to
//! an index entry when it holds an affix file, a dictionary file, and a
//! license file. The crate holds the data model, the per-language resolver,
//! the accumulating builder, and a JSON writer and reader for the finished
//! index; fetching the remote listings and writing files to disk belong to
//! the surrounding application.

pub mod builder;
pub mod deserialize;
pub mod index;
pub mod listing;
pub mod resolve;
pub mod roundtrip;
pub mod serialize;
pub mod stamp;
