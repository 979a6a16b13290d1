//! Bale archive format library.
//!
//! A zip-compatible archive format with fixed-stride tables for efficient
//! random access. This crate holds the format's logic: the on-disk record
//! layouts and their byte codecs, path normalization, DOS timestamps, the
//! in-memory archive model (reading, writing, compaction) and integrity
//! checks. Reading and writing files is left to the caller.

pub mod error;
pub mod entry_kind;

pub use error::BaleError;
pub use entry_kind::EntryKind;
pub mod text;
pub mod format;
pub mod le;
pub mod chars;
pub mod archive_path;
pub mod dos_time;
pub mod clock;
pub mod check;
pub mod add;
pub mod compact;
pub mod listing;
pub mod extract;
pub mod delete;
pub mod fuse;
pub mod archive;
