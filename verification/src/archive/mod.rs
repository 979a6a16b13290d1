//! The archive model and its operations.

pub mod model;
pub mod entries;
pub mod options;
pub mod order;
pub mod resolve;
pub mod tables;

pub use model::{Archive, DirRecord};
pub use options::{AddEntryOptions, OpenOptions};
pub use entries::{DirEntry, Entry, FileEntry, SymlinkEntry};
