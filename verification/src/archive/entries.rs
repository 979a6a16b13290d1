//! Typed views of archive entries: files, directories and symlinks.

use vstd::prelude::*;
use crate::archive_path::ArchivePath;
use crate::format::entry_row::EntryRow;
use crate::text::str_from_utf8;
use vstd::utf8::{valid_utf8, decode_utf8};
use vstd::std_specs::convert::FromSpecImpl;

verus! {

/// A regular file entry: its row, path, data and entry ID.
#[derive(Debug)]
pub struct FileEntry<'a> {
    /// The entry's row.
    pub entry: &'a EntryRow,
    /// The entry's path.
    pub path: ArchivePath,
    /// The file's data.
    pub data: &'a [u8],
    /// The stable entry ID.
    pub id: u32,
}

/// A directory entry: its row, path and entry ID.
#[derive(Debug)]
pub struct DirEntry<'a> {
    /// The entry's row.
    pub entry: &'a EntryRow,
    /// The entry's path.
    pub path: ArchivePath,
    /// The stable entry ID.
    pub id: u32,
}

/// A symbolic link entry: its row, path, target bytes and entry ID.
#[derive(Debug)]
pub struct SymlinkEntry<'a> {
    /// The entry's row.
    pub entry: &'a EntryRow,
    /// The entry's path.
    pub path: ArchivePath,
    /// The link target, as stored.
    pub target: &'a [u8],
    /// The stable entry ID.
    pub id: u32,
}

/// Any archive entry.
#[derive(Debug)]
pub enum Entry<'a> {
    /// A regular file.
    File(FileEntry<'a>),
    /// A directory.
    Directory(DirEntry<'a>),
    /// A symbolic link.
    Symlink(SymlinkEntry<'a>),
}

impl<'a> FileEntry<'a> {
    /// The file's data.
    pub fn data(&self) -> (r: &'a [u8])
        ensures
            r@ == self.data@,
    {
        self.data
    }

    /// The file size recorded in the row.
    pub fn size(&self) -> (r: u64)
        ensures
            r == self.entry.file_size,
    {
        self.entry.file_size
    }

    /// The entry's path.
    pub fn path(&self) -> (r: &ArchivePath)
        ensures
            r@ == self.path@,
    {
        &self.path
    }

    /// The Unix mode.
    pub fn mode(&self) -> (r: u32)
        ensures
            r == self.entry.mode,
    {
        self.entry.mode
    }

    /// The creation time (Unix epoch milliseconds).
    pub fn created_time(&self) -> (r: i64)
        ensures
            r == self.entry.created_time,
    {
        self.entry.created_time
    }

    /// The modification time (Unix epoch milliseconds).
    pub fn modified_time(&self) -> (r: i64)
        ensures
            r == self.entry.modified_time,
    {
        self.entry.modified_time
    }

    /// The entry's row.
    pub fn entry(&self) -> (r: &'a EntryRow)
        ensures
            *r == *self.entry,
    {
        self.entry
    }

    /// The stable entry ID.
    pub fn id(&self) -> (r: u32)
        ensures
            r == self.id,
    {
        self.id
    }
}

impl<'a> DirEntry<'a> {
    /// The entry's path.
    pub fn path(&self) -> (r: &ArchivePath)
        ensures
            r@ == self.path@,
    {
        &self.path
    }

    /// The Unix mode.
    pub fn mode(&self) -> (r: u32)
        ensures
            r == self.entry.mode,
    {
        self.entry.mode
    }

    /// The creation time (Unix epoch milliseconds).
    pub fn created_time(&self) -> (r: i64)
        ensures
            r == self.entry.created_time,
    {
        self.entry.created_time
    }

    /// The modification time (Unix epoch milliseconds).
    pub fn modified_time(&self) -> (r: i64)
        ensures
            r == self.entry.modified_time,
    {
        self.entry.modified_time
    }

    /// The entry's row.
    pub fn entry(&self) -> (r: &'a EntryRow)
        ensures
            *r == *self.entry,
    {
        self.entry
    }

    /// The stable entry ID.
    pub fn id(&self) -> (r: u32)
        ensures
            r == self.id,
    {
        self.id
    }
}

impl<'a> SymlinkEntry<'a> {
    /// The link target as stored.
    pub fn target_bytes(&self) -> (r: &'a [u8])
        ensures
            r@ == self.target@,
    {
        self.target
    }

    /// The link target as a string; `None` when it is not valid UTF-8.
    pub fn target(&self) -> (r: Option<&'a str>)
        ensures
            r is Some <==> valid_utf8(self.target@),
            r matches Some(s) ==> s@ == decode_utf8(self.target@),
    {
        str_from_utf8(self.target)
    }

    /// The entry's path.
    pub fn path(&self) -> (r: &ArchivePath)
        ensures
            r@ == self.path@,
    {
        &self.path
    }

    /// The Unix mode.
    pub fn mode(&self) -> (r: u32)
        ensures
            r == self.entry.mode,
    {
        self.entry.mode
    }

    /// The creation time (Unix epoch milliseconds).
    pub fn created_time(&self) -> (r: i64)
        ensures
            r == self.entry.created_time,
    {
        self.entry.created_time
    }

    /// The modification time (Unix epoch milliseconds).
    pub fn modified_time(&self) -> (r: i64)
        ensures
            r == self.entry.modified_time,
    {
        self.entry.modified_time
    }

    /// The entry's row.
    pub fn entry(&self) -> (r: &'a EntryRow)
        ensures
            *r == *self.entry,
    {
        self.entry
    }

    /// The stable entry ID.
    pub fn id(&self) -> (r: u32)
        ensures
            r == self.id,
    {
        self.id
    }
}

impl<'a> Entry<'a> {
    /// Whether this is a file.
    pub fn is_file(&self) -> (b: bool)
        ensures
            b == self is File,
    {
        match self {
            Entry::File(_) => true,
            _ => false,
        }
    }

    /// Whether this is a directory.
    pub fn is_directory(&self) -> (b: bool)
        ensures
            b == self is Directory,
    {
        match self {
            Entry::Directory(_) => true,
            _ => false,
        }
    }

    /// Whether this is a symlink.
    pub fn is_symlink(&self) -> (b: bool)
        ensures
            b == self is Symlink,
    {
        match self {
            Entry::Symlink(_) => true,
            _ => false,
        }
    }

    /// The file entry, if this is one.
    pub fn as_file(&self) -> (r: Option<&FileEntry<'a>>)
        ensures
            self is File <==> r is Some,
            r matches Some(f) ==> *f == self->File_0,
    {
        match self {
            Entry::File(f) => Some(f),
            _ => None,
        }
    }

    /// The directory entry, if this is one.
    pub fn as_directory(&self) -> (r: Option<&DirEntry<'a>>)
        ensures
            self is Directory <==> r is Some,
            r matches Some(d) ==> *d == self->Directory_0,
    {
        match self {
            Entry::Directory(d) => Some(d),
            _ => None,
        }
    }

    /// The symlink entry, if this is one.
    pub fn as_symlink(&self) -> (r: Option<&SymlinkEntry<'a>>)
        ensures
            self is Symlink <==> r is Some,
            r matches Some(s) ==> *s == self->Symlink_0,
    {
        match self {
            Entry::Symlink(s) => Some(s),
            _ => None,
        }
    }

    /// Converts into the file entry, if this is one.
    pub fn into_file(self) -> (r: Option<FileEntry<'a>>)
        ensures
            self is File <==> r is Some,
            r matches Some(f) ==> f == self->File_0,
    {
        match self {
            Entry::File(f) => Some(f),
            _ => None,
        }
    }

    /// Converts into the directory entry, if this is one.
    pub fn into_directory(self) -> (r: Option<DirEntry<'a>>)
        ensures
            self is Directory <==> r is Some,
            r matches Some(d) ==> d == self->Directory_0,
    {
        match self {
            Entry::Directory(d) => Some(d),
            _ => None,
        }
    }

    /// Converts into the symlink entry, if this is one.
    pub fn into_symlink(self) -> (r: Option<SymlinkEntry<'a>>)
        ensures
            self is Symlink <==> r is Some,
            r matches Some(s) ==> s == self->Symlink_0,
    {
        match self {
            Entry::Symlink(s) => Some(s),
            _ => None,
        }
    }
}


impl<'a> From<FileEntry<'a>> for Entry<'a> {
    fn from(e: FileEntry<'a>) -> (r: Self) {
        Entry::File(e)
    }
}

impl<'a> FromSpecImpl<FileEntry<'a>> for Entry<'a> {
    open spec fn obeys_from_spec() -> bool {
        true
    }

    open spec fn from_spec(v: FileEntry<'a>) -> Self {
        Entry::File(v)
    }
}

impl<'a> From<DirEntry<'a>> for Entry<'a> {
    fn from(e: DirEntry<'a>) -> (r: Self) {
        Entry::Directory(e)
    }
}

impl<'a> FromSpecImpl<DirEntry<'a>> for Entry<'a> {
    open spec fn obeys_from_spec() -> bool {
        true
    }

    open spec fn from_spec(v: DirEntry<'a>) -> Self {
        Entry::Directory(v)
    }
}

impl<'a> From<SymlinkEntry<'a>> for Entry<'a> {
    fn from(e: SymlinkEntry<'a>) -> (r: Self) {
        Entry::Symlink(e)
    }
}

impl<'a> FromSpecImpl<SymlinkEntry<'a>> for Entry<'a> {
    open spec fn obeys_from_spec() -> bool {
        true
    }

    open spec fn from_spec(v: SymlinkEntry<'a>) -> Self {
        Entry::Symlink(v)
    }
}

} // verus!
