//! Entry type classification based on Unix mode bits.

use vstd::prelude::*;

verus! {

/// Unix file type mask (S_IFMT).
pub const S_IFMT: u32 = 0o170000;

/// Regular file (S_IFREG).
pub const S_IFREG: u32 = 0o100000;

/// Directory (S_IFDIR).
pub const S_IFDIR: u32 = 0o040000;

/// Symbolic link (S_IFLNK).
pub const S_IFLNK: u32 = 0o120000;

/// Entry type based on the Unix mode bits of an entry.
#[derive(Debug, Clone, Copy, PartialEq, Eq, Structural, Hash)]
pub enum EntryKind {
    /// Regular file (S_IFREG).
    File,
    /// Directory (S_IFDIR).
    Directory,
    /// Symbolic link (S_IFLNK).
    Symlink,
    /// Unknown or unsupported file type: the raw type bits (masked with S_IFMT).
    Other(u32),
}

/// The kind that a mode denotes: the type bits select file, directory or
/// symlink; no type bits at all count as a regular file.
pub open spec fn spec_kind_of_mode(mode: u32) -> EntryKind {
    let t = mode & S_IFMT;
    if t == S_IFREG || t == 0 {
        EntryKind::File
    } else if t == S_IFDIR {
        EntryKind::Directory
    } else if t == S_IFLNK {
        EntryKind::Symlink
    } else {
        EntryKind::Other(t)
    }
}

impl EntryKind {
    /// Determines the entry kind from Unix mode bits.
    pub fn from_mode(mode: u32) -> (kind: Self)
        ensures
            kind == spec_kind_of_mode(mode),
    {
        let t = mode & S_IFMT;
        if t == S_IFREG {
            EntryKind::File
        } else if t == S_IFDIR {
            EntryKind::Directory
        } else if t == S_IFLNK {
            EntryKind::Symlink
        } else if t == 0 {
            EntryKind::File
        } else {
            EntryKind::Other(t)
        }
    }

    /// Returns true if this is a regular file.
    pub fn is_file(&self) -> (b: bool)
        ensures
            b <==> *self == EntryKind::File,
    {
        matches!(self, EntryKind::File)
    }

    /// Returns true if this is a directory.
    pub fn is_directory(&self) -> (b: bool)
        ensures
            b <==> *self == EntryKind::Directory,
    {
        matches!(self, EntryKind::Directory)
    }

    /// Returns true if this is a symbolic link.
    pub fn is_symlink(&self) -> (b: bool)
        ensures
            b <==> *self == EntryKind::Symlink,
    {
        matches!(self, EntryKind::Symlink)
    }

    /// Human-readable name: `file`, `directory`, `symlink`, or
    /// `unknown(0o…)` with the type bits in octal.
    pub fn to_string(&self) -> (s: String)
        ensures
            s@ == spec_kind_text(*self),
    {
        match self {
            EntryKind::File => String::from_str("file"),
            EntryKind::Directory => String::from_str("directory"),
            EntryKind::Symlink => String::from_str("symlink"),
            EntryKind::Other(bits) => {
                let mut s = String::from_str("unknown(0o");
                let digits = crate::text::octal_string(*bits);
                s.append(digits.as_str());
                s.append(")");
                s
            },
        }
    }
}

/// The text shown for a kind.
pub open spec fn spec_kind_text(k: EntryKind) -> Seq<char> {
    match k {
        EntryKind::File => "file"@,
        EntryKind::Directory => "directory"@,
        EntryKind::Symlink => "symlink"@,
        EntryKind::Other(bits) => "unknown(0o"@ + crate::text::spec_octal(bits as nat) + ")"@,
    }
}

} // verus!
