//! Inode numbering for the FUSE filesystem.

use vstd::prelude::*;

verus! {

/// Root directory inode number (always 1 in FUSE).
pub const ROOT_INO: u64 = 1;

/// First inode number for regular files.
pub const FILE_INO_START: u64 = 0x1_0000_0000;

/// First inode number for directories.
pub const DIR_INO_START: u64 = 0x2_0000_0000;

/// First inode number of the virtual `.bale/` directory and its contents.
pub const VIRTUAL_INO_START: u64 = 0x3_0000_0000;

} // verus!
