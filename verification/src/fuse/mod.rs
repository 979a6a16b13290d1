//! Pieces of the FUSE filesystem view of an archive that do not depend on
//! the kernel interface: inode numbering and the virtual `.bale/`
//! metadata directory.

pub mod inode;
pub mod table;
pub mod state;
pub mod ops;
pub mod virtual_dir;

pub use inode::{DIR_INO_START, FILE_INO_START, ROOT_INO, VIRTUAL_INO_START};
pub use virtual_dir::VirtualDir;
