//! The decisions behind each filesystem request: what a lookup, getattr,
//! setattr, read, write, readlink or readdir answers, and the guards that
//! the creating and removing requests apply before the state changes.

use vstd::prelude::*;
use crate::entry_kind::{EntryKind, spec_kind_of_mode};
use crate::fuse::inode::ROOT_INO;
use crate::fuse::state::{
    FsState, FileAttr, FileKind, Errno, FuseDirEntry, DEFAULT_FILE_PERM, PERM_MASK, plain_attr,
    blocks_of, dir_path_of, depth_of, name_error, hard_link_post, rename_post, create_dir_post, create_file_post,
    create_symlink_post, owned_outcome, not_before_epoch,
};
use crate::fuse::virtual_dir::{
    VirtualDir, symlink_target_text, virtual_file_name, virtual_file_text, VIRTUAL_FILE_COUNT,
};
use crate::archive::model::{now_millis, read_block, resized};
use vstd::utf8::encode_utf8;
use vstd::string::StringSliceAdditionalSpecFns;

verus! {

/// The largest file the filesystem lets a write or truncate produce (4 GiB).
pub const MAX_FILE_SIZE: u64 = 0x1_0000_0000;

/// A time to set: the current time, or a given one (epoch milliseconds).
#[derive(Debug, Clone, Copy)]
pub enum TimeOrNow {
    /// A given time.
    SpecificTime(i64),
    /// The current time.
    Now,
}

/// Attributes of the virtual `.bale/` directory.
pub open spec fn virtual_dir_attr_of(s: &FsState) -> FileAttr {
    FileAttr { perm: 0o555, nlink: 2, ..plain_attr(s.virtual_dir.spec_dir_ino(), FileKind::Directory, 0o555, s.mount_time, s.uid, s.gid) }
}

/// Attributes of a virtual metadata file of `size` bytes.
pub open spec fn virtual_file_attr_of(s: &FsState, ino: u64, size: u64) -> FileAttr {
    FileAttr {
        size,
        blocks: blocks_of(size),
        ..plain_attr(ino, FileKind::RegularFile, 0o444, s.mount_time, s.uid, s.gid)
    }
}

/// Attributes of a virtual `.bale` symlink whose target has `len` bytes.
pub open spec fn virtual_symlink_attr_of(s: &FsState, ino: u64, len: u64) -> FileAttr {
    FileAttr { size: len, ..plain_attr(ino, FileKind::Symlink, 0o777, s.mount_time, s.uid, s.gid) }
}

/// The node kind of an archive entry kind (anything but a symlink is shown
/// as a regular file).
pub open spec fn file_kind_of(k: EntryKind) -> FileKind {
    if k == EntryKind::Symlink {
        FileKind::Symlink
    } else {
        FileKind::RegularFile
    }
}

/// The attributes of file inode `ino` at `path`, with its pending size
/// applied, when the archive has an entry for the path.
pub open spec fn pending_file_attr(s: FsState, ino: u64, kind: FileKind, path: Seq<char>) -> Option<
    FileAttr,
> {
    match s.archive.spec_lookup(encode_utf8(path)) {
        None => None,
        Some(t) => {
            let base = s.spec_file_attr(ino, kind, t.0, path);
            if s.modified_data.spec_map().contains_key(path) {
                let n = s.modified_data.spec_map()[path]@.len() as u64;
                Some(FileAttr { size: n, blocks: blocks_of(n), ..base })
            } else {
                Some(base)
            }
        },
    }
}

/// The attributes `setattr` reports for file or symlink inode `ino` at
/// `path`: the pending size (else the entry's, else 0), the file's
/// permission bits, time and owner, and the entry's creation time (else
/// the modification time).
pub open spec fn setattr_file_attr(s: FsState, ino: u64, path: Seq<char>) -> FileAttr {
    let row = s.archive.spec_lookup(encode_utf8(path));
    let size: u64 = if s.modified_data.spec_map().contains_key(path) {
        s.modified_data.spec_map()[path]@.len() as u64
    } else {
        match row {
            Some(t) => t.0.file_size,
            None => 0,
        }
    };
    let mtime = s.spec_file_mtime(path);
    let ctime = match row {
        Some(t) => not_before_epoch(t.0.created_time),
        None => mtime,
    };
    let perm = s.spec_file_mode(path);
    FileAttr {
        ino,
        size,
        blocks: blocks_of(size),
        atime: mtime,
        mtime,
        ctime,
        crtime: ctime,
        kind: match row {
            Some(t) => if spec_kind_of_mode(t.0.mode) == EntryKind::Symlink {
                FileKind::Symlink
            } else {
                FileKind::RegularFile
            },
            None => FileKind::RegularFile,
        },
        perm: if perm == 0 {
            DEFAULT_FILE_PERM as u16
        } else {
            perm as u16
        },
        nlink: if s.nlink_counts.spec_map().contains_key(ino) {
            s.nlink_counts.spec_map()[ino]
        } else {
            1
        },
        uid: s.spec_uid(path),
        gid: s.spec_gid(path),
        rdev: 0,
        blksize: 4096,
        flags: 0,
    }
}

/// The attributes a lookup reports for listing entry `e`: a directory's
/// own; for a file or symlink with a path the archive has, its file
/// attributes with the pending size; otherwise the plain ones.
pub open spec fn entry_attr(s: FsState, e: FuseDirEntry) -> FileAttr {
    if e.kind == FileKind::Directory {
        s.spec_attr(e.ino, e.kind)
    } else {
        match s.inode_to_path.spec_map().get(e.ino) {
            Some(p) => match pending_file_attr(s, e.ino, e.kind, p@) {
                Some(a) => a,
                None => s.spec_attr(e.ino, e.kind),
            },
            None => s.spec_attr(e.ino, e.kind),
        }
    }
}

impl FsState {
    fn virtual_dir_attr(&self) -> (a: FileAttr)
        ensures
            a == virtual_dir_attr_of(self),
    {
        FileAttr {
            ino: self.virtual_dir.dir_ino(),
            size: 0,
            blocks: 0,
            atime: self.mount_time,
            mtime: self.mount_time,
            ctime: self.mount_time,
            crtime: self.mount_time,
            kind: FileKind::Directory,
            perm: 0o555,
            nlink: 2,
            uid: self.uid,
            gid: self.gid,
            rdev: 0,
            blksize: 4096,
            flags: 0,
        }
    }

    fn virtual_file_attr(&self, ino: u64, size: u64) -> (a: FileAttr)
        ensures
            a == virtual_file_attr_of(self, ino, size),
    {
        FileAttr {
            ino,
            size,
            blocks: size / 512 + if size % 512 != 0 {
                1
            } else {
                0
            },
            atime: self.mount_time,
            mtime: self.mount_time,
            ctime: self.mount_time,
            crtime: self.mount_time,
            kind: FileKind::RegularFile,
            perm: 0o444,
            nlink: 1,
            uid: self.uid,
            gid: self.gid,
            rdev: 0,
            blksize: 4096,
            flags: 0,
        }
    }

    fn virtual_symlink_attr(&self, ino: u64, len: u64) -> (a: FileAttr)
        ensures
            a == virtual_symlink_attr_of(self, ino, len),
    {
        FileAttr {
            ino,
            size: len,
            blocks: 0,
            atime: self.mount_time,
            mtime: self.mount_time,
            ctime: self.mount_time,
            crtime: self.mount_time,
            kind: FileKind::Symlink,
            perm: 0o777,
            nlink: 1,
            uid: self.uid,
            gid: self.gid,
            rdev: 0,
            blksize: 4096,
            flags: 0,
        }
    }

    /// Attributes of file inode `ino` at `path` with its pending size
    /// applied, when the archive has an entry for the path.
    fn file_attr_with_pending(&self, ino: u64, kind: FileKind, path: &str) -> (r: Option<FileAttr>)
        requires
            self.wf(),
        ensures
            r == pending_file_attr(*self, ino, kind, path@),
    {
        match self.archive.find_entry_with_path(path) {
            Some((row, _, _)) => {
                let mut attr = self.get_attr_for_file(ino, kind, row, path);
                match self.modified_data.get(path) {
                    Some(d) => {
                        let n = d.len() as u64;
                        attr.size = n;
                        attr.blocks = n / 512 + if n % 512 != 0 {
                            1
                        } else {
                            0
                        };
                    },
                    None => {},
                }
                Some(attr)
            },
            None => None,
        }
    }

    /// Looks `name` up in directory `parent`: `.bale` in the root is the
    /// virtual directory and elsewhere a symlink to it; inside the virtual
    /// directory, its metadata files; otherwise the first entry of that
    /// name in the parent's listing.
    pub fn lookup(&mut self, parent: u64, name: &str) -> (r: Result<FileAttr, Errno>)
        requires
            old(self).wf(),
        ensures
            final(self).wf(),
            final(self).dirs() == old(self).dirs(),
            final(self).files() == old(self).files(),
            final(self).contents() == old(self).contents(),
            final(self).archive == old(self).archive,
            name@ == ".bale"@ && old(self).contents().contains_key(parent) && parent == ROOT_INO
                ==> r == Ok::<FileAttr, Errno>(virtual_dir_attr_of(old(self))),
            name@ == ".bale"@ && old(self).contents().contains_key(parent) && parent != ROOT_INO
                ==> {
                let vd = old(self).virtual_dir;
                let len = encode_utf8(symlink_target_text(depth_of(old(self).dirs(), parent))).len();
                if vd.spec_next() == u64::MAX {
                    r == Err::<FileAttr, Errno>(Errno::Io) && *final(self) == *old(self)
                } else {
                    let ino = if vd.spec_symlinks().contains_key(parent) {
                        vd.spec_symlinks()[parent]
                    } else {
                        vd.spec_next()
                    };
                    &&& r == Ok::<FileAttr, Errno>(virtual_symlink_attr_of(old(self), ino, len as u64))
                    &&& *final(self) == (FsState { virtual_dir: final(self).virtual_dir, ..*old(self) })
                    &&& final(self).virtual_dir.spec_dir_ino() == vd.spec_dir_ino()
                    &&& final(self).virtual_dir.spec_symlinks() == vd.spec_symlinks().insert(parent, ino)
                }
            },
            !(name@ == ".bale"@ && old(self).contents().contains_key(parent)) && parent
                == old(self).virtual_dir.spec_dir_ino() ==> *final(self) == *old(self) && (r is Ok
                <==> exists|i: int| 0 <= i < VIRTUAL_FILE_COUNT && virtual_file_name(i) == name@) && (
            r is Err ==> r == Err::<FileAttr, Errno>(Errno::NotFound)) && (r matches Ok(a) ==> exists|
                i: int|
                0 <= i < VIRTUAL_FILE_COUNT && virtual_file_name(i) == name@ && a == virtual_file_attr_of(
                    old(self),
                    old(self).virtual_dir.file_ino(i) as u64,
                    encode_utf8(virtual_file_text(i, old(self).archive.spec_trailer())).len() as u64,
                )),
            !(name@ == ".bale"@ && old(self).contents().contains_key(parent)) && parent
                != old(self).virtual_dir.spec_dir_ino() ==> *final(self) == *old(self) && match name_error(
                name@,
            ) {
                Some(e) => r == Err::<FileAttr, Errno>(e),
                None => if !old(self).contents().contains_key(parent) {
                    r == Err::<FileAttr, Errno>(Errno::NotFound)
                } else {
                    let c = old(self).contents()[parent]@;
                    &&& (forall|i: int| 0 <= i < c.len() ==> #[trigger] c[i].name@ != name@) ==> r
                        == Err::<FileAttr, Errno>(Errno::NotFound)
                    &&& forall|i: int|
                        0 <= i < c.len() && #[trigger] c[i].name@ == name@ && (forall|j: int|
                            0 <= j < i ==> c[j].name@ != name@) ==> r == Ok::<FileAttr, Errno>(
                            entry_attr(*old(self), c[i]),
                        )
                },
            },
    {
        proof {
            reveal_strlit(".bale");
        }
        let is_bale = name.to_owned() == ".bale".to_owned();
        if is_bale && self.dir_contents.contains(parent) {
            if parent == ROOT_INO {
                return Ok(self.virtual_dir_attr());
            }
            let depth = self.dir_depth(parent);
            let target = VirtualDir::symlink_target(depth);
            if !self.virtual_dir.has_free_inode() {
                return Err(Errno::Io);
            }
            let sym_ino = self.virtual_dir.symlink_ino_for(parent, depth);
            let len = target.as_str().as_bytes().len() as u64;
            return Ok(self.virtual_symlink_attr(sym_ino, len));
        }
        if parent == self.virtual_dir.dir_ino() {
            return match self.virtual_dir.lookup(name) {
                Some((ino, _)) => {
                    let size = match self.virtual_dir.file_content(ino, &self.archive) {
                        Some(c) => c.as_str().as_bytes().len() as u64,
                        None => 0,
                    };
                    Ok(self.virtual_file_attr(ino, size))
                },
                None => Err(Errno::NotFound),
            };
        }
        match crate::fuse::state::validate_name(name) {
            Err(e) => {
                return Err(e);
            },
            Ok(()) => {},
        }
        let contents = match self.dir_contents.get(parent) {
            Some(c) => c,
            None => {
                return Err(Errno::NotFound);
            },
        };
        let key = name.to_owned();
        let mut i: usize = 0;
        while i < contents.len()
            invariant
                self.wf(),
                *self == *old(self),
                self.contents().contains_key(parent),
                !(name@ == ".bale"@ && self.contents().contains_key(parent)),
                parent != self.virtual_dir.spec_dir_ino(),
                name_error(name@) is None,
                contents@ == self.contents()[parent]@,
                key@ == name@,
                i <= contents@.len(),
                forall|j: int| 0 <= j < i ==> #[trigger] contents@[j].name@ != name@,
            decreases contents@.len() - i,
        {
            if contents[i].name == key {
                let ino = contents[i].ino;
                let kind = contents[i].kind;
                if kind == FileKind::Directory {
                    return Ok(self.get_attr(ino, kind));
                }
                let attr = match self.inode_to_path.get(ino) {
                    Some(path) => self.file_attr_with_pending(ino, kind, path.as_str()),
                    None => None,
                };
                return match attr {
                    Some(a) => Ok(a),
                    None => Ok(self.get_attr(ino, kind)),
                };
            }
            i = i + 1;
        }
        Err(Errno::NotFound)
    }

    /// The attributes of inode `ino`: the virtual nodes, the root and other
    /// directories, then files and symlinks (with pending size and mode).
    pub fn getattr(&self, ino: u64) -> (r: Result<FileAttr, Errno>)
        requires
            self.wf(),
        ensures
            ino == self.virtual_dir.spec_dir_ino() ==> r == Ok::<FileAttr, Errno>(virtual_dir_attr_of(self)),
            ino != self.virtual_dir.spec_dir_ino() && self.virtual_dir.spec_depths().contains_key(ino) ==> r
                == Ok::<FileAttr, Errno>(
                virtual_symlink_attr_of(
                    self,
                    ino,
                    encode_utf8(symlink_target_text(self.virtual_dir.spec_depths()[ino] as nat)).len() as u64,
                ),
            ),
            self.virtual_dir.file_ino(0) <= ino < self.virtual_dir.file_ino(VIRTUAL_FILE_COUNT as int) ==> r
                == Ok::<FileAttr, Errno>(
                virtual_file_attr_of(
                    self,
                    ino,
                    encode_utf8(virtual_file_text(ino - self.virtual_dir.file_ino(0), self.archive.spec_trailer())).len() as u64,
                ),
            ),
            !self.virtual_dir.spec_is_virtual(ino) && (ino == ROOT_INO || self.contents().contains_key(
                ino,
            )) ==> r == Ok::<FileAttr, Errno>(self.spec_attr(ino, FileKind::Directory)),
            !self.virtual_dir.spec_is_virtual(ino) && ino != ROOT_INO && !self.contents().contains_key(
                ino,
            ) && !self.inode_to_path.spec_map().contains_key(ino) ==> r == Err::<FileAttr, Errno>(
                Errno::NotFound,
            ),
            !self.virtual_dir.spec_is_virtual(ino) && ino != ROOT_INO && !self.contents().contains_key(
                ino,
            ) && self.inode_to_path.spec_map().contains_key(ino) ==> {
                let path = self.inode_to_path.spec_map()[ino]@;
                match self.archive.spec_lookup(encode_utf8(path)) {
                    None => r == Err::<FileAttr, Errno>(Errno::NotFound),
                    Some(t) => r matches Ok(a) && {
                        let base = self.spec_file_attr(
                            ino,
                            file_kind_of(spec_kind_of_mode(t.0.mode)),
                            t.0,
                            path,
                        );
                        let sized = if self.modified_data.spec_map().contains_key(path) {
                            let n = self.modified_data.spec_map()[path]@.len() as u64;
                            FileAttr { size: n, blocks: blocks_of(n), ..base }
                        } else {
                            base
                        };
                        if self.modified_modes.spec_map().contains_key(path) {
                            a == FileAttr {
                                perm: self.modified_modes.spec_map()[path] as u16,
                                ..sized
                            }
                        } else {
                            a == sized
                        }
                    },
                }
            },
    {
        if self.virtual_dir.is_virtual(ino) {
            if ino == self.virtual_dir.dir_ino() {
                return Ok(self.virtual_dir_attr());
            }
            match self.virtual_dir.symlink_depth(ino) {
                Some(depth) => {
                    let target = VirtualDir::symlink_target(depth);
                    let len = target.as_str().as_bytes().len() as u64;
                    return Ok(self.virtual_symlink_attr(ino, len));
                },
                None => {},
            }
            let size = match self.virtual_dir.file_content(ino, &self.archive) {
                Some(c) => c.as_str().as_bytes().len() as u64,
                None => 0,
            };
            return Ok(self.virtual_file_attr(ino, size));
        }
        if ino == ROOT_INO {
            return Ok(self.get_attr(ROOT_INO, FileKind::Directory));
        }
        if self.dir_contents.contains(ino) {
            return Ok(self.get_attr(ino, FileKind::Directory));
        }
        match self.inode_to_path.get(ino) {
            Some(path) => {
                match self.archive.find_entry_with_path(path.as_str()) {
                    Some((row, _, _)) => {
                        let kind = if row.kind() == EntryKind::Symlink {
                            FileKind::Symlink
                        } else {
                            FileKind::RegularFile
                        };
                        let mut attr = self.get_attr_for_file(ino, kind, row, path.as_str());
                        match self.modified_data.get(path.as_str()) {
                            Some(d) => {
                                let n = d.len() as u64;
                                attr.size = n;
                                attr.blocks = n / 512 + if n % 512 != 0 {
                                    1
                                } else {
                                    0
                                };
                            },
                            None => {},
                        }
                        match self.modified_modes.get(path.as_str()) {
                            Some(m) => {
                                attr.perm = *m as u16;
                            },
                            None => {},
                        }
                        Ok(attr)
                    },
                    None => Err(Errno::NotFound),
                }
            },
            None => Err(Errno::NotFound),
        }
    }
}


/// Bytes `start..` of `data`, at most `size` of them (empty past the end).
pub open spec fn window(data: Seq<u8>, start: int, size: int) -> Seq<u8> {
    if start < data.len() {
        let end = if start + size < data.len() {
            start + size
        } else {
            data.len() as int
        };
        data.subrange(start, end)
    } else {
        Seq::empty()
    }
}

/// Bytes `start..` of `data`, at most `size` of them.
fn window_of(data: &[u8], start: usize, size: usize) -> (r: Vec<u8>)
    ensures
        r@ == window(data@, start as int, size as int),
{
    let mut out: Vec<u8> = Vec::new();
    if start < data.len() {
        let end = if size < data.len() - start {
            start + size
        } else {
            data.len()
        };
        crate::text::extend_bytes(&mut out, &data[start..end]);
    }
    proof {
        assert(out@ =~= window(data@, start as int, size as int));
    }
    out
}

/// `buf` with `data` written at `start` (zero-filled up to it when the
/// buffer is shorter).
pub open spec fn written(buf: Seq<u8>, start: int, data: Seq<u8>) -> Seq<u8> {
    let grown = if buf.len() < start + data.len() {
        buf + Seq::new((start + data.len() - buf.len()) as nat, |i: int| 0u8)
    } else {
        buf
    };
    grown.take(start) + data + grown.skip(start + data.len())
}

/// The bytes the file at `p` holds now: its pending contents, else its
/// archive data when the archive has it as a file whose block is in
/// bounds.
pub open spec fn node_bytes(s: FsState, p: Seq<char>) -> Option<Seq<u8>> {
    if s.modified_data.spec_map().contains_key(p) {
        Some(s.modified_data.spec_map()[p]@)
    } else {
        match s.archive.spec_lookup(encode_utf8(p)) {
            Some(t) => if spec_kind_of_mode(t.0.mode) == EntryKind::File && read_block(
                s.archive.spec_bytes(),
                t.0,
            ) is Some {
                Some(read_block(s.archive.spec_bytes(), t.0)->0)
            } else {
                None
            },
            None => None,
        }
    }
}

/// What reading `size` bytes at `offset` from the (non-virtual) inode
/// `ino` gives: `NotFound` for an inode with no path, `Io` when the file's
/// bytes cannot be had.
pub open spec fn read_outcome(s: FsState, ino: u64, offset: u64, size: u32) -> Result<Seq<u8>, Errno> {
    match s.inode_to_path.spec_map().get(ino) {
        None => Err(Errno::NotFound),
        Some(p) => match node_bytes(s, p@) {
            Some(b) => Ok(window(b, offset as int, size as int)),
            None => Err(Errno::Io),
        },
    }
}

/// A read result by its bytes.
pub open spec fn bytes_of(r: Result<Vec<u8>, Errno>) -> Result<Seq<u8>, Errno> {
    match r {
        Ok(v) => Ok(v@),
        Err(e) => Err(e),
    }
}

/// `s1` is `s0` with the pending contents of `p` set to `b`, nothing
/// else changed.
pub open spec fn pending_set(s0: FsState, s1: FsState, p: Seq<char>, b: Seq<u8>) -> bool {
    &&& s1 == (FsState { modified_data: s1.modified_data, ..s0 })
    &&& s1.modified_data.spec_map().dom() == s0.modified_data.spec_map().dom().insert(p)
    &&& s1.modified_data.spec_map()[p]@ == b
    &&& forall|k: Seq<char>|
        k != p ==> #[trigger] s1.modified_data.spec_map().get(k) == s0.modified_data.spec_map().get(k)
}

/// `s1` is `s0` after writing `data` at `offset` into inode `ino`: the
/// node's bytes with `data` written over them become its pending contents.
pub open spec fn wrote(s0: FsState, s1: FsState, ino: u64, offset: u64, data: Seq<u8>) -> bool {
    let p = s0.inode_to_path.spec_map()[ino]@;
    &&& s0.inode_to_path.spec_map().contains_key(ino)
    &&& !s0.virtual_dir.spec_is_virtual(ino)
    &&& node_bytes(s0, p) is Some
    &&& pending_set(s0, s1, p, written(node_bytes(s0, p)->0, offset as int, data))
}

/// Reading back a write: once `write(ino, offset, data)` has succeeded, a
/// read of as many bytes at the same offset returns `data`.
pub proof fn lemma_read_back_write(s0: FsState, s1: FsState, ino: u64, offset: u64, data: Seq<u8>)
    requires
        wrote(s0, s1, ino, offset, data),
        data.len() <= u32::MAX,
    ensures
        read_outcome(s1, ino, offset, data.len() as u32) == Ok::<Seq<u8>, Errno>(data),
{
    let p = s0.inode_to_path.spec_map()[ino]@;
    let b = node_bytes(s0, p)->0;
    let w = written(b, offset as int, data);
    assert(s1.inode_to_path == s0.inode_to_path);
    assert(node_bytes(s1, p) == Some(w));
    assert(window(w, offset as int, data.len() as int) =~= data);
}

impl FsState {
    /// Reads up to `size` bytes at `offset` from inode `ino`: a virtual
    /// metadata file, pending contents, or the archive's data.
    pub fn read(&self, ino: u64, offset: u64, size: u32) -> (r: Result<Vec<u8>, Errno>)
        requires
            self.wf(),
        ensures
            !self.virtual_dir.spec_is_virtual(ino) ==> bytes_of(r) == read_outcome(*self, ino, offset, size),
            self.virtual_dir.file_ino(0) <= ino < self.virtual_dir.file_ino(VIRTUAL_FILE_COUNT as int) ==> (r
                matches Ok(v) && v@ == window(
                encode_utf8(virtual_file_text(ino - self.virtual_dir.file_ino(0), self.archive.spec_trailer())),
                offset as int,
                size as int,
            )),
            self.virtual_dir.spec_is_virtual(ino) && !(self.virtual_dir.file_ino(0) <= ino
                < self.virtual_dir.file_ino(VIRTUAL_FILE_COUNT as int)) ==> r == Err::<Vec<u8>, Errno>(
                Errno::NotFound,
            ),
    {
        let start = if offset > usize::MAX as u64 {
            usize::MAX
        } else {
            offset as usize
        };
        let want = size as usize;
        if self.virtual_dir.is_virtual(ino) {
            return match self.virtual_dir.file_content(ino, &self.archive) {
                Some(content) => {
                    let d = content.as_str().as_bytes();
                    let len = d.len();
                    proof {
                        if offset > usize::MAX {
                            assert(offset > len);
                            assert(window(d@, offset as int, size as int) =~= Seq::<u8>::empty());
                            assert(window(d@, start as int, want as int) =~= Seq::<u8>::empty());
                        }
                    }
                    Ok(window_of(d, start, want))
                },
                None => Err(Errno::NotFound),
            };
        }
        let path = match self.inode_to_path.get(ino) {
            Some(p) => p,
            None => {
                return Err(Errno::NotFound);
            },
        };
        match self.modified_data.get(path.as_str()) {
            Some(data) => {
                let d = data.as_slice();
                let len = d.len();
                proof {
                    if offset > usize::MAX {
                        assert(offset > len);
                        assert(window(d@, offset as int, size as int) =~= Seq::<u8>::empty());
                        assert(window(d@, start as int, want as int) =~= Seq::<u8>::empty());
                    }
                }
                return Ok(window_of(d, start, want));
            },
            None => {},
        }
        match self.archive.file(path.as_str()) {
            Ok(f) => {
                let len = f.data.len();
                proof {
                    if offset > usize::MAX {
                        assert(offset > len);
                        assert(window(f.data@, offset as int, size as int) =~= Seq::<u8>::empty());
                        assert(window(f.data@, start as int, want as int) =~= Seq::<u8>::empty());
                    }
                }
                Ok(window_of(f.data, start, want))
            },
            Err(_) => Err(Errno::Io),
        }
    }

    /// The target of symlink inode `ino`: a virtual `.bale` symlink's, or
    /// the archive's.
    pub fn readlink(&self, ino: u64) -> (r: Result<Vec<u8>, Errno>)
        requires
            self.wf(),
        ensures
            self.virtual_dir.spec_depths().contains_key(ino) ==> (r matches Ok(v) && v@ == encode_utf8(
                symlink_target_text(self.virtual_dir.spec_depths()[ino] as nat),
            )),
            !self.virtual_dir.spec_depths().contains_key(ino) ==> match self.inode_to_path.spec_map().get(
                ino,
            ) {
                None => r == Err::<Vec<u8>, Errno>(Errno::NotFound),
                Some(p) => match self.archive.spec_lookup(encode_utf8(p@)) {
                    Some(t) => if spec_kind_of_mode(t.0.mode) == EntryKind::Symlink && read_block(
                        self.archive.spec_bytes(),
                        t.0,
                    ) is Some {
                        r matches Ok(v) && v@ == read_block(self.archive.spec_bytes(), t.0)->0
                    } else {
                        r == Err::<Vec<u8>, Errno>(Errno::Io)
                    },
                    None => r == Err::<Vec<u8>, Errno>(Errno::Io),
                },
            },
    {
        match self.virtual_dir.symlink_depth(ino) {
            Some(depth) => {
                let target = VirtualDir::symlink_target(depth);
                let mut v: Vec<u8> = Vec::new();
                crate::text::extend_bytes(&mut v, target.as_str().as_bytes());
                return Ok(v);
            },
            None => {},
        }
        let path = match self.inode_to_path.get(ino) {
            Some(p) => p,
            None => {
                return Err(Errno::NotFound);
            },
        };
        match self.archive.symlink(path.as_str()) {
            Ok(link) => {
                let mut v: Vec<u8> = Vec::new();
                crate::text::extend_bytes(&mut v, link.target);
                Ok(v)
            },
            Err(_) => Err(Errno::Io),
        }
    }

    /// The listing of directory `ino`: `.` and `..` first, then its
    /// entries (the virtual directory lists its metadata files). The `.bale`
    /// entries are not listed.
    pub fn readdir(&self, ino: u64) -> (r: Result<Vec<(u64, FileKind, String)>, Errno>)
        requires
            self.wf(),
        ensures
            ino != self.virtual_dir.spec_dir_ino() && !self.contents().contains_key(ino) ==> r
                == Err::<Vec<(u64, FileKind, String)>, Errno>(Errno::NotFound),
            ino != self.virtual_dir.spec_dir_ino() && self.contents().contains_key(ino) ==> (r matches Ok(
                v,
            ) && {
                let c = self.contents()[ino]@;
                &&& v@.len() == c.len() + 2
                &&& v@[0].0 == ino && v@[0].1 == FileKind::Directory && v@[0].2@ == "."@
                &&& v@[1].0 == crate::fuse::state::parent_ino_of(self.dirs(), ino) && v@[1].1
                    == FileKind::Directory && v@[1].2@ == ".."@
                &&& forall|j: int|
                    0 <= j < c.len() ==> v@[j + 2].0 == (#[trigger] c[j]).ino && v@[j + 2].1 == c[j].kind
                        && v@[j + 2].2@ == c[j].name@
            }),
    {
        let mut out: Vec<(u64, FileKind, String)> = Vec::new();
        if ino == self.virtual_dir.dir_ino() {
            out.push((ino, FileKind::Directory, ".".to_owned()));
            out.push((ROOT_INO, FileKind::Directory, "..".to_owned()));
            let files = self.virtual_dir.readdir();
            let mut i: usize = 0;
            while i < files.len()
                invariant
                    i <= files@.len(),
                decreases files@.len() - i,
            {
                let (vino, kind, name) = files[i];
                let k = if kind == EntryKind::Directory {
                    FileKind::Directory
                } else if kind == EntryKind::Symlink {
                    FileKind::Symlink
                } else {
                    FileKind::RegularFile
                };
                out.push((vino, k, name.to_owned()));
                i = i + 1;
            }
            return Ok(out);
        }
        let contents = match self.dir_contents.get(ino) {
            Some(c) => c,
            None => {
                return Err(Errno::NotFound);
            },
        };
        let parent = self.get_parent_inode(ino);
        out.push((ino, FileKind::Directory, ".".to_owned()));
        out.push((parent, FileKind::Directory, "..".to_owned()));
        let mut i: usize = 0;
        while i < contents.len()
            invariant
                i <= contents@.len(),
                out@.len() == i + 2,
                out@[0].0 == ino && out@[0].1 == FileKind::Directory && out@[0].2@ == "."@,
                out@[1].0 == parent && out@[1].1 == FileKind::Directory && out@[1].2@ == ".."@,
                forall|j: int|
                    0 <= j < i ==> out@[j + 2].0 == (#[trigger] contents@[j]).ino && out@[j + 2].1
                        == contents@[j].kind && out@[j + 2].2@ == contents@[j].name@,
            decreases contents@.len() - i,
        {
            let name = contents[i].name.as_str().to_owned();
            let ghost before = out@;
            out.push((contents[i].ino, contents[i].kind, name));
            proof {
                assert forall|j: int| 0 <= j < i + 1 implies out@[j + 2].0 == (
                #[trigger] contents@[j]).ino && out@[j + 2].1 == contents@[j].kind && out@[j + 2].2@
                    == contents@[j].name@ by {
                    if j < i {
                        assert(out@[j + 2] == before[j + 2]);
                    }
                }
            }
            i = i + 1;
        }
        Ok(out)
    }

    /// Writes `data` at `offset` into file inode `ino`'s pending contents
    /// (loaded from the archive first); returns the number of bytes
    /// written. Virtual nodes are refused (`Denied`), as are writes on a
    /// read-only mount (`ReadOnly`) and past the size limit (`TooBig`).
    pub fn write(&mut self, ino: u64, offset: u64, data: &[u8]) -> (r: Result<u32, Errno>)
        requires
            old(self).wf(),
            data@.len() <= u32::MAX,
        ensures
            final(self).wf(),
            final(self).dirs() == old(self).dirs(),
            final(self).files() == old(self).files(),
            final(self).contents() == old(self).contents(),
            old(self).virtual_dir.spec_is_virtual(ino) ==> r == Err::<u32, Errno>(Errno::Denied) && *final(self) == *old(self),
            !old(self).virtual_dir.spec_is_virtual(ino) && old(self).read_only ==> r == Err::<
                u32,
                Errno,
            >(Errno::ReadOnly) && *final(self) == *old(self),
            !old(self).virtual_dir.spec_is_virtual(ino) && !old(self).read_only
                && !old(self).inode_to_path.spec_map().contains_key(ino) ==> r == Err::<u32, Errno>(
                Errno::NotFound,
            ) && *final(self) == *old(self),
            !old(self).virtual_dir.spec_is_virtual(ino) && !old(self).read_only
                && old(self).inode_to_path.spec_map().contains_key(ino) ==> {
                let p = old(self).inode_to_path.spec_map()[ino]@;
                match node_bytes(*old(self), p) {
                    None => r == Err::<u32, Errno>(Errno::Io) && *final(self) == *old(self),
                    Some(b) => if offset + data@.len() > MAX_FILE_SIZE || offset + data@.len() > usize::MAX {
                        r == Err::<u32, Errno>(Errno::TooBig) && pending_set(*old(self), *final(self), p, b)
                    } else {
                        r == Ok::<u32, Errno>(data@.len() as u32) && wrote(
                            *old(self),
                            *final(self),
                            ino,
                            offset,
                            data@,
                        )
                    },
                }
            },
    {
        if self.virtual_dir.is_virtual(ino) {
            return Err(Errno::Denied);
        }
        if self.read_only {
            return Err(Errno::ReadOnly);
        }
        let path = match self.inode_to_path.get(ino) {
            Some(p) => p.as_str().to_owned(),
            None => {
                return Err(Errno::NotFound);
            },
        };
        match self.load_into_modified(path.as_str()) {
            Err(e) => {
                return Err(e);
            },
            Ok(()) => {},
        }
        proof {
            assert(self.modified_data.spec_map().dom() =~= old(self).modified_data.spec_map().dom().insert(
                path@,
            ));
        }
        if offset > MAX_FILE_SIZE || data.len() as u64 > MAX_FILE_SIZE - offset {
            return Err(Errno::TooBig);
        }
        if offset + data.len() as u64 > usize::MAX as u64 {
            return Err(Errno::TooBig);
        }
        let start = offset as usize;
        let end = start + data.len();
        let ghost before = self.modified_data.spec_map();
        let mut buf = match self.modified_data.remove(path.as_str()) {
            Some(b) => b,
            None => Vec::new(),
        };
        let ghost old_buf = buf@;
        if end > buf.len() {
            buf.resize(end, 0u8);
            proof {
                assert(buf@ =~= old_buf + Seq::new((end - old_buf.len()) as nat, |i: int| 0u8));
            }
        }
        let ghost grown = buf@;
        let mut i: usize = 0;
        while i < data.len()
            invariant
                i <= data@.len(),
                end == start + data@.len(),
                buf@.len() == grown.len(),
                grown.len() >= end,
                forall|j: int| 0 <= j < start ==> #[trigger] buf@[j] == grown[j],
                forall|j: int| end <= j < grown.len() ==> #[trigger] buf@[j] == grown[j],
                forall|j: int| start <= j < start + i ==> #[trigger] buf@[j] == data@[j - start],
                forall|j: int| start + i <= j < end ==> #[trigger] buf@[j] == grown[j],
            decreases data@.len() - i,
        {
            buf.set(start + i, data[i]);
            i = i + 1;
        }
        proof {
            assert(buf@ =~= grown.take(start as int) + data@ + grown.skip(end as int));
        }
        let ghost key = path@;
        let ghost new_buf = buf@;
        self.modified_data.insert(path, buf);
        proof {
            let m = self.modified_data.spec_map();
            assert(old_buf == node_bytes(*old(self), key)->0);
            assert(new_buf == written(old_buf, offset as int, data@));
            assert(m.dom() =~= old(self).modified_data.spec_map().dom().insert(key));
            assert forall|k: Seq<char>| k != key implies #[trigger] m.get(k) == old(
                self,
            ).modified_data.spec_map().get(k) by {
                assert(m.get(k) == before.get(k));
            }
        }
        Ok(data.len() as u32)
    }
}

/// `m` with `k` set to `v` when `v` is given.
pub open spec fn set_if<V>(m: Map<Seq<char>, V>, k: Seq<char>, v: Option<V>) -> Map<Seq<char>, V> {
    match v {
        Some(x) => m.insert(k, x),
        None => m,
    }
}

impl FsState {
    /// Changes attributes of inode `ino`: permission bits (kept as a
    /// pending change), owner and group (for this session only),
    /// modification time (pending), and, for a file, its size (its pending
    /// contents are truncated or zero-extended). Virtual nodes are refused
    /// (`Denied`); a read-only mount refuses all but owner and group
    /// changes (`ReadOnly`); sizes over the limit are refused (`TooBig`).
    /// Returns the node's attributes afterwards.
    pub fn setattr(
        &mut self,
        ino: u64,
        mode: Option<u32>,
        uid: Option<u32>,
        gid: Option<u32>,
        size: Option<u64>,
        mtime: Option<TimeOrNow>,
    ) -> (r: Result<FileAttr, Errno>)
        requires
            old(self).wf(),
        ensures
            final(self).wf(),
            final(self).dirs() == old(self).dirs(),
            final(self).files() == old(self).files(),
            final(self).contents() == old(self).contents(),
            final(self).archive == old(self).archive,
            old(self).virtual_dir.spec_is_virtual(ino) ==> r == Err::<FileAttr, Errno>(Errno::Denied)
                && *final(self) == *old(self),
            !old(self).virtual_dir.spec_is_virtual(ino) && (size is Some || mode is Some || mtime is Some)
                && old(self).read_only ==> r == Err::<FileAttr, Errno>(Errno::ReadOnly) && *final(self)
                == *old(self),
            !old(self).virtual_dir.spec_is_virtual(ino) && !((size is Some || mode is Some || mtime is Some)
                && old(self).read_only) && !old(self).inode_to_path.spec_map().contains_key(ino)
                && !old(self).contents().contains_key(ino) ==> r == Err::<FileAttr, Errno>(
                Errno::NotFound,
            ) && *final(self) == *old(self),
            !old(self).virtual_dir.spec_is_virtual(ino) && !((size is Some || mode is Some || mtime is Some)
                && old(self).read_only) && !old(self).inode_to_path.spec_map().contains_key(ino)
                && old(self).contents().contains_key(ino) ==> {
                let p = dir_path_of(old(self).dirs(), ino);
                &&& final(self).modified_uids.spec_map() == set_if(
                    old(self).modified_uids.spec_map(),
                    p,
                    uid,
                )
                &&& final(self).modified_gids.spec_map() == set_if(
                    old(self).modified_gids.spec_map(),
                    p,
                    gid,
                )
                &&& final(self).modified_modes.spec_map() == set_if(
                    old(self).modified_modes.spec_map(),
                    p,
                    match mode {
                        Some(m) => Some(m & PERM_MASK),
                        None => None,
                    },
                )
                &&& (mtime is None ==> final(self).modified_times == old(self).modified_times)
                &&& (mtime matches Some(TimeOrNow::SpecificTime(t)) ==> final(self).modified_times.spec_map() == old(self).modified_times.spec_map().insert(p, t))
                &&& (mtime matches Some(TimeOrNow::Now) ==> final(self).modified_times.spec_map().dom() == old(self).modified_times.spec_map().dom().insert(p) && forall|k: Seq<char>| k != p ==> #[trigger] final(self).modified_times.spec_map().get(k) == old(self).modified_times.spec_map().get(k))
                &&& r == Ok::<FileAttr, Errno>(final(self).spec_attr(ino, FileKind::Directory))
            },
            !old(self).virtual_dir.spec_is_virtual(ino) && !((size is Some || mode is Some || mtime is Some)
                && old(self).read_only) && old(self).inode_to_path.spec_map().contains_key(ino) ==> {
                let p = old(self).inode_to_path.spec_map()[ino]@;
                &&& final(self).modified_uids.spec_map() == set_if(
                    old(self).modified_uids.spec_map(),
                    p,
                    uid,
                )
                &&& final(self).modified_gids.spec_map() == set_if(
                    old(self).modified_gids.spec_map(),
                    p,
                    gid,
                )
                &&& final(self).modified_modes.spec_map() == set_if(
                    old(self).modified_modes.spec_map(),
                    p,
                    match mode {
                        Some(m) => Some(m & PERM_MASK),
                        None => None,
                    },
                )
                &&& (mtime is None ==> final(self).modified_times == old(self).modified_times)
                &&& (mtime matches Some(TimeOrNow::SpecificTime(t)) ==> final(self).modified_times.spec_map() == old(self).modified_times.spec_map().insert(p, t))
                &&& (mtime matches Some(TimeOrNow::Now) ==> final(self).modified_times.spec_map().dom() == old(self).modified_times.spec_map().dom().insert(p) && forall|k: Seq<char>| k != p ==> #[trigger] final(self).modified_times.spec_map().get(k) == old(self).modified_times.spec_map().get(k))
                &&& (size matches Some(n) ==> (n > MAX_FILE_SIZE ==> r == Err::<FileAttr, Errno>(
                    Errno::TooBig,
                )))
                &&& (size matches Some(n) ==> n <= MAX_FILE_SIZE && n <= usize::MAX ==> match old(
                    self,
                ).loaded_data(p) {
                    None => r == Err::<FileAttr, Errno>(Errno::Io) && final(self).modified_data
                        == old(self).modified_data,
                    Some(d) => {
                        &&& r is Ok
                        &&& final(self).modified_data.spec_map().dom() == old(
                            self,
                        ).modified_data.spec_map().dom().insert(p)
                        &&& final(self).modified_data.spec_map()[p]@ == resized(d, n as nat)
                        &&& forall|k: Seq<char>|
                            k != p ==> #[trigger] final(self).modified_data.spec_map().get(k) == old(
                                self,
                            ).modified_data.spec_map().get(k)
                    },
                })
                &&& (size is None ==> r is Ok && final(self).modified_data == old(self).modified_data)
                &&& (r is Ok ==> r->Ok_0 == setattr_file_attr(*final(self), ino, p))
            },
    {
        if self.virtual_dir.is_virtual(ino) {
            return Err(Errno::Denied);
        }
        if (size.is_some() || mode.is_some() || mtime.is_some()) && self.read_only {
            return Err(Errno::ReadOnly);
        }
        let path = match self.inode_to_path.get(ino) {
            Some(p) => p.as_str().to_owned(),
            None => {
                if !self.dir_contents.contains(ino) {
                    return Err(Errno::NotFound);
                }
                let dir_path = self.get_dir_path(ino);
                match mode {
                    Some(m) => {
                        self.modified_modes.insert(dir_path.clone(), m & PERM_MASK);
                    },
                    None => {},
                }
                match mtime {
                    Some(t) => {
                        let time = match t {
                            TimeOrNow::SpecificTime(x) => x,
                            TimeOrNow::Now => now_millis(),
                        };
                        self.modified_times.insert(dir_path.clone(), time);
                    },
                    None => {},
                }
                match uid {
                    Some(u) => {
                        self.modified_uids.insert(dir_path.clone(), u);
                    },
                    None => {},
                }
                match gid {
                    Some(g) => {
                        self.modified_gids.insert(dir_path.clone(), g);
                    },
                    None => {},
                }
                return Ok(self.get_attr(ino, FileKind::Directory));
            },
        };
        match uid {
            Some(u) => {
                self.modified_uids.insert(path.clone(), u);
            },
            None => {},
        }
        match gid {
            Some(g) => {
                self.modified_gids.insert(path.clone(), g);
            },
            None => {},
        }
        match mode {
            Some(m) => {
                self.modified_modes.insert(path.clone(), m & PERM_MASK);
            },
            None => {},
        }
        match mtime {
            Some(t) => {
                let time = match t {
                    TimeOrNow::SpecificTime(x) => x,
                    TimeOrNow::Now => now_millis(),
                };
                self.modified_times.insert(path.clone(), time);
            },
            None => {},
        }
        match size {
            Some(new_size) => {
                if new_size > MAX_FILE_SIZE || new_size > usize::MAX as u64 {
                    return Err(Errno::TooBig);
                }
                let ghost mid = self.modified_data.spec_map();
                match self.load_into_modified(path.as_str()) {
                    Err(e) => {
                        return Err(e);
                    },
                    Ok(()) => {},
                }
                let ghost loaded = self.modified_data.spec_map();
                let mut buf = match self.modified_data.remove(path.as_str()) {
                    Some(b) => b,
                    None => Vec::new(),
                };
                let ghost old_buf = buf@;
                buf.resize(new_size as usize, 0u8);
                proof {
                    if new_size as usize > old_buf.len() {
                        assert(buf@ =~= old_buf + Seq::new(
                            (new_size - old_buf.len()) as nat,
                            |i: int| 0u8,
                        ));
                    } else {
                        assert(buf@ =~= old_buf.take(new_size as int));
                    }
                    assert(buf@ == resized(old_buf, new_size as nat));
                }
                self.modified_data.insert(path.clone(), buf);
                proof {
                    assert(self.modified_data.spec_map().dom() =~= mid.dom().insert(path@));
                    assert(forall|k: Seq<char>|
                        k != path@ ==> #[trigger] self.modified_data.spec_map().get(k) == loaded.get(k));
                }
            },
            None => {},
        }
        let row: Option<EntryRowInfo> = match self.archive.find_entry_with_path(path.as_str()) {
            Some((r, _, _)) => Some(
                EntryRowInfo {
                    file_size: r.file_size,
                    created_time: r.created_time,
                    symlink: r.kind() == EntryKind::Symlink,
                },
            ),
            None => None,
        };
        let file_size = match self.modified_data.get(path.as_str()) {
            Some(d) => d.len() as u64,
            None => match row {
                Some(info) => info.file_size,
                None => 0,
            },
        };
        let file_mtime = self.get_file_mtime(path.as_str());
        let nlink = match self.nlink_counts.get(ino) {
            Some(n) => *n,
            None => 1,
        };
        let ctime = match row {
            Some(info) => if info.created_time < 0 {
                0
            } else {
                info.created_time
            },
            None => file_mtime,
        };
        let perm = self.get_file_mode(path.as_str());
        let kind = match row {
            Some(info) => if info.symlink {
                FileKind::Symlink
            } else {
                FileKind::RegularFile
            },
            None => FileKind::RegularFile,
        };
        Ok(
            FileAttr {
                ino,
                size: file_size,
                blocks: file_size / 512 + if file_size % 512 != 0 {
                    1
                } else {
                    0
                },
                atime: file_mtime,
                mtime: file_mtime,
                ctime,
                crtime: ctime,
                kind,
                perm: if perm == 0 {
                    DEFAULT_FILE_PERM as u16
                } else {
                    perm as u16
                },
                nlink,
                uid: self.get_uid(path.as_str()),
                gid: self.get_gid(path.as_str()),
                rdev: 0,
                blksize: 4096,
                flags: 0,
            },
        )
    }
}

/// Whether `name` is `.bale`, the virtual directory's name.
fn is_bale_name(name: &str) -> (b: bool)
    ensures
        b == (name@ == ".bale"@),
{
    name.to_owned() == ".bale".to_owned()
}

impl FsState {
    /// `mkdir`: refused on a read-only mount and for the name `.bale`;
    /// otherwise [`create_directory`](Self::create_directory) with the
    /// permission bits of `mode`, the new directory owned by the caller.
    pub fn mkdir(&mut self, parent: u64, name: &str, mode: u32, caller_uid: u32, caller_gid: u32) -> (r:
        Result<(u64, FileAttr), Errno>)
        requires
            old(self).wf(),
        ensures
            final(self).wf(),
            old(self).read_only ==> r == Err::<(u64, FileAttr), Errno>(Errno::ReadOnly) && *final(self)
                == *old(self),
            !old(self).read_only && name@ == ".bale"@ ==> r == Err::<(u64, FileAttr), Errno>(
                Errno::Exists,
            ) && *final(self) == *old(self),
            !old(self).read_only && name@ != ".bale"@ && old(self).create_error(parent, name@) is Some
                ==> r == Err::<(u64, FileAttr), Errno>(old(self).create_error(parent, name@)->0)
                && *final(self) == *old(self),
            !old(self).read_only && name@ != ".bale"@ ==> exists|
                m: FsState,
                r0: Result<(u64, FileAttr), Errno>,
            |
                #![trigger create_dir_post(*old(self), m, parent, name@, mode & PERM_MASK, r0)]
                create_dir_post(*old(self), m, parent, name@, mode & PERM_MASK, r0) && owned_outcome(
                    m,
                    *final(self),
                    old(self).child_path(parent, name@),
                    r0,
                    r,
                    caller_uid,
                    caller_gid,
                ),
    {
        if self.read_only {
            return Err(Errno::ReadOnly);
        }
        if is_bale_name(name) {
            return Err(Errno::Exists);
        }
        let ghost full = self.child_path(parent, name@);
        let ghost s0 = *self;
        let r0 = self.create_directory(parent, name, mode & PERM_MASK);
        let ghost m = *self;
        let ghost g0 = r0;
        proof {
            assert(create_dir_post(s0, m, parent, name@, mode & PERM_MASK, g0));
        }
        match r0 {
            Ok((ino, attr)) => {
                let dir_path = self.get_dir_path(ino);
                proof {
                    assert(self.dirs()[full] == ino);
                    assert(dir_path@ == full) by {
                        let q = dir_path_of(self.dirs(), ino);
                        assert(crate::fuse::state::has_path_for(self.dirs(), ino));
                        assert(self.dirs().contains_key(q) && self.dirs()[q] == ino);
                    }
                }
                self.modified_uids.insert(dir_path.clone(), caller_uid);
                self.modified_gids.insert(dir_path, caller_gid);
                let mut a = attr;
                a.uid = caller_uid;
                a.gid = caller_gid;
                proof {
                    assert(self.modified_uids.spec_map() =~= m.modified_uids.spec_map().insert(full, caller_uid));
                    assert(self.modified_gids.spec_map() =~= m.modified_gids.spec_map().insert(full, caller_gid));
                    assert(owned_outcome(m, *self, full, g0, Ok((ino, a)), caller_uid, caller_gid));
                }
                Ok((ino, a))
            },
            Err(e) => {
                proof {
                    assert(owned_outcome(m, *self, full, g0, Err(e), caller_uid, caller_gid));
                }
                Err(e)
            },
        }
    }

    /// `create`: refused on a read-only mount, for the name `.bale`
    /// (`Exists`) and inside the virtual directory (`Denied`); otherwise
    /// [`create_file`](Self::create_file), the new file owned by the
    /// caller.
    pub fn create(&mut self, parent: u64, name: &str, mode: u32, caller_uid: u32, caller_gid: u32) -> (r:
        Result<(u64, FileAttr), Errno>)
        requires
            old(self).wf(),
        ensures
            final(self).wf(),
            old(self).read_only ==> r == Err::<(u64, FileAttr), Errno>(Errno::ReadOnly) && *final(self)
                == *old(self),
            !old(self).read_only && name@ == ".bale"@ ==> r == Err::<(u64, FileAttr), Errno>(
                Errno::Exists,
            ) && *final(self) == *old(self),
            !old(self).read_only && name@ != ".bale"@ && parent == old(self).virtual_dir.spec_dir_ino()
                ==> r == Err::<(u64, FileAttr), Errno>(Errno::Denied) && *final(self) == *old(self),
            !old(self).read_only && name@ != ".bale"@ && parent != old(self).virtual_dir.spec_dir_ino()
                && old(self).create_error(parent, name@) is Some ==> r == Err::<(u64, FileAttr), Errno>(
                old(self).create_error(parent, name@)->0,
            ) && *final(self) == *old(self),
            !old(self).read_only && name@ != ".bale"@ && parent != old(self).virtual_dir.spec_dir_ino() ==> exists|
                m: FsState,
                r0: Result<(u64, FileAttr), Errno>,
            |
                #![trigger create_file_post(*old(self), m, parent, name@, mode & PERM_MASK, r0)]
                create_file_post(*old(self), m, parent, name@, mode & PERM_MASK, r0) && owned_outcome(
                    m,
                    *final(self),
                    old(self).child_path(parent, name@),
                    r0,
                    r,
                    caller_uid,
                    caller_gid,
                ),
    {
        if self.read_only {
            return Err(Errno::ReadOnly);
        }
        if is_bale_name(name) {
            return Err(Errno::Exists);
        }
        if parent == self.virtual_dir.dir_ino() {
            return Err(Errno::Denied);
        }
        let ghost full = self.child_path(parent, name@);
        let ghost s0 = *self;
        let r0 = self.create_file(parent, name, mode & PERM_MASK);
        let ghost m = *self;
        let ghost g0 = r0;
        proof {
            assert(create_file_post(s0, m, parent, name@, mode & PERM_MASK, g0));
        }
        match r0 {
            Ok((ino, attr)) => {
                let path: Option<String> = match self.inode_to_path.get(ino) {
                    Some(p) => Some(p.as_str().to_owned()),
                    None => None,
                };
                match path {
                    Some(p) => {
                        self.modified_uids.insert(p.clone(), caller_uid);
                        self.modified_gids.insert(p, caller_gid);
                    },
                    None => {},
                }
                let mut a = attr;
                a.uid = caller_uid;
                a.gid = caller_gid;
                proof {
                    assert(self.modified_uids.spec_map() =~= m.modified_uids.spec_map().insert(full, caller_uid));
                    assert(self.modified_gids.spec_map() =~= m.modified_gids.spec_map().insert(full, caller_gid));
                    assert(owned_outcome(m, *self, full, g0, Ok((ino, a)), caller_uid, caller_gid));
                }
                Ok((ino, a))
            },
            Err(e) => {
                proof {
                    assert(owned_outcome(m, *self, full, g0, Err(e), caller_uid, caller_gid));
                }
                Err(e)
            },
        }
    }

    /// `symlink`: refused on a read-only mount and for the name `.bale`;
    /// otherwise [`create_symlink`](Self::create_symlink), the new symlink
    /// owned by the caller.
    pub fn symlink(&mut self, parent: u64, name: &str, target: &str, caller_uid: u32, caller_gid: u32) -> (r:
        Result<(u64, FileAttr), Errno>)
        requires
            old(self).wf(),
        ensures
            final(self).wf(),
            old(self).read_only ==> r == Err::<(u64, FileAttr), Errno>(Errno::ReadOnly) && *final(self)
                == *old(self),
            !old(self).read_only && name@ == ".bale"@ ==> r == Err::<(u64, FileAttr), Errno>(
                Errno::Exists,
            ) && *final(self) == *old(self),
            !old(self).read_only && name@ != ".bale"@ && old(self).create_error(parent, name@) is Some
                ==> r == Err::<(u64, FileAttr), Errno>(old(self).create_error(parent, name@)->0)
                && *final(self) == *old(self),
            !old(self).read_only && name@ != ".bale"@ ==> exists|
                m: FsState,
                r0: Result<(u64, FileAttr), Errno>,
            |
                #![trigger create_symlink_post(*old(self), m, parent, name@, target@, r0)]
                create_symlink_post(*old(self), m, parent, name@, target@, r0) && owned_outcome(
                    m,
                    *final(self),
                    old(self).child_path(parent, name@),
                    r0,
                    r,
                    caller_uid,
                    caller_gid,
                ),
    {
        if self.read_only {
            return Err(Errno::ReadOnly);
        }
        if is_bale_name(name) {
            return Err(Errno::Exists);
        }
        let ghost full = self.child_path(parent, name@);
        let ghost s0 = *self;
        let r0 = self.create_symlink(parent, name, target);
        let ghost m = *self;
        let ghost g0 = r0;
        proof {
            assert(create_symlink_post(s0, m, parent, name@, target@, g0));
        }
        match r0 {
            Ok((ino, attr)) => {
                let path: Option<String> = match self.inode_to_path.get(ino) {
                    Some(p) => Some(p.as_str().to_owned()),
                    None => None,
                };
                match path {
                    Some(p) => {
                        self.modified_uids.insert(p.clone(), caller_uid);
                        self.modified_gids.insert(p, caller_gid);
                    },
                    None => {},
                }
                let mut a = attr;
                a.uid = caller_uid;
                a.gid = caller_gid;
                proof {
                    assert(self.modified_uids.spec_map() =~= m.modified_uids.spec_map().insert(full, caller_uid));
                    assert(self.modified_gids.spec_map() =~= m.modified_gids.spec_map().insert(full, caller_gid));
                    assert(owned_outcome(m, *self, full, g0, Ok((ino, a)), caller_uid, caller_gid));
                }
                Ok((ino, a))
            },
            Err(e) => {
                proof {
                    assert(owned_outcome(m, *self, full, g0, Err(e), caller_uid, caller_gid));
                }
                Err(e)
            },
        }
    }

    /// `link`: refused on a read-only mount and for the name `.bale`;
    /// otherwise [`create_hard_link`](Self::create_hard_link).
    pub fn link(&mut self, ino: u64, new_parent: u64, new_name: &str) -> (r: Result<(u64, FileAttr), Errno>)
        requires
            old(self).wf(),
        ensures
            final(self).wf(),
            old(self).read_only ==> r == Err::<(u64, FileAttr), Errno>(Errno::ReadOnly) && *final(self)
                == *old(self),
            !old(self).read_only && new_name@ == ".bale"@ ==> r == Err::<(u64, FileAttr), Errno>(
                Errno::Exists,
            ) && *final(self) == *old(self),
            !old(self).read_only && new_name@ != ".bale"@ ==> hard_link_post(
                *old(self),
                *final(self),
                ino,
                new_parent,
                new_name@,
                r,
            ),
    {
        if self.read_only {
            return Err(Errno::ReadOnly);
        }
        if is_bale_name(new_name) {
            return Err(Errno::Exists);
        }
        self.create_hard_link(ino, new_parent, new_name)
    }

    /// `unlink`: refused on a read-only mount and for the `.bale` symlink
    /// (`Denied`); otherwise [`remove_file`](Self::remove_file).
    pub fn unlink(&mut self, parent: u64, name: &str, caller_uid: u32) -> (r: Result<(), Errno>)
        requires
            old(self).wf(),
        ensures
            final(self).wf(),
            old(self).read_only ==> r == Err::<(), Errno>(Errno::ReadOnly) && *final(self) == *old(self),
            !old(self).read_only && name@ == ".bale"@ ==> r == Err::<(), Errno>(Errno::Denied) && *final(self) == *old(self),
            !old(self).read_only && name@ != ".bale"@ ==> (r is Ok <==> old(self).remove_file_error(
                parent,
                name@,
                caller_uid,
            ) is None),
            !old(self).read_only && name@ != ".bale"@ && r is Ok ==> final(self).files() == old(self).files().remove(old(self).child_path(parent, name@)),
    {
        if self.read_only {
            return Err(Errno::ReadOnly);
        }
        if is_bale_name(name) {
            return Err(Errno::Denied);
        }
        self.remove_file(parent, name, caller_uid)
    }

    /// `rmdir`: refused on a read-only mount and for `.bale` (`Denied`);
    /// otherwise [`remove_directory`](Self::remove_directory).
    pub fn rmdir(&mut self, parent: u64, name: &str, caller_uid: u32) -> (r: Result<(), Errno>)
        requires
            old(self).wf(),
        ensures
            final(self).wf(),
            old(self).read_only ==> r == Err::<(), Errno>(Errno::ReadOnly) && *final(self) == *old(self),
            !old(self).read_only && name@ == ".bale"@ ==> r == Err::<(), Errno>(Errno::Denied) && *final(self) == *old(self),
            !old(self).read_only && name@ != ".bale"@ ==> (r is Ok <==> old(self).remove_dir_error(
                parent,
                name@,
                caller_uid,
            ) is None),
            !old(self).read_only && name@ != ".bale"@ && r is Ok ==> final(self).dirs() == old(self).dirs().remove(old(self).child_path(parent, name@)),
    {
        if self.read_only {
            return Err(Errno::ReadOnly);
        }
        if is_bale_name(name) {
            return Err(Errno::Denied);
        }
        self.remove_directory(parent, name, caller_uid)
    }

    /// `rename`: refused on a read-only mount and when either name is
    /// `.bale` (`Denied`); a file renamed onto its own path is left as it
    /// is; otherwise [`rename_entry`](Self::rename_entry).
    pub fn rename(&mut self, parent: u64, name: &str, new_parent: u64, new_name: &str, caller_uid: u32) -> (r:
        Result<(), Errno>)
        requires
            old(self).wf(),
        ensures
            final(self).wf(),
            old(self).read_only ==> r == Err::<(), Errno>(Errno::ReadOnly) && *final(self) == *old(self),
            !old(self).read_only && (name@ == ".bale"@ || new_name@ == ".bale"@) ==> r == Err::<(), Errno>(
                Errno::Denied,
            ) && *final(self) == *old(self),
            !old(self).read_only && name@ != ".bale"@ && new_name@ != ".bale"@ && old(self).spec_rename_onto_itself(parent, name@, new_parent, new_name@) ==> r is Ok && *final(self)
                == *old(self),
            !old(self).read_only && name@ != ".bale"@ && new_name@ != ".bale"@ && !old(self).spec_rename_onto_itself(parent, name@, new_parent, new_name@) ==> rename_post(
                *old(self),
                *final(self),
                parent,
                name@,
                new_parent,
                new_name@,
                caller_uid,
                r,
            ),
    {
        if self.read_only {
            return Err(Errno::ReadOnly);
        }
        if is_bale_name(name) || is_bale_name(new_name) {
            return Err(Errno::Denied);
        }
        if self.rename_onto_itself(parent, name, new_parent, new_name) {
            return Ok(());
        }
        self.rename_entry(parent, name, new_parent, new_name, caller_uid)
    }

    /// `flush` and `fsync`: nothing on a read-only mount, else
    /// [`sync_modified_to_archive`](Self::sync_modified_to_archive).
    pub fn flush(&mut self) -> (r: Result<(), Errno>)
        requires
            old(self).wf(),
        ensures
            final(self).wf(),
            old(self).read_only ==> r is Ok && *final(self) == *old(self),
            !old(self).read_only && old(self).sync_ready() ==> r is Ok,
            r is Err ==> r == Err::<(), Errno>(Errno::Io),
            !old(self).read_only && r is Ok ==> final(self).modified_data.spec_map() == Map::<
                Seq<char>,
                Vec<u8>,
            >::empty() && final(self).modified_modes.spec_map() == Map::<Seq<char>, u32>::empty()
                && final(self).modified_times.spec_map() == Map::<Seq<char>, i64>::empty()
                && !final(self).archive.spec_dirty(),
    {
        if self.read_only {
            return Ok(());
        }
        self.sync_modified_to_archive()
    }
}

/// What `setattr` reads of an archive entry.
#[derive(Clone, Copy)]
struct EntryRowInfo {
    file_size: u64,
    created_time: i64,
    symlink: bool,
}
} // verus!
