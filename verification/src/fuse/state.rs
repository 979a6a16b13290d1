//! The filesystem view of an archive: directory and file inodes, directory
//! listings, pending changes, and the operations that the kernel interface
//! forwards to it (create, remove, rename, link).

use vstd::prelude::*;
use vstd::string::StrSliceExecFns;
use crate::archive::model::{Archive, has_key, lemma_deleted_gone, key_holds_id};
use crate::archive_path::ArchivePath;
use crate::archive::resolve::safe_file_name;
use crate::entry_kind::EntryKind;
use crate::fuse::inode::{ROOT_INO, FILE_INO_START, DIR_INO_START};
use crate::fuse::table::{NameTable, InoTable};
use crate::fuse::virtual_dir::VirtualDir;
use crate::chars::chars_of;
use crate::text::extend_bytes;
use crate::archive::model::{now_millis, directory_mode, listed, read_block};
use crate::archive_path::{trim_nul, join_slash};
use crate::archive::model::symlink_mode;
use crate::error::BaleError;
use crate::entry_kind::spec_kind_of_mode;
use vstd::utf8::{valid_utf8, decode_utf8};
use crate::format::entry_row::EntryRow;
use crate::archive::resolve::validate_component;
use crate::archive_path::normalize_chars;
use vstd::string::StringSliceAdditionalSpecFns;
use vstd::utf8::encode_utf8;

verus! {

/// Default permission bits for regular files (rw-r--r--).
pub const DEFAULT_FILE_PERM: u32 = 0o644;

/// Default permission bits for directories (rwxr-xr-x).
pub const DEFAULT_DIR_PERM: u32 = 0o755;

/// Regular-file type bits.
pub const S_IFREG: u32 = 0o100000;

/// Directory type bits.
pub const S_IFDIR: u32 = 0o040000;

/// The sticky bit.
pub const S_ISVTX: u32 = 0o1000;

/// Every permission bit (including setuid, setgid and sticky).
pub const PERM_MASK: u32 = 0o7777;

/// Default file mode: a regular file with the default permissions.
pub const DEFAULT_FILE_MODE: u32 = 0o100644;

/// Default directory mode: a directory with the default permissions.
pub const DEFAULT_DIR_MODE: u32 = 0o040755;

/// The kinds of nodes the filesystem shows.
#[derive(Debug, Clone, Copy, PartialEq, Eq, Structural)]
pub enum FileKind {
    /// A regular file.
    RegularFile,
    /// A directory.
    Directory,
    /// A symbolic link.
    Symlink,
}

/// A directory entry for readdir: its name, inode and kind.
#[derive(Debug, Clone)]
pub struct FuseDirEntry {
    /// The entry name (not the full path).
    pub name: String,
    /// The inode number.
    pub ino: u64,
    /// The node kind.
    pub kind: FileKind,
}

impl FuseDirEntry {
    /// A directory entry of the given kind.
    pub fn new(name: &str, ino: u64, kind: FileKind) -> (e: Self)
        ensures
            e.name@ == name@,
            e.ino == ino,
            e.kind == kind,
    {
        FuseDirEntry { name: name.to_owned(), ino, kind }
    }

    /// A copy of this entry.
    pub fn copy(&self) -> (e: Self)
        ensures
            e == *self,
    {
        FuseDirEntry { name: self.name.clone(), ino: self.ino, kind: self.kind }
    }

    /// A directory entry for a regular file.
    pub fn file(name: &str, ino: u64) -> (e: Self)
        ensures
            e.name@ == name@,
            e.ino == ino,
            e.kind == FileKind::RegularFile,
    {
        Self::new(name, ino, FileKind::RegularFile)
    }

    /// A directory entry for a directory.
    pub fn directory(name: &str, ino: u64) -> (e: Self)
        ensures
            e.name@ == name@,
            e.ino == ino,
            e.kind == FileKind::Directory,
    {
        Self::new(name, ino, FileKind::Directory)
    }

    /// A directory entry for a symbolic link.
    pub fn symlink(name: &str, ino: u64) -> (e: Self)
        ensures
            e.name@ == name@,
            e.ino == ino,
            e.kind == FileKind::Symlink,
    {
        Self::new(name, ino, FileKind::Symlink)
    }
}

/// Why a filesystem operation was refused (each stands for an errno).
#[derive(Debug, Clone, Copy, PartialEq, Eq, Structural)]
pub enum Errno {
    /// `ENOENT`: no such file or directory.
    NotFound,
    /// `EEXIST`: the name is taken.
    Exists,
    /// `ENOTDIR`: not a directory.
    NotDirectory,
    /// `EISDIR`: is a directory.
    IsDirectory,
    /// `EINVAL`: an invalid argument.
    Invalid,
    /// `ENOTEMPTY`: the directory is not empty.
    NotEmpty,
    /// `ENAMETOOLONG`: a name or path is too long.
    NameTooLong,
    /// `EACCES`: permission denied.
    Denied,
    /// `EIO`: the archive refused the change.
    Io,
    /// `EROFS`: the filesystem is mounted read-only.
    ReadOnly,
    /// `EFBIG`: the file would grow past the size limit.
    TooBig,
}

/// Attributes of a node, as the kernel interface reports them; times are
/// Unix epoch milliseconds.
#[derive(Debug, Clone, Copy)]
pub struct FileAttr {
    /// Inode number.
    pub ino: u64,
    /// Size in bytes.
    pub size: u64,
    /// Size in 512-byte blocks.
    pub blocks: u64,
    /// Last access time.
    pub atime: i64,
    /// Last modification time.
    pub mtime: i64,
    /// Last change time.
    pub ctime: i64,
    /// Creation time.
    pub crtime: i64,
    /// Node kind.
    pub kind: FileKind,
    /// Permission bits.
    pub perm: u16,
    /// Number of hard links.
    pub nlink: u32,
    /// Owner.
    pub uid: u32,
    /// Group.
    pub gid: u32,
    /// Device number.
    pub rdev: u32,
    /// Preferred block size.
    pub blksize: u32,
    /// Flags.
    pub flags: u32,
}

// ---------------------------------------------------------------------
// Path text
// ---------------------------------------------------------------------

/// `parent/name`, or `name` at the root.
pub open spec fn join_path(parent: Seq<char>, name: Seq<char>) -> Seq<char> {
    if parent.len() == 0 {
        name
    } else {
        parent + seq!['/'] + name
    }
}

/// `s` without trailing slashes.
pub open spec fn trim_slashes(s: Seq<char>) -> Seq<char>
    decreases s.len(),
{
    if s.len() > 0 && s.last() == '/' {
        trim_slashes(s.drop_last())
    } else {
        s
    }
}

/// The position of the last `/` in the first `n` characters of `s`, or -1.
pub open spec fn last_slash_before(s: Seq<char>, n: int) -> int
    decreases n,
{
    if n <= 0 {
        -1
    } else if s[n - 1] == '/' {
        n - 1
    } else {
        last_slash_before(s, n - 1)
    }
}

/// The position of the last `/` in `s`, or -1.
pub open spec fn last_slash(s: Seq<char>) -> int {
    last_slash_before(s, s.len() as int)
}

/// `(parent, name)` of a path, after trailing slashes are dropped; `None`
/// when nothing is left.
pub open spec fn spec_split_path(path: Seq<char>) -> Option<(Seq<char>, Seq<char>)> {
    let p = trim_slashes(path);
    let k = last_slash(p);
    if k >= 0 {
        Some((p.subrange(0, k), p.subrange(k + 1, p.len() as int)))
    } else if p.len() > 0 {
        Some((Seq::empty(), p))
    } else {
        None
    }
}

/// The text before the last `/` of a path (empty when it has none).
pub open spec fn parent_text(p: Seq<char>) -> Seq<char> {
    let k = last_slash(p);
    if k >= 0 {
        p.subrange(0, k)
    } else {
        Seq::empty()
    }
}

/// How many times `c` occurs in the first `n` characters of `s`.
pub open spec fn count_char(s: Seq<char>, c: char, n: int) -> nat
    decreases n,
{
    if n <= 0 {
        0
    } else {
        count_char(s, c, n - 1) + if s[n - 1] == c {
            1nat
        } else {
            0nat
        }
    }
}

proof fn lemma_last_slash_bounds(s: Seq<char>, n: int)
    requires
        0 <= n <= s.len(),
    ensures
        -1 <= last_slash_before(s, n) < n,
        last_slash_before(s, n) >= 0 ==> s[last_slash_before(s, n)] == '/',
        forall|j: int| last_slash_before(s, n) < j < n ==> s[j] != '/',
    decreases n,
{
    if n > 0 && s[n - 1] != '/' {
        lemma_last_slash_bounds(s, n - 1);
    }
}

proof fn lemma_trim_slashes(s: Seq<char>)
    ensures
        trim_slashes(s).len() <= s.len(),
        trim_slashes(s) == s.subrange(0, trim_slashes(s).len() as int),
        trim_slashes(s).len() == 0 || trim_slashes(s).last() != '/',
    decreases s.len(),
{
    if s.len() > 0 && s.last() == '/' {
        lemma_trim_slashes(s.drop_last());
        assert(s.drop_last().subrange(0, trim_slashes(s).len() as int) =~= s.subrange(
            0,
            trim_slashes(s).len() as int,
        ));
    } else {
        assert(s.subrange(0, s.len() as int) =~= s);
    }
}

/// `parent/name` (or `name` when the parent is the root).
fn join_text(parent: &str, name: &str) -> (s: String)
    ensures
        s@ == join_path(parent@, name@),
{
    if parent.is_empty() {
        name.to_owned()
    } else {
        let mut s = parent.to_owned();
        proof {
            reveal_strlit("/");
        }
        s.append("/");
        s.append(name);
        assert("/"@ =~= seq!['/']);
        s
    }
}

/// The length of `s` without trailing slashes.
fn trimmed_len(cs: &Vec<char>) -> (n: usize)
    ensures
        n == trim_slashes(cs@).len(),
{
    let mut n = cs.len();
    assert(cs@.subrange(0, n as int) =~= cs@);
    while n > 0 && cs[n - 1] == '/'
        invariant
            n <= cs@.len(),
            trim_slashes(cs@) == trim_slashes(cs@.subrange(0, n as int)),
        decreases n,
    {
        proof {
            assert(cs@.subrange(0, n as int).drop_last() =~= cs@.subrange(0, n - 1));
        }
        n = n - 1;
    }
    proof {
        assert(cs@.subrange(0, n as int).len() == n);
    }
    n
}

/// The position of the last `/` among the first `n` characters, or `n`
/// when there is none.
fn find_last_slash(cs: &Vec<char>, n: usize) -> (r: usize)
    requires
        n <= cs@.len(),
    ensures
        r <= n,
        r == n <==> last_slash_before(cs@, n as int) == -1,
        r < n ==> r == last_slash_before(cs@, n as int),
{
    let mut k = n;
    while k > 0
        invariant
            k <= n <= cs@.len(),
            last_slash_before(cs@, n as int) == last_slash_before(cs@, k as int),
        decreases k,
    {
        if cs[k - 1] == '/' {
            return k - 1;
        }
        k = k - 1;
    }
    n
}

/// Splits a path into its parent directory and its name, after dropping
/// trailing slashes; `None` when nothing is left.
pub fn split_path(path: &str) -> (r: Option<(String, String)>)
    ensures
        match spec_split_path(path@) {
            None => r is None,
            Some((p, n)) => r matches Some(x) && x.0@ == p && x.1@ == n,
        },
{
    let cs = chars_of(path);
    let n = trimmed_len(&cs);
    proof {
        lemma_trim_slashes(path@);
    }
    let ghost t = trim_slashes(path@);
    assert(t =~= path@.subrange(0, n as int));
    proof {
        assert forall|i: int| 0 <= i <= n implies last_slash_before(t, i) == last_slash_before(
            cs@,
            i,
        ) by {
            lemma_last_slash_prefix(t, cs@, i);
        }
        assert(last_slash(t) == last_slash_before(cs@, n as int));
    }
    let k = find_last_slash(&cs, n);
    if k < n {
        let parent = path.substring_char(0, k).to_owned();
        let name = path.substring_char(k + 1, n).to_owned();
        proof {
            assert(parent@ =~= t.subrange(0, k as int));
            assert(name@ =~= t.subrange(k + 1, t.len() as int));
            assert(last_slash(t) == k);
            assert(spec_split_path(path@) == Some((t.subrange(0, k as int), t.subrange(k + 1, t.len() as int))));
        }
        Some((parent, name))
    } else if n > 0 {
        let name = path.substring_char(0, n).to_owned();
        assert(name@ =~= t);
        assert(last_slash(t) == -1);
        assert(spec_split_path(path@) == Some((Seq::<char>::empty(), t)));
        Some((String::new(), name))
    } else {
        None
    }
}

proof fn lemma_last_slash_prefix(t: Seq<char>, s: Seq<char>, i: int)
    requires
        0 <= i <= t.len() <= s.len(),
        forall|j: int| 0 <= j < t.len() ==> t[j] == s[j],
    ensures
        last_slash_before(t, i) == last_slash_before(s, i),
    decreases i,
{
    if i > 0 {
        lemma_last_slash_prefix(t, s, i - 1);
    }
}


// ---------------------------------------------------------------------
// The state
// ---------------------------------------------------------------------

/// Whether no two paths of `m` share an inode.
pub open spec fn inos_unique(m: Map<Seq<char>, u64>) -> bool {
    forall|p: Seq<char>, q: Seq<char>|
        #![trigger m[p], m[q]]
        m.contains_key(p) && m.contains_key(q) && m[p] == m[q] ==> p == q
}

/// Whether some path of `m` has inode `ino`.
pub open spec fn has_path_for(m: Map<Seq<char>, u64>, ino: u64) -> bool {
    exists|p: Seq<char>| m.contains_key(p) && #[trigger] m[p] == ino
}

/// The path of directory `ino`: empty for the root and for an unknown
/// inode.
pub open spec fn dir_path_of(m: Map<Seq<char>, u64>, ino: u64) -> Seq<char> {
    if ino == ROOT_INO {
        Seq::empty()
    } else if has_path_for(m, ino) {
        choose|p: Seq<char>| m.contains_key(p) && #[trigger] m[p] == ino
    } else {
        Seq::empty()
    }
}

/// The parent directory's inode of directory `ino`: the root for the root,
/// for a top-level directory, and when the parent path is not known.
pub open spec fn parent_ino_of(m: Map<Seq<char>, u64>, ino: u64) -> u64 {
    let p = dir_path_of(m, ino);
    if ino == ROOT_INO || p.len() == 0 {
        ROOT_INO
    } else if m.contains_key(parent_text(p)) {
        m[parent_text(p)]
    } else {
        ROOT_INO
    }
}

/// The depth of directory `ino`: its number of path components.
pub open spec fn depth_of(m: Map<Seq<char>, u64>, ino: u64) -> nat {
    let p = dir_path_of(m, ino);
    if ino == ROOT_INO || p.len() == 0 {
        0
    } else if count_char(p, '/', p.len() as int) + 1 <= usize::MAX {
        count_char(p, '/', p.len() as int) + 1
    } else {
        usize::MAX as nat
    }
}

/// The filesystem state over an archive.
pub struct FsState {
    /// The underlying archive.
    pub archive: Archive,
    /// Whether the filesystem is mounted read-only.
    pub read_only: bool,
    /// Owner of every node (unless overridden).
    pub uid: u32,
    /// Group of every node (unless overridden).
    pub gid: u32,
    /// When the filesystem was mounted (epoch milliseconds).
    pub mount_time: i64,
    /// Directory path to inode.
    pub dir_inodes: NameTable<u64>,
    /// Directory inode to its entries.
    pub dir_contents: InoTable<Vec<FuseDirEntry>>,
    /// File or symlink inode to its archive path.
    pub inode_to_path: InoTable<String>,
    /// Archive path to file or symlink inode.
    pub path_to_inode: NameTable<u64>,
    /// New contents of files, not yet written to the archive.
    pub modified_data: NameTable<Vec<u8>>,
    /// New permission bits, not yet written to the archive.
    pub modified_modes: NameTable<u32>,
    /// New modification times (epoch milliseconds), not yet written.
    pub modified_times: NameTable<i64>,
    /// Owner overrides for this session.
    pub modified_uids: NameTable<u32>,
    /// Group overrides for this session.
    pub modified_gids: NameTable<u32>,
    /// Directory modification times (epoch milliseconds) by inode.
    pub dir_mtimes: InoTable<i64>,
    /// Archive entry ID to file inode (hard links share one inode).
    pub entry_id_to_ino: InoTable<u64>,
    /// Number of paths per file inode.
    pub nlink_counts: InoTable<u32>,
    /// The mount point, used to turn absolute symlink targets into
    /// archive-relative ones.
    pub mount_point: Option<String>,
    /// Next free file inode.
    pub next_file_ino: u64,
    /// Next free directory inode.
    pub next_dir_ino: u64,
    /// The virtual `.bale/` directory.
    pub virtual_dir: VirtualDir,
}

impl FsState {
    /// Well-formedness: the tables and the archive are well formed, and
    /// each directory inode belongs to one path and is below the next free
    /// directory inode (the root excepted).
    pub open spec fn wf(&self) -> bool {
        &&& self.archive.wf()
        &&& self.dir_inodes.wf()
        &&& self.dir_contents.wf()
        &&& self.inode_to_path.wf()
        &&& self.path_to_inode.wf()
        &&& self.modified_data.wf()
        &&& self.modified_modes.wf()
        &&& self.modified_times.wf()
        &&& self.modified_uids.wf()
        &&& self.modified_gids.wf()
        &&& self.dir_mtimes.wf()
        &&& self.entry_id_to_ino.wf()
        &&& self.nlink_counts.wf()
        &&& self.virtual_dir.wf()
        &&& inos_unique(self.dir_inodes.spec_map())
        &&& DIR_INO_START <= self.next_dir_ino
        &&& FILE_INO_START <= self.next_file_ino
        &&& forall|p: Seq<char>|
            #[trigger] self.dir_inodes.spec_map().contains_key(p) ==> {
                let i = self.dir_inodes.spec_map()[p];
                i == ROOT_INO || DIR_INO_START <= i < self.next_dir_ino
            }
        &&& forall|i: u64|
            #[trigger] self.dir_contents.spec_map().contains_key(i) ==> i == ROOT_INO || (
            DIR_INO_START <= i < self.next_dir_ino)
    }

    /// The directory-path map.
    pub open spec fn dirs(&self) -> Map<Seq<char>, u64> {
        self.dir_inodes.spec_map()
    }

    /// The path of directory `ino` (empty for the root or an unknown inode).
    pub fn get_dir_path(&self, ino: u64) -> (p: String)
        requires
            self.wf(),
        ensures
            p@ == dir_path_of(self.dirs(), ino),
    {
        if ino == ROOT_INO {
            return String::new();
        }
        let keys = self.dir_inodes.keys();
        let ghost m = self.dirs();
        let mut i: usize = 0;
        while i < keys.len()
            invariant
                self.wf(),
                ino != ROOT_INO,
                m == self.dirs(),
                i <= keys@.len(),
                forall|k: Seq<char>|
                    m.contains_key(k) <==> exists|j: int| 0 <= j < keys@.len() && #[trigger] keys@[j]@ == k,
                forall|j: int| 0 <= j < i ==> m[#[trigger] keys@[j]@] != ino,
            decreases keys@.len() - i,
        {
            match self.dir_inodes.get(keys[i].as_str()) {
                Some(v) => {
                    if *v == ino {
                        proof {
                            let p = keys@[i as int]@;
                            assert(m.contains_key(p) && m[p] == ino);
                            assert(has_path_for(m, ino));
                            let q = dir_path_of(m, ino);
                            assert(m.contains_key(q) && m[q] == ino);
                            assert(m[q] == m[p]);
                            assert(q == p);
                        }
                        let r = keys[i].as_str().to_owned();
                        assert(r@ == keys@[i as int]@);
                        return r;
                    }
                },
                None => {},
            }
            i = i + 1;
        }
        proof {
            if has_path_for(m, ino) {
                let q = dir_path_of(m, ino);
                assert(m.contains_key(q) && m[q] == ino);
                let j = choose|j: int| 0 <= j < keys@.len() && #[trigger] keys@[j]@ == q;
                assert(m[keys@[j]@] != ino);
            }
        }
        String::new()
    }

    /// The parent directory's inode of directory `ino` (the root when the
    /// directory is at the top level or not found).
    pub fn get_parent_inode(&self, ino: u64) -> (r: u64)
        requires
            self.wf(),
        ensures
            r == parent_ino_of(self.dirs(), ino),
    {
        if ino == ROOT_INO {
            return ROOT_INO;
        }
        let path = self.get_dir_path(ino);
        if path.as_str().is_empty() {
            return ROOT_INO;
        }
        let cs = chars_of(path.as_str());
        let k = find_last_slash(&cs, cs.len());
        let parent = if k < cs.len() {
            path.as_str().substring_char(0, k).to_owned()
        } else {
            String::new()
        };
        proof {
            assert(cs@.len() == path@.len());
            if k < cs.len() {
                assert(parent@ =~= parent_text(path@));
            } else {
                assert(parent@ =~= parent_text(path@));
            }
        }
        match self.dir_inodes.get(parent.as_str()) {
            Some(v) => *v,
            None => ROOT_INO,
        }
    }

    /// The depth of directory `ino`: 0 for the root, 1 for `a`, 2 for `a/b`.
    pub fn dir_depth(&self, ino: u64) -> (r: usize)
        requires
            self.wf(),
        ensures
            r == depth_of(self.dirs(), ino),
    {
        if ino == ROOT_INO {
            return 0;
        }
        let path = self.get_dir_path(ino);
        if path.as_str().is_empty() {
            return 0;
        }
        let cs = chars_of(path.as_str());
        let mut count: usize = 0;
        let mut i: usize = 0;
        while i < cs.len()
            invariant
                i <= cs@.len(),
                cs@ == path@,
                count == count_char(cs@, '/', i as int),
                count <= i,
            decreases cs@.len() - i,
        {
            if cs[i] == '/' {
                count = count + 1;
            }
            i = i + 1;
        }
        if count < usize::MAX {
            count + 1
        } else {
            count
        }
    }
}

// ---------------------------------------------------------------------
// Checks
// ---------------------------------------------------------------------

/// Why a name is refused as a path component: too long or empty, or not a
/// safe file name.
pub open spec fn name_error(name: Seq<char>) -> Option<Errno> {
    let b = encode_utf8(name);
    if b.len() == 0 || b.len() > 255 {
        Some(Errno::NameTooLong)
    } else if !safe_file_name(b) {
        Some(Errno::Invalid)
    } else {
        None
    }
}

/// Checks a name with the safe-file-name rules: `NameTooLong` when it is
/// empty or longer than 255 bytes, `Invalid` when a byte is refused.
pub fn validate_name(name: &str) -> (r: Result<(), Errno>)
    ensures
        match name_error(name@) {
            Some(e) => r == Err::<(), Errno>(e),
            None => r is Ok,
        },
{
    let bytes = name.as_bytes();
    let n = bytes.len();
    if n == 0 || n > 255 {
        return Err(Errno::NameTooLong);
    }
    if !validate_component(bytes) {
        return Err(Errno::Invalid);
    }
    Ok(())
}

/// Checks that a path is a valid archive path (normalizable).
pub fn validate_archive_path(path: &str) -> (r: Result<(), Errno>)
    ensures
        r is Ok <==> normalize_chars(path@) is Some,
        r is Err ==> r == Err::<(), Errno>(Errno::Invalid),
{
    match ArchivePath::normalize_bytes(path) {
        Ok(_) => Ok(()),
        Err(_) => Err(Errno::Invalid),
    }
}

/// Whether `mode` has the sticky bit.
pub open spec fn is_sticky(mode: u32) -> bool {
    mode & S_ISVTX != 0
}

impl FsState {
    /// The directory-content map.
    pub open spec fn contents(&self) -> Map<u64, Vec<FuseDirEntry>> {
        self.dir_contents.spec_map()
    }

    /// The file-path map.
    pub open spec fn files(&self) -> Map<Seq<char>, u64> {
        self.path_to_inode.spec_map()
    }

    /// The full path of `name` inside directory `parent`.
    pub open spec fn child_path(&self, parent: u64, name: Seq<char>) -> Seq<char> {
        join_path(dir_path_of(self.dirs(), parent), name)
    }

    /// Whether `path` is longer (in bytes) than the archive's path size.
    pub open spec fn too_long(&self, path: Seq<char>) -> bool {
        encode_utf8(path).len() > self.archive.spec_path_size()
    }

    /// Checks that a path fits the archive's path size (`NameTooLong`).
    pub fn validate_path_length(&self, path: &str) -> (r: Result<(), Errno>)
        requires
            self.wf(),
        ensures
            r is Err <==> self.too_long(path@),
            r is Err ==> r == Err::<(), Errno>(Errno::NameTooLong),
    {
        if path.as_bytes().len() > self.archive.path_size() {
            Err(Errno::NameTooLong)
        } else {
            Ok(())
        }
    }

    /// The permission bits stored for `path` in the archive, when it has an
    /// entry whose permission bits are not all zero.
    pub open spec fn archive_perm(&self, path: Seq<char>) -> Option<u32> {
        match self.archive.spec_lookup(encode_utf8(path)) {
            Some(t) => if t.0.mode & PERM_MASK != 0 {
                Some(t.0.mode & PERM_MASK)
            } else {
                None
            },
            None => None,
        }
    }

    /// The permission bits of file `path`: a pending change, else the
    /// archive's (the default when they are zero or the entry is missing).
    pub open spec fn spec_file_mode(&self, path: Seq<char>) -> u32 {
        if self.modified_modes.spec_map().contains_key(path) {
            self.modified_modes.spec_map()[path]
        } else {
            match self.archive_perm(path) {
                Some(m) => m,
                None => DEFAULT_FILE_PERM,
            }
        }
    }

    /// The permission bits of directory `ino`: a pending change, else the
    /// archive's for an explicit directory, else the default.
    pub open spec fn spec_dir_mode(&self, ino: u64) -> u32 {
        let p = dir_path_of(self.dirs(), ino);
        if self.modified_modes.spec_map().contains_key(p) {
            self.modified_modes.spec_map()[p]
        } else if p.len() > 0 && self.archive_perm(p) is Some {
            self.archive_perm(p)->0
        } else {
            DEFAULT_DIR_PERM
        }
    }

    /// The owner of `path`: an override, else the mounting user.
    pub open spec fn spec_uid(&self, path: Seq<char>) -> u32 {
        if self.modified_uids.spec_map().contains_key(path) {
            self.modified_uids.spec_map()[path]
        } else {
            self.uid
        }
    }

    /// The group of `path`: an override, else the mounting group.
    pub open spec fn spec_gid(&self, path: Seq<char>) -> u32 {
        if self.modified_gids.spec_map().contains_key(path) {
            self.modified_gids.spec_map()[path]
        } else {
            self.gid
        }
    }

    /// The permission bits stored for `path` in the archive.
    fn archive_perm_of(&self, path: &str) -> (r: Option<u32>)
        requires
            self.wf(),
        ensures
            r == self.archive_perm(path@),
    {
        match self.archive.find_entry_with_path(path) {
            Some((row, _, _)) => {
                let m = row.mode & PERM_MASK;
                if m != 0 {
                    Some(m)
                } else {
                    None
                }
            },
            None => None,
        }
    }

    /// The permission bits of a file (a pending chmod first, then the
    /// archive, then the default).
    pub fn get_file_mode(&self, path: &str) -> (r: u32)
        requires
            self.wf(),
        ensures
            r == self.spec_file_mode(path@),
    {
        match self.modified_modes.get(path) {
            Some(m) => *m,
            None => match self.archive_perm_of(path) {
                Some(m) => m,
                None => DEFAULT_FILE_PERM,
            },
        }
    }

    /// The permission bits of a directory by inode.
    pub fn get_dir_mode(&self, ino: u64) -> (r: u32)
        requires
            self.wf(),
        ensures
            r == self.spec_dir_mode(ino),
    {
        let path = self.get_dir_path(ino);
        match self.modified_modes.get(path.as_str()) {
            Some(m) => *m,
            None => {
                if !path.as_str().is_empty() {
                    match self.archive_perm_of(path.as_str()) {
                        Some(m) => {
                            return m;
                        },
                        None => {},
                    }
                }
                DEFAULT_DIR_PERM
            },
        }
    }

    /// Sets the permission bits of a directory (a pending change).
    pub fn set_dir_mode(&mut self, ino: u64, mode: u32)
        requires
            old(self).wf(),
        ensures
            final(self).wf(),
            final(self).modified_modes.spec_map() == old(self).modified_modes.spec_map().insert(
                dir_path_of(old(self).dirs(), ino),
                mode,
            ),
            final(self).dirs() == old(self).dirs(),
            final(self).archive == old(self).archive,
    {
        let path = self.get_dir_path(ino);
        self.modified_modes.insert(path, mode);
    }

    /// The owner of a file or symlink.
    pub fn get_uid(&self, path: &str) -> (r: u32)
        requires
            self.wf(),
        ensures
            r == self.spec_uid(path@),
    {
        match self.modified_uids.get(path) {
            Some(u) => *u,
            None => self.uid,
        }
    }

    /// The group of a file or symlink.
    pub fn get_gid(&self, path: &str) -> (r: u32)
        requires
            self.wf(),
        ensures
            r == self.spec_gid(path@),
    {
        match self.modified_gids.get(path) {
            Some(g) => *g,
            None => self.gid,
        }
    }

    /// The owner of a directory.
    pub fn get_dir_uid(&self, ino: u64) -> (r: u32)
        requires
            self.wf(),
        ensures
            r == self.spec_uid(dir_path_of(self.dirs(), ino)),
    {
        let path = self.get_dir_path(ino);
        self.get_uid(path.as_str())
    }

    /// The group of a directory.
    pub fn get_dir_gid(&self, ino: u64) -> (r: u32)
        requires
            self.wf(),
        ensures
            r == self.spec_gid(dir_path_of(self.dirs(), ino)),
    {
        let path = self.get_dir_path(ino);
        self.get_gid(path.as_str())
    }

    /// The modification time of directory `ino`: a pending change, else
    /// the recorded directory time, else the mount time.
    pub open spec fn spec_dir_mtime(&self, ino: u64) -> i64 {
        let p = dir_path_of(self.dirs(), ino);
        if self.modified_times.spec_map().contains_key(p) {
            self.modified_times.spec_map()[p]
        } else if self.dir_mtimes.spec_map().contains_key(ino) {
            self.dir_mtimes.spec_map()[ino]
        } else {
            self.mount_time
        }
    }

    /// The modification time of a directory by inode.
    pub fn get_dir_mtime(&self, ino: u64) -> (r: i64)
        requires
            self.wf(),
        ensures
            r == self.spec_dir_mtime(ino),
    {
        let path = self.get_dir_path(ino);
        match self.modified_times.get(path.as_str()) {
            Some(t) => *t,
            None => match self.dir_mtimes.get(ino) {
                Some(t) => *t,
                None => self.mount_time,
            },
        }
    }

    /// Sets the modification time of a directory (a pending change).
    pub fn set_dir_mtime(&mut self, ino: u64, mtime: i64)
        requires
            old(self).wf(),
        ensures
            final(self).wf(),
            final(self).modified_times.spec_map() == old(self).modified_times.spec_map().insert(
                dir_path_of(old(self).dirs(), ino),
                mtime,
            ),
            final(self).dirs() == old(self).dirs(),
            final(self).contents() == old(self).contents(),
            final(self).files() == old(self).files(),
            final(self).archive == old(self).archive,
            final(self).modified_modes == old(self).modified_modes,
            final(self).modified_uids == old(self).modified_uids,
            final(self).modified_gids == old(self).modified_gids,
            final(self).modified_data == old(self).modified_data,
            final(self).inode_to_path == old(self).inode_to_path,
            final(self).nlink_counts == old(self).nlink_counts,
            final(self).next_dir_ino == old(self).next_dir_ino,
            final(self).next_file_ino == old(self).next_file_ino,
    {
        let path = self.get_dir_path(ino);
        self.modified_times.insert(path, mtime);
    }

    /// The modification time of file `path`: a pending change, else the
    /// archive's (never before the epoch), else the mount time.
    pub open spec fn spec_file_mtime(&self, path: Seq<char>) -> i64 {
        if self.modified_times.spec_map().contains_key(path) {
            self.modified_times.spec_map()[path]
        } else {
            match self.archive.spec_lookup(encode_utf8(path)) {
                Some(t) => if t.0.modified_time < 0 {
                    0
                } else {
                    t.0.modified_time
                },
                None => self.mount_time,
            }
        }
    }

    /// A file's modification time: a pending change if there is one, else
    /// the modification time of the archive's entry for the path, never
    /// before the epoch (not its creation time), else the mount time.
    pub proof fn lemma_file_mtime(&self, path: Seq<char>)
        ensures
            self.modified_times.spec_map().contains_key(path) ==> self.spec_file_mtime(path)
                == self.modified_times.spec_map()[path],
            !self.modified_times.spec_map().contains_key(path) ==> match self.archive.spec_lookup(
                encode_utf8(path),
            ) {
                Some(t) => self.spec_file_mtime(path) == (if t.0.modified_time < 0 {
                    0
                } else {
                    t.0.modified_time
                }),
                None => self.spec_file_mtime(path) == self.mount_time,
            },
    {
    }

    /// The modification time of a file.
    pub fn get_file_mtime(&self, path: &str) -> (r: i64)
        requires
            self.wf(),
        ensures
            r == self.spec_file_mtime(path@),
            !self.modified_times.spec_map().contains_key(path@) ==> match self.archive.spec_lookup(
                encode_utf8(path@),
            ) {
                Some(t) => r == (if t.0.modified_time < 0 {
                    0
                } else {
                    t.0.modified_time
                }),
                None => r == self.mount_time,
            },
    {
        proof {
            self.lemma_file_mtime(path@);
        }
        match self.modified_times.get(path) {
            Some(t) => *t,
            None => match self.archive.find_entry_with_path(path) {
                Some((row, _, _)) => if row.modified_time < 0 {
                    0
                } else {
                    row.modified_time
                },
                None => self.mount_time,
            },
        }
    }

    /// Sets the modification time of a file (a pending change).
    pub fn set_file_mtime(&mut self, path: &str, mtime: i64)
        requires
            old(self).wf(),
        ensures
            final(self).wf(),
            final(self).modified_times.spec_map() == old(self).modified_times.spec_map().insert(
                path@,
                mtime,
            ),
            final(self).dirs() == old(self).dirs(),
            final(self).archive == old(self).archive,
    {
        self.modified_times.insert(path.to_owned(), mtime);
    }

    /// Whether `caller` may remove or rename `entry` in directory `parent`:
    /// always unless the directory is sticky; then only root, the
    /// directory's owner or the entry's owner may.
    pub open spec fn sticky_allows(&self, parent: u64, entry: Seq<char>, caller: u32) -> bool {
        !is_sticky(self.spec_dir_mode(parent)) || caller == 0 || caller == self.spec_uid(
            dir_path_of(self.dirs(), parent),
        ) || caller == self.spec_uid(entry)
    }

    /// Enforces the sticky-bit rule: `Denied` unless `sticky_allows`.
    fn check_sticky_bit(&self, parent_ino: u64, entry_path: &str, caller_uid: u32) -> (r: Result<
        (),
        Errno,
    >)
        requires
            self.wf(),
        ensures
            r is Ok <==> self.sticky_allows(parent_ino, entry_path@, caller_uid),
            r is Err ==> r == Err::<(), Errno>(Errno::Denied),
    {
        let parent_mode = self.get_dir_mode(parent_ino);
        if parent_mode & S_ISVTX == 0 {
            return Ok(());
        }
        if caller_uid == 0 {
            return Ok(());
        }
        let dir_uid = self.get_dir_uid(parent_ino);
        if caller_uid == dir_uid {
            return Ok(());
        }
        let entry_uid = self.get_uid(entry_path);
        if caller_uid == entry_uid {
            return Ok(());
        }
        Err(Errno::Denied)
    }
}

// ---------------------------------------------------------------------
// Attributes and creation
// ---------------------------------------------------------------------

/// Attributes with every time equal to `t`, no size and one link.
pub open spec fn plain_attr(ino: u64, kind: FileKind, perm: u16, t: i64, uid: u32, gid: u32) -> FileAttr {
    FileAttr {
        ino,
        size: 0,
        blocks: 0,
        atime: t,
        mtime: t,
        ctime: t,
        crtime: t,
        kind,
        perm,
        nlink: 1,
        uid,
        gid,
        rdev: 0,
        blksize: 4096,
        flags: 0,
    }
}

/// The entry `name` of directory listing `c`, given by its fields.
pub open spec fn entry_is(e: FuseDirEntry, name: Seq<char>, ino: u64, kind: FileKind) -> bool {
    e.name@ == name && e.ino == ino && e.kind == kind
}

impl FsState {
    /// The attributes `get_attr` reports for a directory or another node.
    pub open spec fn spec_attr(&self, ino: u64, kind: FileKind) -> FileAttr {
        let dp = dir_path_of(self.dirs(), ino);
        if kind == FileKind::Directory {
            plain_attr(
                ino,
                kind,
                self.spec_dir_mode(ino) as u16,
                self.spec_dir_mtime(ino),
                self.spec_uid(dp),
                self.spec_gid(dp),
            )
        } else {
            plain_attr(
                ino,
                kind,
                DEFAULT_FILE_PERM as u16,
                self.mount_time,
                self.spec_uid(dp),
                self.spec_gid(dp),
            )
        }
    }

    /// Attributes of a directory (or a node known only by inode).
    pub fn get_attr(&self, ino: u64, kind: FileKind) -> (a: FileAttr)
        requires
            self.wf(),
        ensures
            a == self.spec_attr(ino, kind),
    {
        let (perm, mtime) = if kind == FileKind::Directory {
            (self.get_dir_mode(ino) as u16, self.get_dir_mtime(ino))
        } else {
            (DEFAULT_FILE_PERM as u16, self.mount_time)
        };
        FileAttr {
            ino,
            size: 0,
            blocks: 0,
            atime: mtime,
            mtime,
            ctime: mtime,
            crtime: mtime,
            kind,
            perm,
            nlink: 1,
            uid: self.get_dir_uid(ino),
            gid: self.get_dir_gid(ino),
            rdev: 0,
            blksize: 4096,
            flags: 0,
        }
    }

    /// Why `name` cannot be created in directory `parent`, checked in
    /// order: the name, the parent, the path's length and validity, a node
    /// already there.
    pub open spec fn create_error(&self, parent: u64, name: Seq<char>) -> Option<Errno> {
        let full = self.child_path(parent, name);
        if name_error(name) is Some {
            name_error(name)
        } else if !self.contents().contains_key(parent) {
            Some(Errno::NotFound)
        } else if self.too_long(full) {
            Some(Errno::NameTooLong)
        } else if normalize_chars(full) is None {
            Some(Errno::Invalid)
        } else if self.dirs().contains_key(full) || self.files().contains_key(full) {
            Some(Errno::Exists)
        } else {
            None
        }
    }

    /// The checks shared by the operations that create `name` in `parent`;
    /// returns the new node's full path.
    fn check_new_name(&self, parent_ino: u64, name: &str) -> (r: Result<String, Errno>)
        requires
            self.wf(),
        ensures
            match self.create_error(parent_ino, name@) {
                Some(e) => r == Err::<String, Errno>(e),
                None => r matches Ok(p) && p@ == self.child_path(parent_ino, name@),
            },
    {
        match validate_name(name) {
            Err(e) => {
                return Err(e);
            },
            Ok(()) => {},
        }
        if !self.dir_contents.contains(parent_ino) {
            return Err(Errno::NotFound);
        }
        let parent_path = self.get_dir_path(parent_ino);
        let full_path = join_text(parent_path.as_str(), name);
        match self.validate_path_length(full_path.as_str()) {
            Err(e) => {
                return Err(e);
            },
            Ok(()) => {},
        }
        match validate_archive_path(full_path.as_str()) {
            Err(e) => {
                return Err(e);
            },
            Ok(()) => {},
        }
        if self.dir_inodes.contains(full_path.as_str()) {
            return Err(Errno::Exists);
        }
        if self.path_to_inode.contains(full_path.as_str()) {
            return Err(Errno::Exists);
        }
        Ok(full_path)
    }

    /// Appends `entry` to the listing of directory `dir`.
    fn push_entry(table: &mut InoTable<Vec<FuseDirEntry>>, dir: u64, entry: FuseDirEntry)
        requires
            old(table).wf(),
            old(table).spec_map().contains_key(dir),
        ensures
            final(table).wf(),
            final(table).spec_map().dom() == old(table).spec_map().dom(),
            final(table).spec_map()[dir]@ == old(table).spec_map()[dir]@.push(entry),
            forall|k: u64| k != dir ==> #[trigger] final(table).spec_map()[k] == old(table).spec_map()[k],
    {
        let ghost before = table.spec_map();
        match table.remove(dir) {
            Some(mut list) => {
                list.push(entry);
                table.insert(dir, list);
                proof {
                    assert(table.spec_map() =~= before.insert(dir, table.spec_map()[dir]));
                    assert(table.spec_map().dom() =~= before.dom());
                }
            },
            None => {},
        }
    }

    /// Removes every entry named `name` from the listing of directory `dir`.
    fn drop_entry(table: &mut InoTable<Vec<FuseDirEntry>>, dir: u64, name: &str)
        requires
            old(table).wf(),
        ensures
            final(table).wf(),
            final(table).spec_map().dom() == old(table).spec_map().dom(),
            old(table).spec_map().contains_key(dir) ==> final(table).spec_map()[dir]@ == old(
                table,
            ).spec_map()[dir]@.filter(|e: FuseDirEntry| e.name@ != name@),
            forall|k: u64| k != dir ==> #[trigger] final(table).spec_map()[k] == old(table).spec_map()[k],
    {
        let ghost before = table.spec_map();
        let key = name.to_owned();
        match table.remove(dir) {
            Some(list) => {
                let mut kept: Vec<FuseDirEntry> = Vec::new();
                let mut i: usize = 0;
                while i < list.len()
                    invariant
                        i <= list@.len(),
                        kept@ == list@.take(i as int).filter(|e: FuseDirEntry| e.name@ != key@),
                    decreases list@.len() - i,
                {
                    proof {
                        reveal(Seq::filter);
                        assert(list@.take(i + 1).drop_last() =~= list@.take(i as int));
                    }
                    if list[i].name != key {
                        kept.push(list[i].copy());
                    }
                    i = i + 1;
                }
                proof {
                    assert(list@.take(list@.len() as int) =~= list@);
                }
                table.insert(dir, kept);
                proof {
                    assert(table.spec_map() =~= before.insert(dir, table.spec_map()[dir]));
                    assert(table.spec_map().dom() =~= before.dom());
                }
            },
            None => {},
        }
    }
}

impl FsState {
    /// Everything but the listings, the directory map and the pending
    /// times is as in `old`.
    pub open spec fn same_except_dirs(&self, old: &FsState) -> bool {
        &&& self.files() == old.files()
        &&& self.modified_modes == old.modified_modes
        &&& self.modified_uids == old.modified_uids
        &&& self.modified_gids == old.modified_gids
        &&& self.modified_data == old.modified_data
        &&& self.inode_to_path == old.inode_to_path
        &&& self.nlink_counts == old.nlink_counts
        &&& self.next_file_ino == old.next_file_ino
        &&& self.uid == old.uid
        &&& self.gid == old.gid
        &&& self.mount_time == old.mount_time
    }

    /// Creates directory `name` in `parent_ino` with permission bits
    /// `mode`: a new directory inode, an empty listing, an entry in the
    /// parent's listing, a directory entry in the archive, and the parent's
    /// modification time set to now. Returns the inode and its attributes.
    pub fn create_directory(&mut self, parent_ino: u64, name: &str, mode: u32) -> (r: Result<
        (u64, FileAttr),
        Errno,
    >)
        requires
            old(self).wf(),
        ensures
            final(self).wf(),
            create_dir_post(*old(self), *final(self), parent_ino, name@, mode, r),
    {
        let full_path = match self.check_new_name(parent_ino, name) {
            Err(e) => {
                return Err(e);
            },
            Ok(p) => p,
        };
        if self.next_dir_ino == u64::MAX || !self.archive.has_room_for(0) {
            return Err(Errno::Io);
        }
        let ghost old_state = *self;
        let ghost parent_path = dir_path_of(self.dirs(), parent_ino);
        let ino = self.next_dir_ino;
        self.next_dir_ino = ino + 1;
        proof {
            assert forall|p: Seq<char>| #[trigger] self.dirs().contains_key(p) implies self.dirs()[p]
                != ino by {}
        }
        self.dir_inodes.insert(full_path.clone(), ino);
        proof {
            let m = self.dirs();
            assert forall|p: Seq<char>, q: Seq<char>|
                #![trigger m[p], m[q]]
                m.contains_key(p) && m.contains_key(q) && m[p] == m[q] implies p == q by {
                if p != full_path@ && q != full_path@ {
                    assert(old_state.dirs()[p] == m[p]);
                    assert(old_state.dirs()[q] == m[q]);
                }
            }
            assert(dir_path_of(self.dirs(), parent_ino) == parent_path) by {
                lemma_dir_path_after_insert(old_state.dirs(), full_path@, ino, parent_ino);
            }
        }
        self.dir_contents.insert(ino, Vec::new());
        let entry = FuseDirEntry::directory(name, ino);
        Self::push_entry(&mut self.dir_contents, parent_ino, entry);
        proof {
            assert(self.dirs() =~= old_state.dirs().insert(full_path@, ino));
            assert(self.contents().dom() =~= old_state.contents().dom().insert(ino));
            assert(self.contents()[ino]@ =~= Seq::<FuseDirEntry>::empty());
            assert(self.contents()[parent_ino]@.drop_last() =~= old_state.contents()[parent_ino]@);
        }
        let archive_mode = S_IFDIR | (mode & PERM_MASK);
        match self.archive.add_directory(full_path.as_str(), archive_mode) {
            Err(_) => {
                return Err(Errno::Io);
            },
            Ok(()) => {},
        }
        let ghost before_touch = self.modified_times.spec_map();
        let parent_path = self.get_dir_path(parent_ino);
        touch(&mut self.modified_times, parent_path);
        proof {
            assert(self.modified_times.spec_map().dom() =~= before_touch.dom().insert(parent_path@));
        }
        let attr = self.get_attr(ino, FileKind::Directory);
        Ok((ino, attr))
    }
}

/// Adding a path for a fresh inode leaves the paths of other inodes as
/// they were.
proof fn lemma_dir_path_after_insert(m: Map<Seq<char>, u64>, p: Seq<char>, ino: u64, other: u64)
    requires
        inos_unique(m),
        !m.contains_key(p),
        forall|q: Seq<char>| #[trigger] m.contains_key(q) ==> m[q] != ino,
        other != ino,
    ensures
        dir_path_of(m.insert(p, ino), other) == dir_path_of(m, other),
{
    let m2 = m.insert(p, ino);
    if other != ROOT_INO {
        if has_path_for(m, other) {
            let q = dir_path_of(m, other);
            assert(m2.contains_key(q) && m2[q] == other);
            assert(has_path_for(m2, other));
            let q2 = dir_path_of(m2, other);
            assert(m2.contains_key(q2) && m2[q2] == other);
            assert(q2 != p);
            assert(m[q2] == m[q]);
        } else {
            if has_path_for(m2, other) {
                let q2 = dir_path_of(m2, other);
                assert(m2.contains_key(q2) && m2[q2] == other);
                assert(m.contains_key(q2) && m[q2] == other);
            }
        }
    }
}

/// `size` in 512-byte blocks, rounded up.
pub open spec fn blocks_of(size: u64) -> u64 {
    (size / 512 + if size % 512 != 0 {
        1u64
    } else {
        0u64
    }) as u64
}

/// A timestamp, never before the epoch.
pub open spec fn not_before_epoch(t: i64) -> i64 {
    if t < 0 {
        0
    } else {
        t
    }
}

impl FsState {
    /// The attributes `get_attr_for_file` reports for a file or symlink
    /// with entry row `row` at `path`.
    pub open spec fn spec_file_attr(&self, ino: u64, kind: FileKind, row: EntryRow, path: Seq<char>) -> FileAttr {
        let perm = row.mode & PERM_MASK;
        let mtime = if self.modified_times.spec_map().contains_key(path) {
            self.modified_times.spec_map()[path]
        } else {
            not_before_epoch(row.modified_time)
        };
        let ctime = not_before_epoch(row.created_time);
        FileAttr {
            ino,
            size: row.file_size,
            blocks: blocks_of(row.file_size),
            atime: mtime,
            mtime,
            ctime,
            crtime: ctime,
            kind,
            perm: if perm == 0 {
                DEFAULT_FILE_PERM as u16
            } else {
                perm as u16
            },
            nlink: if self.nlink_counts.spec_map().contains_key(ino) {
                self.nlink_counts.spec_map()[ino]
            } else {
                1
            },
            uid: self.spec_uid(path),
            gid: self.spec_gid(path),
            rdev: 0,
            blksize: 4096,
            flags: 0,
        }
    }

    /// The times a file's attributes report: with no pending time change
    /// for its path, the modification (and access) time is the entry's
    /// modification time, never before the epoch, whatever its creation
    /// time; the change and creation times are the entry's creation time,
    /// never before the epoch; a pending change sets the modification time.
    pub proof fn lemma_file_attr_times(&self, ino: u64, kind: FileKind, row: EntryRow, path: Seq<char>)
        ensures
            !self.modified_times.spec_map().contains_key(path) ==> self.spec_file_attr(
                ino,
                kind,
                row,
                path,
            ).mtime == (if row.modified_time < 0 {
                0
            } else {
                row.modified_time
            }),
            self.modified_times.spec_map().contains_key(path) ==> self.spec_file_attr(
                ino,
                kind,
                row,
                path,
            ).mtime == self.modified_times.spec_map()[path],
            self.spec_file_attr(ino, kind, row, path).atime == self.spec_file_attr(ino, kind, row, path).mtime,
            self.spec_file_attr(ino, kind, row, path).ctime == (if row.created_time < 0 {
                0
            } else {
                row.created_time
            }),
            self.spec_file_attr(ino, kind, row, path).crtime == self.spec_file_attr(ino, kind, row, path).ctime,
            forall|t: i64|
                #[trigger] self.spec_file_attr(ino, kind, EntryRow { created_time: t, ..row }, path).mtime
                    == self.spec_file_attr(ino, kind, row, path).mtime,
    {
    }

    /// The rest of a file's attributes: its inode and kind as given, the
    /// entry's file size in 512-byte blocks rounded up, the entry's
    /// permission bits (`0o644` when it has none), the recorded link count
    /// (one when none is recorded), and the owner and group (a pending
    /// change, else the mount's).
    pub proof fn lemma_file_attr_fields(&self, ino: u64, kind: FileKind, row: EntryRow, path: Seq<char>)
        ensures
            ({
                let a = self.spec_file_attr(ino, kind, row, path);
                &&& a.ino == ino
                &&& a.kind == kind
                &&& a.size == row.file_size
                &&& a.blocks * 512 >= row.file_size
                &&& a.blocks * 512 < row.file_size + 512
                &&& a.perm == (if row.mode & 0o7777 == 0 {
                    0o644u16
                } else {
                    (row.mode & 0o7777) as u16
                })
                &&& a.nlink == (if self.nlink_counts.spec_map().contains_key(ino) {
                    self.nlink_counts.spec_map()[ino]
                } else {
                    1
                })
                &&& a.uid == (if self.modified_uids.spec_map().contains_key(path) {
                    self.modified_uids.spec_map()[path]
                } else {
                    self.uid
                })
                &&& a.gid == (if self.modified_gids.spec_map().contains_key(path) {
                    self.modified_gids.spec_map()[path]
                } else {
                    self.gid
                })
            }),
    {
        let n = row.file_size;
        let b = blocks_of(n);
        assert(b * 512 >= n && b * 512 < n + 512) by (nonlinear_arith)
            requires
                b == (n / 512 + if n % 512 != 0 {
                    1u64
                } else {
                    0u64
                }) as u64,
        ;
    }

    /// Attributes of a file or symlink from its entry row.
    pub fn get_attr_for_file(&self, ino: u64, kind: FileKind, entry_row: &EntryRow, path: &str) -> (a:
        FileAttr)
        requires
            self.wf(),
        ensures
            a == self.spec_file_attr(ino, kind, *entry_row, path@),
            !self.modified_times.spec_map().contains_key(path@) ==> a.mtime == (if entry_row.modified_time
                < 0 {
                0
            } else {
                entry_row.modified_time
            }),
            a.ctime == (if entry_row.created_time < 0 {
                0
            } else {
                entry_row.created_time
            }),
    {
        proof {
            self.lemma_file_attr_times(ino, kind, *entry_row, path@);
        }
        let perm = entry_row.mode & PERM_MASK;
        let size = entry_row.file_size;
        let nlink = match self.nlink_counts.get(ino) {
            Some(n) => *n,
            None => 1,
        };
        let mtime = match self.modified_times.get(path) {
            Some(t) => *t,
            None => if entry_row.modified_time < 0 {
                0
            } else {
                entry_row.modified_time
            },
        };
        let ctime = if entry_row.created_time < 0 {
            0
        } else {
            entry_row.created_time
        };
        let blocks = size / 512 + if size % 512 != 0 {
            1
        } else {
            0
        };
        FileAttr {
            ino,
            size,
            blocks,
            atime: mtime,
            mtime,
            ctime,
            crtime: ctime,
            kind,
            perm: if perm == 0 {
                DEFAULT_FILE_PERM as u16
            } else {
                perm as u16
            },
            nlink,
            uid: self.get_uid(path),
            gid: self.get_gid(path),
            rdev: 0,
            blksize: 4096,
            flags: 0,
        }
    }

    /// Creates an empty regular file `name` in `parent_ino` with permission
    /// bits `mode`: a new file inode, its path, an entry in the parent's
    /// listing, empty pending contents, an empty entry in the archive, and
    /// the parent's modification time set to now.
    pub fn create_file(&mut self, parent_ino: u64, name: &str, mode: u32) -> (r: Result<
        (u64, FileAttr),
        Errno,
    >)
        requires
            old(self).wf(),
        ensures
            final(self).wf(),
            create_file_post(*old(self), *final(self), parent_ino, name@, mode, r),
    {
        let full_path = match self.check_new_name(parent_ino, name) {
            Err(e) => {
                return Err(e);
            },
            Ok(p) => p,
        };
        if self.next_file_ino == u64::MAX || !self.archive.has_room_for(0) {
            return Err(Errno::Io);
        }
        let ghost old_state = *self;
        let ino = self.next_file_ino;
        self.next_file_ino = ino + 1;
        self.inode_to_path.insert(ino, full_path.clone());
        self.path_to_inode.insert(full_path.clone(), ino);
        let entry = FuseDirEntry::file(name, ino);
        Self::push_entry(&mut self.dir_contents, parent_ino, entry);
        self.modified_data.insert(full_path.clone(), Vec::new());
        proof {
            assert(self.files() =~= old_state.files().insert(full_path@, ino));
            assert(self.inode_to_path.spec_map().dom() =~= old_state.inode_to_path.spec_map().dom().insert(ino));
            assert(self.modified_data.spec_map().dom() =~= old_state.modified_data.spec_map().dom().insert(full_path@));
            assert(self.modified_data.spec_map()[full_path@]@ =~= Seq::<u8>::empty());
            assert(self.contents().dom() =~= old_state.contents().dom());
            assert(self.contents()[parent_ino]@.drop_last() =~= old_state.contents()[parent_ino]@);
        }
        let archive_mode = S_IFREG | (mode & PERM_MASK);
        let empty: [u8; 0] = [];
        proof {
            assert(empty@ =~= Seq::<u8>::empty());
        }
        match self.archive.add_entry(full_path.as_str(), &empty, archive_mode) {
            Err(_) => {
                return Err(Errno::Io);
            },
            Ok(()) => {},
        }
        let parent_path = self.get_dir_path(parent_ino);
        touch(&mut self.modified_times, parent_path);
        assert(mode & 0o7777u32 <= 0o7777u32) by (bit_vector);
        let perm = (mode & PERM_MASK) as u16;
        let attr = FileAttr {
            ino,
            size: 0,
            blocks: 0,
            atime: self.mount_time,
            mtime: self.mount_time,
            ctime: self.mount_time,
            crtime: self.mount_time,
            kind: FileKind::RegularFile,
            perm: if perm == 0 {
                DEFAULT_FILE_PERM as u16
            } else {
                perm
            },
            nlink: 1,
            uid: self.get_uid(full_path.as_str()),
            gid: self.get_gid(full_path.as_str()),
            rdev: 0,
            blksize: 4096,
            flags: 0,
        };
        Ok((ino, attr))
    }
}

impl FsState {
    /// Why `name` cannot be removed from `parent` as a file, checked in
    /// order: the parent, the file, a directory of that name, the sticky
    /// bit.
    pub open spec fn remove_file_error(&self, parent: u64, name: Seq<char>, caller: u32) -> Option<
        Errno,
    > {
        let full = self.child_path(parent, name);
        if !self.contents().contains_key(parent) {
            Some(Errno::NotFound)
        } else if !self.files().contains_key(full) {
            Some(Errno::NotFound)
        } else if self.dirs().contains_key(full) {
            Some(Errno::IsDirectory)
        } else if !self.sticky_allows(parent, full, caller) {
            Some(Errno::Denied)
        } else {
            None
        }
    }

    /// The link count of file inode `ino` (1 when none is recorded).
    pub open spec fn spec_nlink(&self, ino: u64) -> u32 {
        if self.nlink_counts.spec_map().contains_key(ino) {
            self.nlink_counts.spec_map()[ino]
        } else {
            1
        }
    }

    /// The first path in the file map's order that has inode `ino`.
    fn other_path_of(&self, ino: u64) -> (r: Option<String>)
        requires
            self.wf(),
        ensures
            r is None <==> !has_path_for(self.files(), ino),
            r matches Some(p) ==> self.files().contains_key(p@) && self.files()[p@] == ino,
    {
        let keys = self.path_to_inode.keys();
        let ghost m = self.files();
        let mut i: usize = 0;
        while i < keys.len()
            invariant
                self.wf(),
                m == self.files(),
                i <= keys@.len(),
                forall|k: Seq<char>|
                    m.contains_key(k) <==> exists|j: int| 0 <= j < keys@.len() && #[trigger] keys@[j]@ == k,
                forall|j: int| 0 <= j < i ==> m[#[trigger] keys@[j]@] != ino,
            decreases keys@.len() - i,
        {
            match self.path_to_inode.get(keys[i].as_str()) {
                Some(v) => {
                    if *v == ino {
                        let r = keys[i].as_str().to_owned();
                        return Some(r);
                    }
                },
                None => {},
            }
            i = i + 1;
        }
        proof {
            if has_path_for(m, ino) {
                let q = choose|q: Seq<char>| m.contains_key(q) && #[trigger] m[q] == ino;
                let j = choose|j: int| 0 <= j < keys@.len() && #[trigger] keys@[j]@ == q;
                assert(m[keys@[j]@] != ino);
            }
        }
        None
    }

    /// Removes file (or symlink) `name` from `parent_ino`: its path, its
    /// entry in the listing and its directory record in the archive go;
    /// when other links remain the link count drops by one and the inode's
    /// path moves to a remaining link, else the inode, its link count and
    /// its pending contents go too. The parent's modification time is set
    /// to now.
    pub fn remove_file(&mut self, parent_ino: u64, name: &str, caller_uid: u32) -> (r: Result<
        (),
        Errno,
    >)
        requires
            old(self).wf(),
        ensures
            final(self).wf(),
            match old(self).remove_file_error(parent_ino, name@, caller_uid) {
                Some(e) => r == Err::<(), Errno>(e) && *final(self) == *old(self),
                None => {
                    let full = old(self).child_path(parent_ino, name@);
                    let ino = old(self).files()[full];
                    let n = old(self).spec_nlink(ino);
                    &&& r is Ok
                    &&& final(self).files() == old(self).files().remove(full)
                    &&& final(self).dirs() == old(self).dirs()
                    &&& final(self).contents().dom() == old(self).contents().dom()
                    &&& final(self).contents()[parent_ino]@ == old(self).contents()[parent_ino]@.filter(|e: FuseDirEntry| e.name@ != name@)
                    &&& forall|k: u64|
                        k != parent_ino ==> #[trigger] final(self).contents()[k] == old(self).contents()[k]
                    &&& n > 1 ==> {
                        &&& final(self).nlink_counts.spec_map() == old(self).nlink_counts.spec_map().insert(ino, (n - 1) as u32)
                        &&& final(self).modified_data == old(self).modified_data
                        &&& (old(self).inode_to_path.spec_map().contains_key(ino) && old(self).inode_to_path.spec_map()[ino]@ == full) ==> (if has_path_for(
                            final(self).files(),
                            ino,
                        ) {
                            &&& final(self).inode_to_path.spec_map().contains_key(ino)
                            &&& final(self).files()[final(self).inode_to_path.spec_map()[ino]@]
                                == ino
                            &&& final(self).files().contains_key(
                                final(self).inode_to_path.spec_map()[ino]@,
                            )
                        } else {
                            final(self).inode_to_path.spec_map() == old(self).inode_to_path.spec_map().remove(ino)
                        })
                    }
                    &&& n <= 1 ==> {
                        &&& final(self).inode_to_path.spec_map() == old(self).inode_to_path.spec_map().remove(ino)
                        &&& final(self).nlink_counts.spec_map() == old(self).nlink_counts.spec_map().remove(ino)
                        &&& final(self).modified_data.spec_map() == old(self).modified_data.spec_map().remove(full)
                    }
                    &&& final(self).modified_times.spec_map().dom() == old(self).modified_times.spec_map().dom().insert(dir_path_of(old(self).dirs(), parent_ino))
                }
            },
    {
        if !self.dir_contents.contains(parent_ino) {
            return Err(Errno::NotFound);
        }
        let parent_path = self.get_dir_path(parent_ino);
        let full_path = join_text(parent_path.as_str(), name);
        let file_ino = match self.path_to_inode.get(full_path.as_str()) {
            Some(i) => *i,
            None => {
                return Err(Errno::NotFound);
            },
        };
        if self.dir_inodes.contains(full_path.as_str()) {
            return Err(Errno::IsDirectory);
        }
        match self.check_sticky_bit(parent_ino, full_path.as_str(), caller_uid) {
            Err(e) => {
                return Err(e);
            },
            Ok(()) => {},
        }
        self.path_to_inode.remove(full_path.as_str());
        Self::drop_entry(&mut self.dir_contents, parent_ino, name);
        let nlink = match self.nlink_counts.get(file_ino) {
            Some(n) => *n,
            None => 1,
        };
        if nlink > 1 {
            self.nlink_counts.insert(file_ino, nlink - 1);
            let points_here = match self.inode_to_path.get(file_ino) {
                Some(p) => *p == full_path,
                None => false,
            };
            if points_here {
                match self.other_path_of(file_ino) {
                    Some(alt) => {
                        self.inode_to_path.insert(file_ino, alt);
                    },
                    None => {
                        self.inode_to_path.remove(file_ino);
                    },
                }
            }
        } else {
            self.inode_to_path.remove(file_ino);
            self.nlink_counts.remove(file_ino);
            self.modified_data.remove(full_path.as_str());
        }
        let _ = self.archive.unlink(full_path.as_str());
        touch(&mut self.modified_times, parent_path);
        Ok(())
    }

    /// Why directory `name` cannot be removed from `parent`, checked in
    /// order: the parent, the directory, a file of that name, its
    /// listing, the sticky bit.
    pub open spec fn remove_dir_error(&self, parent: u64, name: Seq<char>, caller: u32) -> Option<
        Errno,
    > {
        let full = self.child_path(parent, name);
        if !self.contents().contains_key(parent) {
            Some(Errno::NotFound)
        } else if !self.dirs().contains_key(full) {
            Some(Errno::NotFound)
        } else if self.files().contains_key(full) {
            Some(Errno::NotDirectory)
        } else if self.contents().contains_key(self.dirs()[full])
            && self.contents()[self.dirs()[full]]@.len() > 0 {
            Some(Errno::NotEmpty)
        } else if !self.sticky_allows(parent, full, caller) {
            Some(Errno::Denied)
        } else {
            None
        }
    }

    /// Removes empty directory `name` from `parent_ino`: its path, its
    /// listing, its entry in the parent's listing and its archive entry go,
    /// and the parent's modification time is set to now.
    pub fn remove_directory(&mut self, parent_ino: u64, name: &str, caller_uid: u32) -> (r: Result<
        (),
        Errno,
    >)
        requires
            old(self).wf(),
        ensures
            final(self).wf(),
            match old(self).remove_dir_error(parent_ino, name@, caller_uid) {
                Some(e) => r == Err::<(), Errno>(e) && *final(self) == *old(self),
                None => {
                    let full = old(self).child_path(parent_ino, name@);
                    let ino = old(self).dirs()[full];
                    &&& r is Ok
                    &&& final(self).dirs() == old(self).dirs().remove(full)
                    &&& final(self).files() == old(self).files()
                    &&& final(self).contents().dom() == old(self).contents().dom().remove(ino)
                    &&& ino != parent_ino ==> final(self).contents()[parent_ino]@ == old(self).contents()[parent_ino]@.filter(|e: FuseDirEntry| e.name@ != name@)
                    &&& forall|k: u64|
                        k != parent_ino && k != ino ==> #[trigger] final(self).contents()[k] == old(self).contents()[k]
                    &&& final(self).modified_times.spec_map().dom() == old(self).modified_times.spec_map().dom().insert(dir_path_of(old(self).dirs(), parent_ino))
                }
            },
    {
        if !self.dir_contents.contains(parent_ino) {
            return Err(Errno::NotFound);
        }
        let parent_path = self.get_dir_path(parent_ino);
        let full_path = join_text(parent_path.as_str(), name);
        let dir_ino = match self.dir_inodes.get(full_path.as_str()) {
            Some(i) => *i,
            None => {
                return Err(Errno::NotFound);
            },
        };
        if self.path_to_inode.contains(full_path.as_str()) {
            return Err(Errno::NotDirectory);
        }
        match self.dir_contents.get(dir_ino) {
            Some(c) => {
                if c.len() > 0 {
                    return Err(Errno::NotEmpty);
                }
            },
            None => {},
        }
        match self.check_sticky_bit(parent_ino, full_path.as_str(), caller_uid) {
            Err(e) => {
                return Err(e);
            },
            Ok(()) => {},
        }
        let ghost before = self.dirs();
        self.dir_inodes.remove(full_path.as_str());
        proof {
            let m = self.dirs();
            assert forall|p: Seq<char>, q: Seq<char>|
                #![trigger m[p], m[q]]
                m.contains_key(p) && m.contains_key(q) && m[p] == m[q] implies p == q by {
                assert(before[p] == m[p] && before[q] == m[q]);
            }
        }
        self.dir_contents.remove(dir_ino);
        Self::drop_entry(&mut self.dir_contents, parent_ino, name);
        let _ = self.archive.delete(full_path.as_str());
        touch(&mut self.modified_times, parent_path);
        proof {
            assert(self.contents().dom() =~= old(self).contents().dom().remove(dir_ino));
        }
        Ok(())
    }
}

impl FsState {
    /// Why a hard link `name` in `parent` to file inode `ino` cannot be
    /// made, checked in order: the name, the source inode, the parent, the
    /// path's length and validity, a node already there.
    pub open spec fn link_error(&self, ino: u64, parent: u64, name: Seq<char>) -> Option<Errno> {
        let full = self.child_path(parent, name);
        if name_error(name) is Some {
            name_error(name)
        } else if !self.inode_to_path.spec_map().contains_key(ino) {
            Some(Errno::NotFound)
        } else if !self.contents().contains_key(parent) {
            Some(Errno::NotFound)
        } else if self.too_long(full) {
            Some(Errno::NameTooLong)
        } else if normalize_chars(full) is None {
            Some(Errno::Invalid)
        } else if self.files().contains_key(full) || self.dirs().contains_key(full) {
            Some(Errno::Exists)
        } else {
            None
        }
    }

    /// Makes `new_name` in `new_parent_ino` a hard link to file inode
    /// `ino`: the archive gets a second directory record for the entry,
    /// the new path shares the inode, the link count grows by one, the
    /// parent's listing gets the entry and its modification time is set to
    /// now. Returns the inode and its attributes.
    pub fn create_hard_link(&mut self, ino: u64, new_parent_ino: u64, new_name: &str) -> (r: Result<
        (u64, FileAttr),
        Errno,
    >)
        requires
            old(self).wf(),
        ensures
            final(self).wf(),
            hard_link_post(*old(self), *final(self), ino, new_parent_ino, new_name@, r),
    {
        match validate_name(new_name) {
            Err(e) => {
                return Err(e);
            },
            Ok(()) => {},
        }
        let source_path = match self.inode_to_path.get(ino) {
            Some(p) => p.as_str().to_owned(),
            None => {
                return Err(Errno::NotFound);
            },
        };
        if !self.dir_contents.contains(new_parent_ino) {
            return Err(Errno::NotFound);
        }
        let parent_path = self.get_dir_path(new_parent_ino);
        let full_path = join_text(parent_path.as_str(), new_name);
        match self.validate_path_length(full_path.as_str()) {
            Err(e) => {
                return Err(e);
            },
            Ok(()) => {},
        }
        match validate_archive_path(full_path.as_str()) {
            Err(e) => {
                return Err(e);
            },
            Ok(()) => {},
        }
        if self.path_to_inode.contains(full_path.as_str()) {
            return Err(Errno::Exists);
        }
        if self.dir_inodes.contains(full_path.as_str()) {
            return Err(Errno::Exists);
        }
        let count = match self.nlink_counts.get(ino) {
            Some(n) => *n,
            None => 1,
        };
        if count == u32::MAX {
            return Err(Errno::Io);
        }
        match self.archive.hard_link(source_path.as_str(), full_path.as_str()) {
            Err(_) => {
                return Err(Errno::Io);
            },
            Ok(()) => {},
        }
        self.path_to_inode.insert(full_path.clone(), ino);
        self.nlink_counts.insert(ino, count + 1);
        let entry = FuseDirEntry::file(new_name, ino);
        Self::push_entry(&mut self.dir_contents, new_parent_ino, entry);
        touch(&mut self.modified_times, parent_path);
        let attr = match self.archive.find_entry_with_path(full_path.as_str()) {
            Some((row, _, _)) => self.get_attr_for_file(
                ino,
                FileKind::RegularFile,
                row,
                full_path.as_str(),
            ),
            None => self.get_attr(ino, FileKind::RegularFile),
        };
        proof {
            let full = old(self).child_path(new_parent_ino, new_name@);
            let source = old(self).inode_to_path.spec_map()[ino]@;
            assert(self.files() =~= old(self).files().insert(full, ino));
            assert(self.nlink_counts.spec_map() =~= old(self).nlink_counts.spec_map().insert(
                ino,
                (count + 1) as u32,
            ));
            assert(self.contents().dom() =~= old(self).contents().dom());
            assert(self.contents()[new_parent_ino]@.drop_last() =~= old(
                self,
            ).contents()[new_parent_ino]@);
            assert(self.archive.spec_dirs() =~= old(self).archive.spec_dirs().push(
                old(self).archive.hard_link_outcome(encode_utf8(source), full)->Ok_0,
            ));
        }
        Ok((ino, attr))
    }
}

/// `m` with the value of `from` moved to `to` (unchanged when `from` is
/// not a key).
pub open spec fn moved_key<V>(m: Map<Seq<char>, V>, from: Seq<char>, to: Seq<char>) -> Map<Seq<char>, V> {
    if m.contains_key(from) {
        m.remove(from).insert(to, m[from])
    } else {
        m
    }
}

/// Moves the value of `from` to `to` in `t`.
fn move_key<V>(t: &mut NameTable<V>, from: &str, to: &str)
    requires
        old(t).wf(),
    ensures
        final(t).wf(),
        final(t).spec_map() == moved_key(old(t).spec_map(), from@, to@),
{
    let ghost m = t.spec_map();
    match t.remove(from) {
        Some(v) => {
            t.insert(to.to_owned(), v);
        },
        None => {
            proof {
                assert(t.spec_map() =~= m);
            }
        },
    }
}

/// Whether `prefix` is a prefix of `s`.
pub open spec fn starts_with(s: Seq<char>, prefix: Seq<char>) -> bool {
    prefix.len() <= s.len() && s.subrange(0, prefix.len() as int) == prefix
}

/// `s` with its first `n` characters replaced by `to`.
pub open spec fn with_prefix_replaced(s: Seq<char>, n: int, to: Seq<char>) -> Seq<char> {
    to + s.subrange(n, s.len() as int)
}

/// Whether `prefix` is a prefix of `s`.
fn has_prefix(s: &str, prefix: &str) -> (b: bool)
    ensures
        b == starts_with(s@, prefix@),
{
    let cs = chars_of(s);
    let ps = chars_of(prefix);
    if ps.len() > cs.len() {
        return false;
    }
    let mut i: usize = 0;
    while i < ps.len()
        invariant
            i <= ps@.len() <= cs@.len(),
            cs@ == s@,
            ps@ == prefix@,
            forall|j: int| 0 <= j < i ==> cs@[j] == ps@[j],
        decreases ps@.len() - i,
    {
        if cs[i] != ps[i] {
            return false;
        }
        i = i + 1;
    }
    assert(s@.subrange(0, prefix@.len() as int) =~= prefix@);
    true
}

/// `to` followed by `s` without its first `n` characters.
fn replace_prefix(s: &str, n: usize, to: &str) -> (r: String)
    requires
        n <= s@.len(),
    ensures
        r@ == with_prefix_replaced(s@, n as int, to@),
{
    let len = s.unicode_len();
    let rest = s.substring_char(n, len);
    let mut r = to.to_owned();
    r.append(rest);
    r
}

/// `path` followed by `/`.
fn with_slash(path: &str) -> (r: String)
    ensures
        r@ == path@ + seq!['/'],
{
    let mut r = path.to_owned();
    proof {
        reveal_strlit("/");
    }
    r.append("/");
    assert("/"@ =~= seq!['/']);
    r
}

impl FsState {
    /// Why `old_name` in `old_parent` cannot be renamed to `new_name` in
    /// `new_parent`, checked in order: the new name, both parents, the new
    /// path's length and validity, the source, the sticky bit, a directory
    /// at the destination, a file at the destination when the source is a
    /// directory.
    pub open spec fn rename_error(
        &self,
        old_parent: u64,
        old_name: Seq<char>,
        new_parent: u64,
        new_name: Seq<char>,
        caller: u32,
    ) -> Option<Errno> {
        let op = self.child_path(old_parent, old_name);
        let np = self.child_path(new_parent, new_name);
        if name_error(new_name) is Some {
            name_error(new_name)
        } else if !self.contents().contains_key(old_parent) || !self.contents().contains_key(
            new_parent,
        ) {
            Some(Errno::NotFound)
        } else if self.too_long(np) {
            Some(Errno::NameTooLong)
        } else if normalize_chars(np) is None {
            Some(Errno::Invalid)
        } else if !self.files().contains_key(op) && !self.dirs().contains_key(op) {
            Some(Errno::NotFound)
        } else if !self.sticky_allows(old_parent, op, caller) {
            Some(Errno::Denied)
        } else if self.dirs().contains_key(np) {
            if self.files().contains_key(op) {
                Some(Errno::IsDirectory)
            } else {
                Some(Errno::Exists)
            }
        } else if self.files().contains_key(np) && self.dirs().contains_key(op) {
            Some(Errno::NotDirectory)
        } else {
            None
        }
    }

    /// Whether a rename would put a file over itself (the same path), which
    /// the kernel treats as a no-op and `rename_entry` does not take.
    pub open spec fn spec_rename_onto_itself(
        &self,
        old_parent: u64,
        old_name: Seq<char>,
        new_parent: u64,
        new_name: Seq<char>,
    ) -> bool {
        let op = self.child_path(old_parent, old_name);
        op == self.child_path(new_parent, new_name) && self.files().contains_key(op)
    }

    /// Whether a rename would put a file over itself.
    pub fn rename_onto_itself(&self, old_parent_ino: u64, old_name: &str, new_parent_ino: u64, new_name: &str) -> (b:
        bool)
        requires
            self.wf(),
        ensures
            b == self.spec_rename_onto_itself(old_parent_ino, old_name@, new_parent_ino, new_name@),
    {
        let a = join_text(self.get_dir_path(old_parent_ino).as_str(), old_name);
        let b = join_text(self.get_dir_path(new_parent_ino).as_str(), new_name);
        a == b && self.path_to_inode.contains(a.as_str())
    }

    /// The checks of `rename_entry`; returns the old and the new path.
    fn check_rename(
        &self,
        old_parent_ino: u64,
        old_name: &str,
        new_parent_ino: u64,
        new_name: &str,
        caller_uid: u32,
    ) -> (r: Result<(String, String), Errno>)
        requires
            self.wf(),
        ensures
            match self.rename_error(old_parent_ino, old_name@, new_parent_ino, new_name@, caller_uid) {
                Some(e) => r == Err::<(String, String), Errno>(e),
                None => r matches Ok(x) && x.0@ == self.child_path(old_parent_ino, old_name@) && x.1@
                    == self.child_path(new_parent_ino, new_name@),
            },
    {
        match validate_name(new_name) {
            Err(e) => {
                return Err(e);
            },
            Ok(()) => {},
        }
        if !self.dir_contents.contains(old_parent_ino) {
            return Err(Errno::NotFound);
        }
        if !self.dir_contents.contains(new_parent_ino) {
            return Err(Errno::NotFound);
        }
        let old_path = join_text(self.get_dir_path(old_parent_ino).as_str(), old_name);
        let new_path = join_text(self.get_dir_path(new_parent_ino).as_str(), new_name);
        match self.validate_path_length(new_path.as_str()) {
            Err(e) => {
                return Err(e);
            },
            Ok(()) => {},
        }
        match validate_archive_path(new_path.as_str()) {
            Err(e) => {
                return Err(e);
            },
            Ok(()) => {},
        }
        let is_file = self.path_to_inode.contains(old_path.as_str());
        let is_dir = self.dir_inodes.contains(old_path.as_str());
        if !is_file && !is_dir {
            return Err(Errno::NotFound);
        }
        match self.check_sticky_bit(old_parent_ino, old_path.as_str(), caller_uid) {
            Err(e) => {
                return Err(e);
            },
            Ok(()) => {},
        }
        if self.dir_inodes.contains(new_path.as_str()) {
            if is_file {
                return Err(Errno::IsDirectory);
            }
            return Err(Errno::Exists);
        }
        if self.path_to_inode.contains(new_path.as_str()) && is_dir {
            return Err(Errno::NotDirectory);
        }
        Ok((old_path, new_path))
    }
}

/// `m` without `k` when `gone`.
pub open spec fn dropped_if<K, V>(m: Map<K, V>, k: K, gone: bool) -> Map<K, V> {
    if gone {
        m.remove(k)
    } else {
        m
    }
}

/// Whether the first entry named `name` in `c` is a symlink.
pub open spec fn first_named_is_symlink(c: Seq<FuseDirEntry>, name: Seq<char>) -> bool {
    exists|i: int|
        0 <= i < c.len() && #[trigger] c[i].name@ == name && c[i].kind == FileKind::Symlink && forall|
            j: int,
        | 0 <= j < i ==> #[trigger] c[j].name@ != name
}

/// Whether the first entry named `name` in `c` is a symlink.
fn named_symlink(c: &Vec<FuseDirEntry>, name: &str) -> (b: bool)
    ensures
        b == first_named_is_symlink(c@, name@),
{
    let key = name.to_owned();
    let mut i: usize = 0;
    while i < c.len()
        invariant
            i <= c@.len(),
            key@ == name@,
            forall|j: int| 0 <= j < i ==> #[trigger] c@[j].name@ != name@,
        decreases c@.len() - i,
    {
        if c[i].name == key {
            let b = c[i].kind == FileKind::Symlink;
            proof {
                if !b {
                    if first_named_is_symlink(c@, name@) {
                        let k = choose|k: int|
                            0 <= k < c@.len() && #[trigger] c@[k].name@ == name@ && c@[k].kind
                                == FileKind::Symlink && forall|j: int|
                                0 <= j < k ==> #[trigger] c@[j].name@ != name@;
                        if k < i {
                        } else if k > i {
                            assert(c@[i as int].name@ != name@);
                        }
                    }
                }
            }
            return b;
        }
        i = i + 1;
    }
    false
}

impl FsState {
    /// Renames or moves `old_name` in `old_parent_ino` to `new_name` in
    /// `new_parent_ino`. A file at the destination is replaced (its inode,
    /// pending changes and archive entries go). A file keeps its inode,
    /// pending changes and kind under the new path, and its archive entry
    /// is copied to the new path and the old one deleted. A directory keeps
    /// its inode; the paths of the files and directories below it move
    /// with it; the archive gets a directory entry for the new path and
    /// loses the old. Both parents' modification times are set to now.
    #[verifier::rlimit(100)]
    pub fn rename_entry(
        &mut self,
        old_parent_ino: u64,
        old_name: &str,
        new_parent_ino: u64,
        new_name: &str,
        caller_uid: u32,
    ) -> (r: Result<(), Errno>)
        requires
            old(self).wf(),
            old(self).rename_error(old_parent_ino, old_name@, new_parent_ino, new_name@, caller_uid)
                is None ==> !old(self).spec_rename_onto_itself(
                old_parent_ino,
                old_name@,
                new_parent_ino,
                new_name@,
            ),
        ensures
            final(self).wf(),
            rename_post(*old(self), *final(self), old_parent_ino, old_name@, new_parent_ino, new_name@, caller_uid, r),
    {
        let (old_path, new_path) = match self.check_rename(
            old_parent_ino,
            old_name,
            new_parent_ino,
            new_name,
            caller_uid,
        ) {
            Err(e) => {
                return Err(e);
            },
            Ok(x) => x,
        };
        let ghost s0 = *self;
        let ghost op = old_path@;
        let ghost np = new_path@;
        let is_file = self.path_to_inode.contains(old_path.as_str());
        let is_symlink = if is_file {
            match self.dir_contents.get(old_parent_ino) {
                Some(c) => named_symlink(c, old_name),
                None => false,
            }
        } else {
            false
        };
        let dest = self.path_to_inode.contains(new_path.as_str());
        if dest {
            let dest_ino = match self.path_to_inode.get(new_path.as_str()) {
                Some(i) => *i,
                None => 0,
            };
            self.inode_to_path.remove(dest_ino);
            self.path_to_inode.remove(new_path.as_str());
            self.modified_data.remove(new_path.as_str());
            self.modified_modes.remove(new_path.as_str());
            self.modified_times.remove(new_path.as_str());
            self.modified_uids.remove(new_path.as_str());
            self.modified_gids.remove(new_path.as_str());
            self.nlink_counts.remove(dest_ino);
            let _ = self.archive.delete(new_path.as_str());
            Self::drop_entry(&mut self.dir_contents, new_parent_ino, new_name);
        }
        proof {
            assert(self.wf());
        }
        let ghost a0 = self.archive;
        let ghost mut a1g: Archive = self.archive;
        let ghost mut a2g: Archive = self.archive;
        if is_file {
            let ino = match self.path_to_inode.get(old_path.as_str()) {
                Some(i) => *i,
                None => {
                    proof {
                        assert(false);
                    }
                    return Ok(());
                },
            };
            self.path_to_inode.remove(old_path.as_str());
            self.path_to_inode.insert(new_path.clone(), ino);
            self.inode_to_path.insert(ino, new_path.clone());
            move_key(&mut self.modified_data, old_path.as_str(), new_path.as_str());
            move_key(&mut self.modified_uids, old_path.as_str(), new_path.as_str());
            move_key(&mut self.modified_gids, old_path.as_str(), new_path.as_str());
            move_key(&mut self.modified_modes, old_path.as_str(), new_path.as_str());
            move_key(&mut self.modified_times, old_path.as_str(), new_path.as_str());
            Self::drop_entry(&mut self.dir_contents, old_parent_ino, old_name);
            let entry = if is_symlink {
                FuseDirEntry::symlink(new_name, ino)
            } else {
                FuseDirEntry::file(new_name, ino)
            };
            Self::push_entry(&mut self.dir_contents, new_parent_ino, entry);
            let ghost a1 = self.archive;
            if is_symlink {
                let target: Option<String> = match self.archive.symlink(old_path.as_str()) {
                    Ok(link) => match link.target() {
                        Some(t) => Some(t.to_owned()),
                        None => None,
                    },
                    Err(_) => None,
                };
                match target {
                    Some(t) => {
                        if self.archive.has_room_for(t.as_str().as_bytes().len()) {
                            let _ = self.archive.add_symlink(new_path.as_str(), t.as_str(), 0o777);
                        }
                    },
                    None => {},
                }
            } else {
                let copied: Option<Vec<u8>> = match self.archive.file(old_path.as_str()) {
                    Ok(f) => {
                        let mut v: Vec<u8> = Vec::new();
                        extend_bytes(&mut v, f.data);
                        Some(v)
                    },
                    Err(_) => None,
                };
                match copied {
                    Some(data) => {
                        let perm = self.get_file_mode(old_path.as_str());
                        if self.archive.has_room_for(data.len()) {
                            let _ = self.archive.add_entry(
                                new_path.as_str(),
                                data.as_slice(),
                                S_IFREG | perm,
                            );
                        }
                    },
                    None => {
                        match self.modified_data.get(new_path.as_str()) {
                            Some(d) => {
                                if self.archive.has_room_for(d.len()) {
                                    let _ = self.archive.add_entry(
                                        new_path.as_str(),
                                        d.as_slice(),
                                        DEFAULT_FILE_MODE,
                                    );
                                }
                            },
                            None => {},
                        }
                    },
                }
            }
            let ghost before_del = self.archive;
            proof {
                if is_symlink {
                    match a1.spec_lookup(encode_utf8(op)) {
                        Some(t) => {
                            let d = read_block(a1.spec_bytes(), t.0);
                            if d is Some && valid_utf8(d->0) {
                                vstd::utf8::decode_utf8_encode_utf8(d->0);
                            }
                        },
                        None => {},
                    }
                }
                assert(entry_moved(
                    a1,
                    before_del,
                    op,
                    np,
                    if is_symlink {
                        FileKind::Symlink
                    } else {
                        FileKind::RegularFile
                    },
                    FsState { archive: a1, ..*self }.spec_file_mode(op),
                    pending_of(*self, np),
                ));
            }
            let _ = self.archive.delete(old_path.as_str());
            proof {
                lemma_deleted_gone(before_del, self.archive, encode_utf8(old_path@));
                a1g = a1;
                a2g = before_del;
            }
            proof {
                assert(self.files() =~= s0.files().remove(op).insert(np, ino));
            }
        } else {
            let ino = match self.dir_inodes.get(old_path.as_str()) {
                Some(i) => *i,
                None => {
                    proof {
                        assert(false);
                    }
                    return Ok(());
                },
            };
            proof {
                assert(!dest);
                assert(self.archive == s0.archive);
            }
            let ghost d0 = self.dirs();
            self.dir_inodes.remove(old_path.as_str());
            self.dir_inodes.insert(new_path.clone(), ino);
            proof {
                let m = self.dirs();
                assert forall|p: Seq<char>, q: Seq<char>|
                    #![trigger m[p], m[q]]
                    m.contains_key(p) && m.contains_key(q) && m[p] == m[q] implies p == q by {
                    if p != np && q != np {
                        assert(d0[p] == m[p] && d0[q] == m[q]);
                    } else if p == np && q != np {
                        assert(d0[q] == m[q]);
                        assert(d0[op] == ino);
                    } else if q == np && p != np {
                        assert(d0[p] == m[p]);
                        assert(d0[op] == ino);
                    }
                }
            }
            Self::drop_entry(&mut self.dir_contents, old_parent_ino, old_name);
            let entry = FuseDirEntry::directory(new_name, ino);
            Self::push_entry(&mut self.dir_contents, new_parent_ino, entry);
            let old_prefix = with_slash(old_path.as_str());
            let new_prefix = with_slash(new_path.as_str());
            let n_old = old_prefix.as_str().unicode_len();
            let ghost c_after = self.contents();
            let ghost pre = op + seq!['/'];
            let ghost gf = s0.paths_coherent() && !starts_with(op, np + seq!['/']) && nothing_under(
                s0,
                np,
            ) && !starts_with(np, pre);
            let ghost i2p0 = s0.inode_to_path.spec_map();
            proof {
                assert(self.inode_to_path == s0.inode_to_path);
                assert(self.path_to_inode == s0.path_to_inode);
                assert(self.modified_data == s0.modified_data);
                assert(old_prefix@ =~= pre);
            }
            let inos = self.inode_to_path.keys();
            let mut i: usize = 0;
            while i < inos.len()
                invariant
                    self.wf(),
                    i <= inos@.len(),
                    self.dirs() == d0.remove(op).insert(np, ino),
                    self.contents() == c_after,
                    n_old == old_prefix@.len(),
                    old_prefix@ == pre,
                    new_prefix@ == np + seq!['/'],
                    pre == op + seq!['/'],
                    i2p0 == s0.inode_to_path.spec_map(),
                    self.archive == s0.archive,
                    gf == (s0.paths_coherent() && !starts_with(op, np + seq!['/']) && nothing_under(
                        s0,
                        np,
                    ) && !starts_with(np, pre)),
                    forall|k: u64| i2p0.contains_key(k) <==> exists|x: int|
                        0 <= x < inos@.len() && #[trigger] inos@[x] == k,
                    gf ==> files_moving(*self, s0, op, np),
                    gf ==> forall|x: int|
                        0 <= x < i && starts_with(i2p0[#[trigger] inos@[x]]@, pre) ==> self.inode_to_path.spec_map()[inos@[x]]@
                            == moved_path(i2p0[inos@[x]]@, op, np),
                decreases inos@.len() - i,
            {
                let fino = inos[i];
                let ghost before = *self;
                let found: Option<String> = match self.inode_to_path.get(fino) {
                    Some(p) => Some(p.as_str().to_owned()),
                    None => None,
                };
                match found {
                    Some(p) => {
                        if has_prefix(p.as_str(), old_prefix.as_str()) {
                            let newp = replace_prefix(p.as_str(), n_old, new_prefix.as_str());
                            self.path_to_inode.remove(p.as_str());
                            self.path_to_inode.insert(newp.clone(), fino);
                            self.inode_to_path.insert(fino, newp.clone());
                            move_key(&mut self.modified_data, p.as_str(), newp.as_str());
                            move_key(&mut self.modified_uids, p.as_str(), newp.as_str());
                            move_key(&mut self.modified_gids, p.as_str(), newp.as_str());
                            move_key(&mut self.modified_modes, p.as_str(), newp.as_str());
                            move_key(&mut self.modified_times, p.as_str(), newp.as_str());
                            proof {
                                if gf {
                                    assert(self.files() =~= before.files().remove(p@).insert(newp@, fino));
                                    assert(self.inode_to_path.spec_map().dom() =~= before.inode_to_path.spec_map().dom());
                                    lemma_subtree_file_step(before, *self, s0, op, np, fino);
                                }
                            }
                        }
                    },
                    None => {},
                }
                i = i + 1;
            }
            let ghost mid1 = *self;
            let ghost s0d = s0.dirs();
            let ghost gd = !starts_with(op, np + seq!['/']) && nothing_under(s0, np) && !starts_with(
                np,
                pre,
            ) && op != np;
            proof {
                assert(d0 == s0d);
                if gd {
                    assert forall|q: Seq<char>|
                        #[trigger] self.dirs().contains_key(q) && starts_with(q, pre) implies s0d.contains_key(q)
                            && self.dirs()[q] == s0d[q] by {
                        if q == np {
                            assert(starts_with(np, pre));
                        }
                    }
                    assert forall|d: Seq<char>|
                        #[trigger] s0d.contains_key(d) && starts_with(d, pre) implies self.dirs().contains_key(d)
                            && self.dirs()[d] == s0d[d] by {
                        if d == op {
                            assert(op.subrange(0, pre.len() as int).len() > op.len());
                        }
                        if d == np {
                            assert(starts_with(np, pre));
                        }
                    }
                }
            }
            let dkeys = self.dir_inodes.keys();
            let mut j: usize = 0;
            while j < dkeys.len()
                invariant
                    self.wf(),
                    j <= dkeys@.len(),
                    self.contents() == c_after,
                    n_old == old_prefix@.len(),
                    old_prefix@ == op + seq!['/'],
                    new_prefix@ == np + seq!['/'],
                    pre == op + seq!['/'],
                    !starts_with(np, op + seq!['/']) ==> self.dirs().contains_key(np) && self.dirs()[np]
                        == ino,
                    !starts_with(op, np + seq!['/']) ==> !self.dirs().contains_key(op),
                    self.path_to_inode == mid1.path_to_inode,
                    self.inode_to_path == mid1.inode_to_path,
                    self.modified_data == mid1.modified_data,
                    s0d == s0.dirs(),
                    self.archive == s0.archive,
                    gd == (!starts_with(op, np + seq!['/']) && nothing_under(s0, np) && !starts_with(
                        np,
                        pre,
                    ) && op != np),
                    forall|q: Seq<char>|
                        mid1.dirs().contains_key(q) <==> exists|x: int|
                            0 <= x < dkeys@.len() && #[trigger] dkeys@[x]@ == q,
                    gd ==> dirs_moving(self.dirs(), s0d, op, np),
                    gd ==> forall|x: int|
                        0 <= x < j && s0d.contains_key(#[trigger] dkeys@[x]@) && starts_with(dkeys@[x]@, pre)
                            ==> dir_moved(self.dirs(), s0d, op, np, dkeys@[x]@),
                decreases dkeys@.len() - j,
            {
                let k = dkeys[j].as_str();
                let ghost dbefore = self.dirs();
                if has_prefix(k, old_prefix.as_str()) {
                    match self.dir_inodes.get(k) {
                        Some(v) => {
                            let dino = *v;
                            let newk = replace_prefix(k, n_old, new_prefix.as_str());
                            let ghost before = self.dirs();
                            self.dir_inodes.remove(k);
                            proof {
                                assert forall|q: Seq<char>| #[trigger] self.dirs().contains_key(q)
                                    implies self.dirs()[q] != dino by {
                                    assert(before[q] == self.dirs()[q]);
                                }
                            }
                            let ghost mid = self.dirs();
                            self.dir_inodes.insert(newk.clone(), dino);
                            proof {
                                let m = self.dirs();
                                assert forall|p: Seq<char>, q: Seq<char>|
                                    #![trigger m[p], m[q]]
                                    m.contains_key(p) && m.contains_key(q) && m[p] == m[q] implies p
                                        == q by {
                                    if p != newk@ && q != newk@ {
                                        assert(mid[p] == m[p] && mid[q] == m[q]);
                                        assert(before[p] == m[p] && before[q] == m[q]);
                                    } else if p != newk@ {
                                        assert(mid[p] == m[p]);
                                    } else if q != newk@ {
                                        assert(mid[q] == m[q]);
                                    }
                                }
                                assert forall|p: Seq<char>| #[trigger] m.contains_key(p) implies (
                                m[p] == ROOT_INO || DIR_INO_START <= m[p] < self.next_dir_ino) by {
                                    if p != newk@ {
                                        assert(before[p] == m[p]);
                                    } else {
                                        assert(before[k@] == dino);
                                    }
                                }
                                if !starts_with(np, op + seq!['/']) {
                                    assert(k@ != np) by {
                                        if k@ == np {
                                            assert(starts_with(np, op + seq!['/']));
                                        }
                                    }
                                    assert(newk@ != np) by {
                                        assert(newk@.len() > np.len());
                                    }
                                }
                                if !starts_with(op, np + seq!['/']) {
                                    assert(newk@ != op) by {
                                        if newk@ == op {
                                            assert(newk@.subrange(0, new_prefix@.len() as int)
                                                =~= new_prefix@);
                                            assert(starts_with(op, np + seq!['/']));
                                        }
                                    }
                                }
                            }
                            move_key(&mut self.modified_uids, k, newk.as_str());
                            move_key(&mut self.modified_gids, k, newk.as_str());
                            move_key(&mut self.modified_modes, k, newk.as_str());
                            move_key(&mut self.modified_times, k, newk.as_str());
                            proof {
                                if gd {
                                    assert(self.dirs() =~= dbefore.remove(k@).insert(
                                        moved_path(k@, op, np),
                                        dbefore[k@],
                                    ));
                                    lemma_subtree_dir_step(dbefore, self.dirs(), s0d, op, np, k@);
                                }
                            }
                        },
                        None => {},
                    }
                }
                proof {
                    if gd {
                        let kq = dkeys@[j as int]@;
                        assert forall|x: int|
                            0 <= x < j + 1 && s0d.contains_key(#[trigger] dkeys@[x]@) && starts_with(
                                dkeys@[x]@,
                                pre,
                            ) implies dir_moved(self.dirs(), s0d, op, np, dkeys@[x]@) by {
                            if x < j {
                                assert(dir_moved(dbefore, s0d, op, np, dkeys@[x]@));
                            }
                        }
                    }
                }
                j = j + 1;
            }
            move_key(&mut self.modified_uids, old_path.as_str(), new_path.as_str());
            move_key(&mut self.modified_gids, old_path.as_str(), new_path.as_str());
            move_key(&mut self.modified_modes, old_path.as_str(), new_path.as_str());
            move_key(&mut self.modified_times, old_path.as_str(), new_path.as_str());
            let ghost before_add = self.archive;
            if self.archive.has_room_for(0) {
                let _ = self.archive.add_directory(new_path.as_str(), DEFAULT_DIR_MODE);
            }
            let ghost before_del = self.archive;
            let _ = self.archive.delete(old_path.as_str());
            proof {
                lemma_deleted_gone(before_del, self.archive, encode_utf8(old_path@));
                assert(before_add == s0.archive);
                assert(dir_archive_moved(s0.archive, self.archive, op, np));
            }
            proof {
                if gd && op != np {
                    assert forall|d: Seq<char>|
                        #[trigger] s0.dirs().contains_key(d) && starts_with(d, pre) implies dir_moved(
                            self.dirs(),
                            s0d,
                            op,
                            np,
                            d,
                        ) by {
                        assert(d != op) by {
                            if d == op {
                                assert(op.len() < pre.len());
                            }
                        }
                        assert(mid1.dirs().contains_key(d));
                        let x = choose|x: int| 0 <= x < dkeys@.len() && #[trigger] dkeys@[x]@ == d;
                    }
                    if s0.paths_coherent() {
                        assert forall|fi: u64|
                            #[trigger] s0.inode_to_path.spec_map().contains_key(fi) && starts_with(
                                s0.inode_to_path.spec_map()[fi]@,
                                pre,
                            ) implies {
                            let p0 = s0.inode_to_path.spec_map()[fi]@;
                            let q = moved_path(p0, op, np);
                            &&& self.files().contains_key(q)
                            &&& self.files()[q] == fi
                            &&& self.inode_to_path.spec_map()[fi]@ == q
                            &&& !self.files().contains_key(p0)
                            &&& pending_of(s0, p0) is Some ==> pending_of(*self, q) == pending_of(s0, p0)
                        } by {
                            let x = choose|x: int| 0 <= x < inos@.len() && #[trigger] inos@[x] == fi;
                            lemma_moved_path(i2p0[fi]@, i2p0[fi]@, op, np);
                        }
                    }
                    assert(subtree_moved(s0, *self, op, np));
                }
            }
        }
        let ghost mid = *self;
        let old_parent_path = self.get_dir_path(old_parent_ino);
        touch(&mut self.modified_times, old_parent_path);
        if new_parent_ino != old_parent_ino {
            let new_parent_path = self.get_dir_path(new_parent_ino);
            touch(&mut self.modified_times, new_parent_path);
        }
        proof {
            if is_file {
                let kind = if is_symlink {
                    FileKind::Symlink
                } else {
                    FileKind::RegularFile
                };
                assert(FsState { archive: a1g, ..*self }.spec_file_mode(op) == FsState {
                    archive: a1g,
                    ..mid
                }.spec_file_mode(op));
                assert(pending_of(*self, np) == pending_of(mid, np));
                assert(entry_moved(
                    a1g,
                    a2g,
                    op,
                    np,
                    kind,
                    FsState { archive: a1g, ..*self }.spec_file_mode(op),
                    pending_of(*self, np),
                ));
                assert(a2g.deleted(self.archive, encode_utf8(op)));
                assert(if dest {
                    s0.archive.deleted(a1g, encode_utf8(np))
                } else {
                    a1g == s0.archive
                });
                assert(is_symlink == first_named_is_symlink(s0.contents()[old_parent_ino]@, old_name@));
                assert(s0.child_path(old_parent_ino, old_name@) == op);
                assert(s0.child_path(new_parent_ino, new_name@) == np);
                assert(archive_moved(s0, *self, op, np, kind));
            } else {
                if !starts_with(np, op + seq!['/']) && !starts_with(op, np + seq!['/']) && nothing_under(
                    s0,
                    np,
                ) {
                    assert(op != np);
                    assert(subtree_moved(s0, mid, op, np));
                    assert(self.dirs() == mid.dirs() && self.files() == mid.files());
                    assert(pending_of(*self, np) == pending_of(mid, np));
                    assert(forall|q: Seq<char>| #[trigger] pending_of(*self, q) == pending_of(mid, q));
                    assert(subtree_moved(s0, *self, op, np));
                }
            }
        }
        Ok(())
    }
}

impl FsState {
    /// Everything but the directory map, the listings, the directory
    /// times and the next directory inode is as in `old`.
    pub open spec fn same_but_dir_tree(&self, old: &FsState) -> bool {
        &&& self.archive == old.archive
        &&& self.path_to_inode == old.path_to_inode
        &&& self.inode_to_path == old.inode_to_path
        &&& self.nlink_counts == old.nlink_counts
        &&& self.entry_id_to_ino == old.entry_id_to_ino
        &&& self.modified_data == old.modified_data
        &&& self.modified_modes == old.modified_modes
        &&& self.modified_times == old.modified_times
        &&& self.modified_uids == old.modified_uids
        &&& self.modified_gids == old.modified_gids
        &&& self.uid == old.uid
        &&& self.gid == old.gid
        &&& self.mount_time == old.mount_time
        &&& self.read_only == old.read_only
        &&& self.next_file_ino == old.next_file_ino
        &&& self.mount_point == old.mount_point
    }

    /// Whether the root directory is in place: path `""` is the root inode
    /// and the root has a listing.
    pub open spec fn has_root(&self) -> bool {
        &&& self.dirs().contains_key(Seq::empty())
        &&& self.dirs()[Seq::empty()] == ROOT_INO
        &&& self.contents().contains_key(ROOT_INO)
    }

    /// Adds directory `path` (a fresh inode, an empty listing, time
    /// `mtime`) under the directory with inode `parent`, if `parent` has a
    /// listing; returns the new inode.
    fn add_dir_node(&mut self, path: String, name: &str, parent: u64, mtime: i64) -> (ino: u64)
        requires
            old(self).wf(),
            old(self).has_root(),
            !old(self).dirs().contains_key(path@),
            old(self).next_dir_ino < u64::MAX,
        ensures
            final(self).wf(),
            final(self).has_root(),
            final(self).same_but_dir_tree(old(self)),
            ino == old(self).next_dir_ino,
            final(self).dirs() == old(self).dirs().insert(path@, ino),
            final(self).contents().dom() == old(self).contents().dom().insert(ino),
            final(self).next_dir_ino == ino + 1,
            final(self).next_dir_ino >= old(self).next_dir_ino,
    {
        let ino = self.next_dir_ino;
        self.next_dir_ino = ino + 1;
        let ghost before = self.dirs();
        let ghost key = path@;
        self.dir_inodes.insert(path, ino);
        proof {
            let m = self.dirs();
            assert forall|p: Seq<char>, q: Seq<char>|
                #![trigger m[p], m[q]]
                m.contains_key(p) && m.contains_key(q) && m[p] == m[q] implies p == q by {
                if p != key && q != key {
                    assert(before[p] == m[p] && before[q] == m[q]);
                } else if p != key {
                    assert(before[p] == m[p]);
                } else if q != key {
                    assert(before[q] == m[q]);
                }
            }
            assert forall|p: Seq<char>| #[trigger] m.contains_key(p) implies (m[p] == ROOT_INO || (
            DIR_INO_START <= m[p] < self.next_dir_ino)) by {
                if p != key {
                    assert(before[p] == m[p]);
                }
            }
            assert(key != Seq::<char>::empty());
        }
        self.dir_contents.insert(ino, Vec::new());
        self.dir_mtimes.insert(ino, mtime);
        if self.dir_contents.contains(parent) {
            let e = FuseDirEntry::directory(name, ino);
            Self::push_entry(&mut self.dir_contents, parent, e);
        }
        proof {
            assert(self.contents().dom() =~= old(self).contents().dom().insert(ino));
        }
        ino
    }

    /// One component of `ensure_parent_dirs`: extends `current` with the
    /// characters `start..end` of `path`; true, changing nothing else, when
    /// `current` has reached `trimmed`; otherwise adds that directory (a
    /// fresh inode) when it is missing and an inode is left.
    fn visit_component(&mut self, path: &str, start: usize, end: usize, current: &mut String, trimmed: &str) -> (stop:
        bool)
        requires
            old(self).wf(),
            old(self).has_root(),
            start < end <= path@.len(),
        ensures
            final(self).wf(),
            final(self).has_root(),
            final(self).same_but_dir_tree(old(self)),
            old(self).dirs().dom().subset_of(final(self).dirs().dom()),
            old(self).contents().dom().subset_of(final(self).contents().dom()),
            final(self).next_dir_ino >= old(self).next_dir_ino,
            final(self).next_dir_ino <= old(self).next_dir_ino + 1,
            old(self).dirs_listed() ==> final(self).dirs_listed(),
            final(current)@ == join_path(old(current)@, path@.subrange(start as int, end as int)),
            stop == (final(current)@ == trimmed@),
            stop || old(self).dirs().contains_key(final(current)@) || old(self).next_dir_ino == u64::MAX
                ==> *final(self) == *old(self),
            !stop && !old(self).dirs().contains_key(final(current)@) && old(self).next_dir_ino < u64::MAX
                ==> {
                &&& final(self).dirs() == old(self).dirs().insert(
                    final(current)@,
                    old(self).next_dir_ino,
                )
                &&& final(self).contents().dom() == old(self).contents().dom().insert(
                    old(self).next_dir_ino,
                )
                &&& final(self).next_dir_ino == old(self).next_dir_ino + 1
            },
    {
        let component = path.substring_char(start, end);
        let parent = current.as_str().to_owned();
        *current = join_text(parent.as_str(), component);
        if current.as_str().to_owned() == trimmed.to_owned() {
            return true;
        }
        if !self.dir_inodes.contains(current.as_str()) && self.next_dir_ino < u64::MAX {
            let parent_ino = if parent.as_str().is_empty() {
                ROOT_INO
            } else {
                match self.dir_inodes.get(parent.as_str()) {
                    Some(p) => *p,
                    None => ROOT_INO,
                }
            };
            let mt = self.mount_time;
            self.add_dir_node(current.as_str().to_owned(), component, parent_ino, mt);
        }
        false
    }

    /// Makes sure every directory above `path` exists (with the mount time
    /// as its time), each listed in its parent: walking the path without
    /// its trailing slashes, every directory reached (see
    /// [`reached_dir`]) other than the whole path is added when missing,
    /// while fresh inodes are left; nothing else changes.
    fn ensure_parent_dirs(&mut self, path: &str)
        requires
            old(self).wf(),
            old(self).has_root(),
        ensures
            final(self).wf(),
            final(self).has_root(),
            final(self).same_but_dir_tree(old(self)),
            old(self).dirs().dom().subset_of(final(self).dirs().dom()),
            old(self).contents().dom().subset_of(final(self).contents().dom()),
            final(self).next_dir_ino >= old(self).next_dir_ino,
            forall|k: Seq<char>|
                #[trigger] old(self).dirs().contains_key(k) ==> final(self).dirs()[k] == old(self).dirs()[k],
            forall|d: Seq<char>|
                #[trigger] final(self).dirs().contains_key(d) ==> old(self).dirs().contains_key(d) || (
                reached_dir(trim_slashes(path@), d) && d != trim_slashes(path@)),
            final(self).next_dir_ino < u64::MAX ==> forall|d: Seq<char>|
                reached_dir(trim_slashes(path@), d) && d != trim_slashes(path@) ==> #[trigger] final(self).dirs().contains_key(d),
            old(self).dirs_listed() ==> final(self).dirs_listed(),
            final(self).next_dir_ino <= old(self).next_dir_ino + path@.len() + 1,
    {
        let cs = chars_of(path);
        let n = trimmed_len(&cs);
        proof {
            lemma_trim_slashes(cs@);
        }
        let trimmed = path.substring_char(0, n);
        let ghost t = trimmed@;
        let mut current = String::new();
        let mut start: usize = 0;
        let mut i: usize = 0;
        let ghost s0 = *self;
        proof {
            assert(t == trim_slashes(path@));
        }
        while i < n
            invariant
                self.wf(),
                self.has_root(),
                s0 == *old(self),
                self.same_but_dir_tree(&s0),
                self.next_dir_ino >= s0.next_dir_ino,
                s0.dirs().dom().subset_of(self.dirs().dom()),
                s0.contents().dom().subset_of(self.contents().dom()),
                n <= cs@.len(),
                cs@ == path@,
                t == trimmed@,
                t == path@.take(n as int),
                t.len() == n,
                start <= i <= n,
                (start as int, current@) == comp_scan(t, i as int),
                current@.len() == 0 || current@.len() + 1 <= start,
                forall|k: Seq<char>|
                    #[trigger] s0.dirs().contains_key(k) ==> self.dirs()[k] == s0.dirs()[k],
                forall|d: Seq<char>|
                    #[trigger] self.dirs().contains_key(d) ==> s0.dirs().contains_key(d) || (
                    reached_upto(t, i as int, d) && d != t),
                self.next_dir_ino < u64::MAX ==> forall|d: Seq<char>|
                    reached_upto(t, i as int, d) && d != t ==> #[trigger] self.dirs().contains_key(d),
                s0.dirs_listed() ==> self.dirs_listed(),
                self.next_dir_ino <= s0.next_dir_ino + i,
            decreases n - i,
        {
            if cs[i] == '/' {
                if i > start {
                    let ghost before = *self;
                    let ghost cur0 = current@;
                    let stop = self.visit_component(path, start, i, &mut current, trimmed);
                    proof {
                        assert(path@.subrange(start as int, i as int) =~= t.subrange(start as int, i as int));
                        lemma_comp_scan_step(t, i as int);
                        assert(current@.len() + 1 <= i + 1);
                    }
                    if stop {
                        return;
                    }
                    proof {
                        lemma_reached_step(t, i as int);
                        assert forall|d: Seq<char>| #[trigger] self.dirs().contains_key(d) implies s0.dirs().contains_key(d)
                            || (reached_upto(t, i + 1, d) && d != t) by {
                            if !before.dirs().contains_key(d) {
                                assert(d == current@);
                            }
                        }
                        assert forall|k: Seq<char>| #[trigger] s0.dirs().contains_key(k) implies self.dirs()[k]
                            == s0.dirs()[k] by {
                            assert(before.dirs().contains_key(k));
                        }
                        if self.next_dir_ino < u64::MAX {
                            assert(before.next_dir_ino < u64::MAX);
                            assert forall|d: Seq<char>| reached_upto(t, i + 1, d) && d != t implies #[trigger] self.dirs().contains_key(d) by {
                                if reached_upto(t, i as int, d) {
                                    assert(before.dirs().contains_key(d));
                                } else {
                                    assert(d == current@);
                                }
                            }
                        }
                    }
                } else {
                    proof {
                        lemma_comp_scan_step(t, i as int);
                        lemma_reached_step(t, i as int);
                    }
                }
                start = i + 1;
            } else {
                proof {
                    lemma_comp_scan_step(t, i as int);
                    lemma_reached_step(t, i as int);
                }
            }
            i = i + 1;
        }
        if n > start {
            let ghost before = *self;
            let stop = self.visit_component(path, start, n, &mut current, trimmed);
            proof {
                assert(path@.subrange(start as int, n as int) =~= t.subrange(start as int, n as int));
                assert forall|d: Seq<char>| #[trigger] self.dirs().contains_key(d) implies s0.dirs().contains_key(d)
                    || (reached_dir(t, d) && d != t) by {
                    if !before.dirs().contains_key(d) {
                        assert(d == current@);
                    } else if !s0.dirs().contains_key(d) {
                        lemma_reached_upto_dir(t, n as int, d);
                    }
                }
                assert forall|k: Seq<char>| #[trigger] s0.dirs().contains_key(k) implies self.dirs()[k]
                    == s0.dirs()[k] by {
                    assert(before.dirs().contains_key(k));
                }
                if self.next_dir_ino < u64::MAX {
                    assert(before.next_dir_ino < u64::MAX);
                    assert forall|d: Seq<char>| reached_dir(t, d) && d != t implies #[trigger] self.dirs().contains_key(d) by {
                        if reached_upto(t, n as int, d) {
                            assert(before.dirs().contains_key(d));
                        } else {
                            assert(d == current@);
                        }
                    }
                }
            }
        } else {
            proof {
                assert forall|d: Seq<char>| #[trigger] self.dirs().contains_key(d) implies s0.dirs().contains_key(d)
                    || (reached_dir(t, d) && d != t) by {
                    if !s0.dirs().contains_key(d) {
                        lemma_reached_upto_dir(t, n as int, d);
                    }
                }
                if self.next_dir_ino < u64::MAX {
                    assert forall|d: Seq<char>| reached_dir(t, d) && d != t implies #[trigger] self.dirs().contains_key(d) by {
                        assert(reached_upto(t, n as int, d));
                    }
                }
            }
        }
    }
}

/// Walking `s` up to position `i`: where the current component starts,
/// and the directory path built from the non-empty components before it.
pub open spec fn comp_scan(s: Seq<char>, i: int) -> (int, Seq<char>)
    decreases i,
{
    if i <= 0 {
        (0, Seq::empty())
    } else {
        let prev = comp_scan(s, i - 1);
        if s[i - 1] == '/' {
            if i - 1 > prev.0 {
                (i, join_path(prev.1, s.subrange(prev.0, i - 1)))
            } else {
                (i, prev.1)
            }
        } else {
            prev
        }
    }
}

/// Whether walking the first `i` characters of `s` reaches directory `d`
/// at the end of a non-empty component followed by a slash.
pub open spec fn reached_upto(s: Seq<char>, i: int, d: Seq<char>) -> bool {
    exists|j: int|
        0 < j <= i && s[j - 1] == '/' && j - 1 > comp_scan(s, j - 1).0 && #[trigger] comp_scan(s, j).1
            == d
}

/// Whether walking `s` reaches directory `d`: at the end of a non-empty
/// component followed by a slash, or at the end of `s` after a non-empty
/// last component.
pub open spec fn reached_dir(s: Seq<char>, d: Seq<char>) -> bool {
    let e = comp_scan(s, s.len() as int);
    ||| reached_upto(s, s.len() as int, d)
    ||| (s.len() > e.0 && d == join_path(e.1, s.subrange(e.0, s.len() as int)))
}

/// One step of the walk.
proof fn lemma_comp_scan_step(s: Seq<char>, i: int)
    requires
        0 <= i < s.len(),
    ensures
        comp_scan(s, i + 1) == (if s[i] == '/' {
            if i > comp_scan(s, i).0 {
                (i + 1, join_path(comp_scan(s, i).1, s.subrange(comp_scan(s, i).0, i)))
            } else {
                (i + 1, comp_scan(s, i).1)
            }
        } else {
            comp_scan(s, i)
        }),
{
}

/// The directories reached after one more character.
proof fn lemma_reached_step(s: Seq<char>, i: int)
    requires
        0 <= i < s.len(),
    ensures
        forall|d: Seq<char>|
            #[trigger] reached_upto(s, i + 1, d) <==> reached_upto(s, i, d) || (s[i] == '/' && i
                > comp_scan(s, i).0 && d == comp_scan(s, i + 1).1),
{
    assert forall|d: Seq<char>| #[trigger] reached_upto(s, i + 1, d) implies reached_upto(s, i, d) || (s[i]
        == '/' && i > comp_scan(s, i).0 && d == comp_scan(s, i + 1).1) by {
        let j = choose|j: int|
            0 < j <= i + 1 && s[j - 1] == '/' && j - 1 > comp_scan(s, j - 1).0 && #[trigger] comp_scan(
                s,
                j,
            ).1 == d;
        if j <= i {
            assert(reached_upto(s, i, d));
        }
    }
    assert forall|d: Seq<char>| s[i] == '/' && i > comp_scan(s, i).0 && d == comp_scan(s, i + 1).1 implies #[trigger] reached_upto(s, i + 1, d) by {
        assert(comp_scan(s, i + 1).1 == d);
    }
    assert forall|d: Seq<char>| reached_upto(s, i, d) implies #[trigger] reached_upto(s, i + 1, d) by {
        let j = choose|j: int|
            0 < j <= i && s[j - 1] == '/' && j - 1 > comp_scan(s, j - 1).0 && #[trigger] comp_scan(s, j).1
                == d;
        assert(comp_scan(s, j).1 == d);
    }
}

/// Reaching within all of `s` is reaching.
proof fn lemma_reached_upto_dir(s: Seq<char>, n: int, d: Seq<char>)
    requires
        n == s.len(),
        reached_upto(s, n, d),
    ensures
        reached_dir(s, d),
{
}

/// What `create_hard_link(ino, new_parent_ino, new_name)` does from state
/// `s`, giving state `f` and result `r`.
pub open spec fn hard_link_post(
    s: FsState,
    f: FsState,
    ino: u64,
    new_parent_ino: u64,
    new_name: Seq<char>,
    r: Result<(u64, FileAttr), Errno>,
) -> bool {
    match s.link_error(ino, new_parent_ino, new_name) {
        Some(e) => r == Err::<(u64, FileAttr), Errno>(e) && f == s,
        None => {
            let full = s.child_path(new_parent_ino, new_name);
            let source = s.inode_to_path.spec_map()[ino]@;
            let n = s.spec_nlink(ino);
            if n == u32::MAX || s.archive.hard_link_outcome(
                encode_utf8(source),
                full,
            ) is Err {
                r == Err::<(u64, FileAttr), Errno>(Errno::Io) && f == s
            } else {
                &&& f.files() == s.files().insert(full, ino)
                &&& f.nlink_counts.spec_map() == s.nlink_counts.spec_map().insert(ino, (n + 1) as u32)
                &&& f.dirs() == s.dirs()
                &&& f.inode_to_path == s.inode_to_path
                &&& f.contents().dom() == s.contents().dom()
                &&& f.contents()[new_parent_ino]@.drop_last() == s.contents()[new_parent_ino]@
                &&& entry_is(
                    f.contents()[new_parent_ino]@.last(),
                    new_name,
                    ino,
                    FileKind::RegularFile,
                )
                &&& forall|k: u64|
                    k != new_parent_ino ==> #[trigger] f.contents()[k] == s.contents()[k]
                &&& f.archive.spec_dirs() == s.archive.spec_dirs().push(
                    s.archive.hard_link_outcome(encode_utf8(source), full)->Ok_0,
                )
                &&& r == Ok::<(u64, FileAttr), Errno>(
                    (
                        ino,
                        match f.archive.spec_lookup(encode_utf8(full)) {
                            Some(t) => f.spec_file_attr(
                                ino,
                                FileKind::RegularFile,
                                t.0,
                                full,
                            ),
                            None => f.spec_attr(ino, FileKind::RegularFile),
                        },
                    ),
                )
            }
        },
    }
}

/// The room that the first `n` pending contents listed in `items` take as
/// data blocks: each block's length and its largest padding.
pub open spec fn pending_sum(items: Seq<(String, Vec<u8>)>, m: Map<Seq<char>, Vec<u8>>, n: int) -> nat
    decreases n,
{
    if n <= 0 {
        0
    } else {
        pending_sum(items, m, n - 1) + 65536 + m[items[n - 1].0@]@.len()
    }
}

/// The room taken by pending contents grows with the number counted.
proof fn lemma_pending_sum_mono(items: Seq<(String, Vec<u8>)>, m: Map<Seq<char>, Vec<u8>>, i: int, j: int)
    requires
        i <= j,
    ensures
        pending_sum(items, m, i) <= pending_sum(items, m, j),
    decreases j - i,
{
    if i < j {
        lemma_pending_sum_mono(items, m, i, j - 1);
    }
}

/// How renaming directory `op` to `np` shows in archive `a`, giving `b`: a
/// directory entry for `np` (mode `DEFAULT_DIR_MODE`) is added when there
/// is room and the archive accepts the path, and the entries of `op` are
/// deleted.
pub open spec fn dir_archive_moved(a: Archive, b: Archive, op: Seq<char>, np: Seq<char>) -> bool {
    exists|a1: Archive|
        #![trigger a1.deleted(b, encode_utf8(op))]
        (if a.room_for(0) && a.add_error(np) is None {
            a.entry_added(
                a1,
                encode_utf8(normalize_chars(np)->0),
                Seq::empty(),
                directory_mode(DEFAULT_DIR_MODE),
                None,
                None,
            )
        } else {
            a1 == a
        }) && a1.deleted(b, encode_utf8(op))
}

/// `p`, a path below `op`, with `op` replaced by `np`.
pub open spec fn moved_path(p: Seq<char>, op: Seq<char>, np: Seq<char>) -> Seq<char> {
    with_prefix_replaced(p, op.len() + 1int, np + seq!['/'])
}

/// Nothing in `s` lies below `np`: no file, directory or pending contents.
pub open spec fn nothing_under(s: FsState, np: Seq<char>) -> bool {
    let pre = np + seq!['/'];
    &&& forall|q: Seq<char>| #[trigger] s.files().contains_key(q) ==> !starts_with(q, pre)
    &&& forall|q: Seq<char>| #[trigger] s.dirs().contains_key(q) ==> !starts_with(q, pre)
    &&& forall|q: Seq<char>|
        #[trigger] s.modified_data.spec_map().contains_key(q) ==> !starts_with(q, pre)
}

/// Progress of moving the files below `op` to below `np`, from state `s0`
/// to state `t`: every inode keeps its recorded path or has it moved, and
/// its path maps to it, with its pending contents.
pub open spec fn files_moving(t: FsState, s0: FsState, op: Seq<char>, np: Seq<char>) -> bool {
    let i2p0 = s0.inode_to_path.spec_map();
    let pre = op + seq!['/'];
    &&& t.inode_to_path.spec_map().dom() == i2p0.dom()
    &&& forall|j: u64|
        #[trigger] i2p0.contains_key(j) ==> {
            let p0 = i2p0[j]@;
            let cur = t.inode_to_path.spec_map()[j]@;
            &&& (cur == p0 || (starts_with(p0, pre) && cur == moved_path(p0, op, np)))
            &&& t.files().contains_key(cur)
            &&& t.files()[cur] == j
            &&& (pending_of(s0, p0) is Some ==> pending_of(t, cur) == pending_of(s0, p0))
            &&& (cur != p0 ==> !t.files().contains_key(p0))
        }
}

/// Two prefixes of one sequence: the shorter is a prefix of the longer.
proof fn lemma_prefixes_nest(x: Seq<char>, a: Seq<char>, b: Seq<char>)
    requires
        starts_with(x, a),
        starts_with(x, b),
        a.len() <= b.len(),
    ensures
        starts_with(b, a),
{
    assert(b.subrange(0, a.len() as int) =~= x.subrange(0, a.len() as int));
    assert(x.subrange(0, a.len() as int) =~= a);
}

/// A moved path lies below `np` and below nothing that `op` is not
/// related to; moving is one-to-one on paths below `op`.
proof fn lemma_moved_path(p: Seq<char>, p2: Seq<char>, op: Seq<char>, np: Seq<char>)
    requires
        starts_with(p, op + seq!['/']),
        starts_with(p2, op + seq!['/']),
        op != np,
        !starts_with(op, np + seq!['/']),
        !starts_with(np, op + seq!['/']),
    ensures
        starts_with(moved_path(p, op, np), np + seq!['/']),
        !starts_with(moved_path(p, op, np), op + seq!['/']),
        !starts_with(p, np + seq!['/']),
        moved_path(p, op, np) == moved_path(p2, op, np) ==> p == p2,
{
    let a = op + seq!['/'];
    let b = np + seq!['/'];
    let q = moved_path(p, op, np);
    assert(q.subrange(0, b.len() as int) =~= b);
    if starts_with(q, a) {
        if a.len() <= b.len() {
            lemma_prefixes_nest(q, a, b);
            if a.len() == b.len() {
                assert(op =~= b.subrange(0, op.len() as int));
                assert(np =~= b.subrange(0, np.len() as int));
            } else {
                assert(np.subrange(0, a.len() as int) =~= b.subrange(0, a.len() as int));
            }
        } else {
            lemma_prefixes_nest(q, b, a);
            assert(op.subrange(0, b.len() as int) =~= a.subrange(0, b.len() as int));
        }
    }
    if starts_with(p, b) {
        if a.len() <= b.len() {
            lemma_prefixes_nest(p, a, b);
            if a.len() == b.len() {
                assert(op =~= b.subrange(0, op.len() as int));
                assert(np =~= a.subrange(0, np.len() as int));
            } else {
                assert(np.subrange(0, a.len() as int) =~= b.subrange(0, a.len() as int));
            }
        } else {
            lemma_prefixes_nest(p, b, a);
            assert(op.subrange(0, b.len() as int) =~= a.subrange(0, b.len() as int));
        }
    }
    if q == moved_path(p2, op, np) {
        assert(p.subrange(a.len() as int, p.len() as int) =~= q.subrange(b.len() as int, q.len() as int));
        assert(p2.subrange(a.len() as int, p2.len() as int) =~= q.subrange(b.len() as int, q.len() as int));
        assert(p =~= a + p.subrange(a.len() as int, p.len() as int));
        assert(p2 =~= a + p2.subrange(a.len() as int, p2.len() as int));
    }
}

/// Directory `d` (below `op` in `s0d`) has moved to below `np` in `t`.
pub open spec fn dir_moved(t: Map<Seq<char>, u64>, s0d: Map<Seq<char>, u64>, op: Seq<char>, np: Seq<char>, d: Seq<char>) -> bool {
    &&& t.contains_key(moved_path(d, op, np))
    &&& t[moved_path(d, op, np)] == s0d[d]
    &&& !t.contains_key(d)
}

/// Progress of moving the directories below `op` to below `np`: the ones
/// still below `op` are `s0d`'s, and each of `s0d`'s is in place or moved.
pub open spec fn dirs_moving(t: Map<Seq<char>, u64>, s0d: Map<Seq<char>, u64>, op: Seq<char>, np: Seq<char>) -> bool {
    let pre = op + seq!['/'];
    &&& forall|q: Seq<char>|
        #[trigger] t.contains_key(q) && starts_with(q, pre) ==> s0d.contains_key(q) && t[q] == s0d[q]
    &&& forall|d: Seq<char>|
        #[trigger] s0d.contains_key(d) && starts_with(d, pre) ==> (t.contains_key(d) && t[d] == s0d[d])
            || dir_moved(t, s0d, op, np, d)
}

/// One step of moving the directories: `k`, still below `op`, moves.
proof fn lemma_subtree_dir_step(before: Map<Seq<char>, u64>, after: Map<Seq<char>, u64>, s0d: Map<Seq<char>, u64>, op: Seq<char>, np: Seq<char>, k: Seq<char>)
    requires
        op != np,
        !starts_with(op, np + seq!['/']),
        !starts_with(np, op + seq!['/']),
        dirs_moving(before, s0d, op, np),
        before.contains_key(k),
        starts_with(k, op + seq!['/']),
        after == before.remove(k).insert(moved_path(k, op, np), before[k]),
    ensures
        dirs_moving(after, s0d, op, np),
        dir_moved(after, s0d, op, np, k),
        forall|d: Seq<char>| dir_moved(before, s0d, op, np, d) && starts_with(d, op + seq!['/']) ==> #[trigger] dir_moved(after, s0d, op, np, d),
{
    let pre = op + seq!['/'];
    lemma_moved_path(k, k, op, np);
    assert forall|d: Seq<char>| dir_moved(before, s0d, op, np, d) && starts_with(d, pre) implies #[trigger] dir_moved(after, s0d, op, np, d) by {
        lemma_moved_path(d, k, op, np);
    }
    assert forall|d: Seq<char>|
        #[trigger] s0d.contains_key(d) && starts_with(d, pre) implies (after.contains_key(d) && after[d] == s0d[d])
            || dir_moved(after, s0d, op, np, d) by {
        lemma_moved_path(d, k, op, np);
    }
    assert forall|q: Seq<char>|
        #[trigger] after.contains_key(q) && starts_with(q, pre) implies s0d.contains_key(q) && after[q] == s0d[q] by {
        if q == moved_path(k, op, np) {
            assert(false);
        }
    }
}

/// One step of moving the files: inode `fino`, still at its first path
/// below `op`, moves to the moved path with its pending contents.
proof fn lemma_subtree_file_step(before: FsState, after: FsState, s0: FsState, op: Seq<char>, np: Seq<char>, fino: u64)
    requires
        s0.paths_coherent(),
        op != np,
        !starts_with(op, np + seq!['/']),
        !starts_with(np, op + seq!['/']),
        nothing_under(s0, np),
        files_moving(before, s0, op, np),
        before.inode_to_path.spec_map().contains_key(fino),
        starts_with(before.inode_to_path.spec_map()[fino]@, op + seq!['/']),
        after.files() == before.files().remove(before.inode_to_path.spec_map()[fino]@).insert(
            moved_path(before.inode_to_path.spec_map()[fino]@, op, np),
            fino,
        ),
        after.inode_to_path.spec_map().dom() == before.inode_to_path.spec_map().dom(),
        after.inode_to_path.spec_map()[fino]@ == moved_path(before.inode_to_path.spec_map()[fino]@, op, np),
        forall|j: u64| j != fino ==> #[trigger] after.inode_to_path.spec_map()[j] == before.inode_to_path.spec_map()[j],
        after.modified_data.spec_map() == moved_key(
            before.modified_data.spec_map(),
            before.inode_to_path.spec_map()[fino]@,
            moved_path(before.inode_to_path.spec_map()[fino]@, op, np),
        ),
    ensures
        files_moving(after, s0, op, np),
        before.inode_to_path.spec_map()[fino]@ == s0.inode_to_path.spec_map()[fino]@,
{
    let i2p0 = s0.inode_to_path.spec_map();
    let pre = op + seq!['/'];
    let p = before.inode_to_path.spec_map()[fino]@;
    let newp = moved_path(p, op, np);
    let p0f = i2p0[fino]@;
    assert(i2p0.contains_key(fino));
    if p != p0f {
        lemma_moved_path(p0f, p0f, op, np);
    }
    assert(p == p0f);
    lemma_moved_path(p, p, op, np);
    assert forall|j: u64| #[trigger] i2p0.contains_key(j) implies {
        let p0 = i2p0[j]@;
        let cur = after.inode_to_path.spec_map()[j]@;
        &&& (cur == p0 || (starts_with(p0, pre) && cur == moved_path(p0, op, np)))
        &&& after.files().contains_key(cur)
        &&& after.files()[cur] == j
        &&& (pending_of(s0, p0) is Some ==> pending_of(after, cur) == pending_of(s0, p0))
        &&& (cur != p0 ==> !after.files().contains_key(p0))
    } by {
        let p0 = i2p0[j]@;
        let cur = before.inode_to_path.spec_map()[j]@;
        assert(s0.files().contains_key(p0) && s0.files()[p0] == j);
        assert(!starts_with(p0, np + seq!['/']));
        if j != fino {
            assert(after.inode_to_path.spec_map()[j] == before.inode_to_path.spec_map()[j]);
            if cur == p {
                assert(before.files()[p] == fino);
            }
            if cur == newp {
                if cur != p0 {
                    lemma_moved_path(p0, p, op, np);
                    assert(s0.files()[p] == fino);
                }
            }
            assert(cur != p && cur != newp);
            if cur != p0 {
                assert(p0 != newp);
            }
        } else {
            assert(p0 != newp);
        }
    }
}

/// What renaming directory `op` to `np` does below it, from state `s` to
/// state `f`: every directory below `op` moves below `np` with its inode;
/// and, where each inode's recorded path maps back to it, every file or
/// symlink below `op` moves below `np` with its inode and pending contents.
pub open spec fn subtree_moved(s: FsState, f: FsState, op: Seq<char>, np: Seq<char>) -> bool {
    let pre = op + seq!['/'];
    &&& forall|d: Seq<char>|
        #[trigger] s.dirs().contains_key(d) && starts_with(d, pre) ==> {
            &&& f.dirs().contains_key(moved_path(d, op, np))
            &&& f.dirs()[moved_path(d, op, np)] == s.dirs()[d]
            &&& !f.dirs().contains_key(d)
        }
    &&& s.paths_coherent() ==> forall|i: u64|
        #[trigger] s.inode_to_path.spec_map().contains_key(i) && starts_with(
            s.inode_to_path.spec_map()[i]@,
            pre,
        ) ==> {
            let p = s.inode_to_path.spec_map()[i]@;
            let q = moved_path(p, op, np);
            &&& f.files().contains_key(q)
            &&& f.files()[q] == i
            &&& f.inode_to_path.spec_map()[i]@ == q
            &&& !f.files().contains_key(p)
            &&& pending_of(s, p) is Some ==> pending_of(f, q) == pending_of(s, p)
        }
}

/// How a file's move from `op` to `np` shows in the archive, from state `s`
/// to state `f`: a destination file's entries are deleted (giving `a1`),
/// the file's entry is copied to `np` as [`entry_moved`] says (giving
/// `a2`), and the entries of `op` are deleted.
pub open spec fn archive_moved(s: FsState, f: FsState, op: Seq<char>, np: Seq<char>, kind: FileKind) -> bool {
    exists|a1: Archive, a2: Archive|
        #![trigger entry_moved(a1, a2, op, np, kind, FsState { archive: a1, ..f }.spec_file_mode(op), pending_of(f, np))]
        (if s.files().contains_key(np) {
            s.archive.deleted(a1, encode_utf8(np))
        } else {
            a1 == s.archive
        }) && entry_moved(
            a1,
            a2,
            op,
            np,
            kind,
            FsState { archive: a1, ..f }.spec_file_mode(op),
            pending_of(f, np),
        ) && a2.deleted(f.archive, encode_utf8(op))
}

/// The pending contents of `p` in state `s`, if it has any.
pub open spec fn pending_of(s: FsState, p: Seq<char>) -> Option<Seq<u8>> {
    if s.modified_data.spec_map().contains_key(p) {
        Some(s.modified_data.spec_map()[p]@)
    } else {
        None
    }
}


/// What moving a file's archive entry from `op` to `np` makes of archive
/// `a` (the archive once a replaced destination is gone), before the old
/// entry is deleted: a symlink's (`kind`) target (when it is valid UTF-8), or a
/// regular file's archive data (else its pending contents `pending`), is
/// added under `np` when there is room and the archive accepts the path;
/// otherwise `b` is `a`. A regular file keeps the permission bits `perm`.
pub open spec fn entry_moved(
    a: Archive,
    b: Archive,
    op: Seq<char>,
    np: Seq<char>,
    kind: FileKind,
    perm: u32,
    pending: Option<Seq<u8>>,
) -> bool {
    let key = encode_utf8(normalize_chars(np)->0);
    let found = a.spec_lookup(encode_utf8(op));
    if kind == FileKind::Symlink {
        match found {
            Some(t) => {
                let d = read_block(a.spec_bytes(), t.0);
                if spec_kind_of_mode(t.0.mode) == EntryKind::Symlink && d is Some && valid_utf8(d->0)
                    && a.room_for(d->0.len()) && a.symlink_error(np, d->0) is None {
                    a.entry_added(b, key, d->0, symlink_mode(0o777), None, None)
                } else {
                    b == a
                }
            },
            None => b == a,
        }
    } else {
        let data: Option<(Seq<u8>, u32)> = match found {
            Some(t) => if spec_kind_of_mode(t.0.mode) == EntryKind::File && read_block(
                a.spec_bytes(),
                t.0,
            ) is Some {
                Some((read_block(a.spec_bytes(), t.0)->0, S_IFREG | perm))
            } else {
                match pending {
                    Some(d) => Some((d, DEFAULT_FILE_MODE)),
                    None => None,
                }
            },
            None => match pending {
                Some(d) => Some((d, DEFAULT_FILE_MODE)),
                None => None,
            },
        };
        match data {
            Some((d, m)) => if a.room_for(d.len()) && a.add_error(np) is None {
                a.entry_added(b, key, d, m, None, None)
            } else {
                b == a
            },
            None => b == a,
        }
    }
}


/// What `rename_entry(old_parent_ino, old_name, new_parent_ino, new_name,
/// caller_uid)` does from state `s`, giving state `f` and result `r`; on
/// success both parent directories get a pending modification time (the
/// clock's, so its value is not stated).
pub open spec fn rename_post(
    s: FsState,
    f: FsState,
    old_parent_ino: u64,
    old_name: Seq<char>,
    new_parent_ino: u64,
    new_name: Seq<char>,
    caller_uid: u32,
    r: Result<(), Errno>,
) -> bool {
    match s.rename_error(old_parent_ino, old_name, new_parent_ino, new_name, caller_uid) {
        Some(e) => r == Err::<(), Errno>(e) && f == s,
        None => {
            let op = s.child_path(old_parent_ino, old_name);
            let np = s.child_path(new_parent_ino, new_name);
            let dest = s.files().contains_key(np);
            let d = s.files()[np];
            &&& r is Ok
            &&& f.contents().dom() == s.contents().dom()
            &&& !has_key(f.archive.spec_dirs(), f.archive.key_of(encode_utf8(op)))
            &&& (old_parent_ino != new_parent_ino || old_name != new_name) ==> forall|k: int|
                0 <= k < f.contents()[old_parent_ino]@.len() ==> (#[trigger] f.contents()[old_parent_ino]@[k]).name@ != old_name
            &&& s.files().contains_key(op) ==> {
                let ino = s.files()[op];
                let kind = if first_named_is_symlink(
                    s.contents()[old_parent_ino]@,
                    old_name,
                ) {
                    FileKind::Symlink
                } else {
                    FileKind::RegularFile
                };
                &&& f.files() == s.files().remove(op).insert(np, ino)
                &&& f.dirs() == s.dirs()
                &&& f.inode_to_path.spec_map().dom() == dropped_if(
                    s.inode_to_path.spec_map(),
                    d,
                    dest,
                ).dom().insert(ino)
                &&& f.inode_to_path.spec_map()[ino]@ == np
                &&& forall|k: u64|
                    k != ino ==> #[trigger] f.inode_to_path.spec_map().get(k)
                        == dropped_if(s.inode_to_path.spec_map(), d, dest).get(k)
                &&& f.nlink_counts.spec_map() == dropped_if(
                    s.nlink_counts.spec_map(),
                    d,
                    dest,
                )
                &&& f.modified_data.spec_map() == moved_key(
                    dropped_if(s.modified_data.spec_map(), np, dest),
                    op,
                    np,
                )
                &&& f.modified_modes.spec_map() == moved_key(
                    dropped_if(s.modified_modes.spec_map(), np, dest),
                    op,
                    np,
                )
                &&& f.modified_uids.spec_map() == moved_key(
                    dropped_if(s.modified_uids.spec_map(), np, dest),
                    op,
                    np,
                )
                &&& f.modified_gids.spec_map() == moved_key(
                    dropped_if(s.modified_gids.spec_map(), np, dest),
                    op,
                    np,
                )
                &&& entry_is(f.contents()[new_parent_ino]@.last(), new_name, ino, kind)
                &&& archive_moved(s, f, op, np, kind)
            }
            &&& !s.files().contains_key(op) && !starts_with(np, op + seq!['/'])
                ==> {
                &&& f.dirs().contains_key(np)
                &&& f.dirs()[np] == s.dirs()[op]
                &&& !starts_with(op, np + seq!['/']) ==> !f.dirs().contains_key(op)
                &&& !starts_with(op, np + seq!['/']) && nothing_under(s, np) ==> subtree_moved(s, f, op, np)
                &&& entry_is(
                    f.contents()[new_parent_ino]@.last(),
                    new_name,
                    s.dirs()[op],
                    FileKind::Directory,
                )
            }
            &&& !s.files().contains_key(op) ==> dir_archive_moved(s.archive, f.archive, op, np)
            &&& f.modified_times.spec_map().contains_key(dir_path_of(f.dirs(), old_parent_ino))
            &&& f.modified_times.spec_map().contains_key(dir_path_of(f.dirs(), new_parent_ino))
        }
    }
}

/// What `create_directory(parent_ino, name, mode)` does from state `s`,
/// giving state `f` and result `r`.
pub open spec fn create_dir_post(
    s: FsState,
    f: FsState,
    parent_ino: u64,
    name: Seq<char>,
    mode: u32,
    r: Result<(u64, FileAttr), Errno>,
) -> bool {
    match s.create_error(parent_ino, name) {
        Some(e) => r == Err::<(u64, FileAttr), Errno>(e) && f == s,
        None => if s.next_dir_ino == u64::MAX || !s.archive.room_for(0) {
            r == Err::<(u64, FileAttr), Errno>(Errno::Io) && f == s
        } else {
            let full = s.child_path(parent_ino, name);
            let ino = s.next_dir_ino;
            &&& f.next_dir_ino == ino + 1
            &&& f.dirs() == s.dirs().insert(full, ino)
            &&& f.contents().dom() == s.contents().dom().insert(ino)
            &&& f.contents()[ino]@ == Seq::<FuseDirEntry>::empty()
            &&& f.contents()[parent_ino]@.drop_last() == s.contents()[parent_ino]@
            &&& entry_is(
                f.contents()[parent_ino]@.last(),
                name,
                ino,
                FileKind::Directory,
            )
            &&& forall|k: u64|
                k != parent_ino && k != ino ==> #[trigger] f.contents()[k] == s.contents()[k]
            &&& f.same_except_dirs(&s)
            &&& (r is Ok <==> s.archive.add_error(full) is None)
            &&& r is Ok ==> {
                &&& s.archive.entry_added(
                    f.archive,
                    encode_utf8(normalize_chars(full)->0),
                    Seq::empty(),
                    directory_mode(S_IFDIR | (mode & PERM_MASK)),
                    None,
                    None,
                )
                &&& r == Ok::<(u64, FileAttr), Errno>(
                    (ino, f.spec_attr(ino, FileKind::Directory)),
                )
                &&& f.modified_times.spec_map().dom()
                    == s.modified_times.spec_map().dom().insert(
                    dir_path_of(s.dirs(), parent_ino),
                )
            }
            &&& r is Err ==> r == Err::<(u64, FileAttr), Errno>(Errno::Io)
        },
    }
}

/// What `create_file(parent_ino, name, mode)` does from state `s`, giving
/// state `f` and result `r`.
pub open spec fn create_file_post(
    s: FsState,
    f: FsState,
    parent_ino: u64,
    name: Seq<char>,
    mode: u32,
    r: Result<(u64, FileAttr), Errno>,
) -> bool {
    match s.create_error(parent_ino, name) {
        Some(e) => r == Err::<(u64, FileAttr), Errno>(e) && f == s,
        None => if s.next_file_ino == u64::MAX || !s.archive.room_for(0) {
            r == Err::<(u64, FileAttr), Errno>(Errno::Io) && f == s
        } else {
            let full = s.child_path(parent_ino, name);
            let ino = s.next_file_ino;
            &&& f.next_file_ino == ino + 1
            &&& f.files() == s.files().insert(full, ino)
            &&& f.inode_to_path.spec_map().dom() == s.inode_to_path.spec_map().dom().insert(ino)
            &&& f.inode_to_path.spec_map()[ino]@ == full
            &&& f.modified_data.spec_map().dom() == s.modified_data.spec_map().dom().insert(full)
            &&& f.modified_data.spec_map()[full]@ == Seq::<u8>::empty()
            &&& f.dirs() == s.dirs()
            &&& f.contents().dom() == s.contents().dom()
            &&& f.contents()[parent_ino]@.drop_last() == s.contents()[parent_ino]@
            &&& entry_is(
                f.contents()[parent_ino]@.last(),
                name,
                ino,
                FileKind::RegularFile,
            )
            &&& forall|k: u64|
                k != parent_ino ==> #[trigger] f.contents()[k] == s.contents()[k]
            &&& (r is Ok <==> s.archive.add_error(full) is None)
            &&& r is Ok ==> {
                &&& s.archive.entry_added(
                    f.archive,
                    encode_utf8(normalize_chars(full)->0),
                    Seq::empty(),
                    S_IFREG | (mode & PERM_MASK),
                    None,
                    None,
                )
                &&& r == Ok::<(u64, FileAttr), Errno>(
                    (
                        ino,
                        plain_attr(
                            ino,
                            FileKind::RegularFile,
                            if (mode & PERM_MASK) == 0 {
                                DEFAULT_FILE_PERM as u16
                            } else {
                                (mode & PERM_MASK) as u16
                            },
                            s.mount_time,
                            s.spec_uid(full),
                            s.spec_gid(full),
                        ),
                    ),
                )
            }
            &&& r is Err ==> r == Err::<(u64, FileAttr), Errno>(Errno::Io)
        },
    }
}

/// What `create_symlink(parent_ino, name, target)` does from state `s`,
/// giving state `f` and result `r`.
pub open spec fn create_symlink_post(
    s: FsState,
    f: FsState,
    parent_ino: u64,
    name: Seq<char>,
    target: Seq<char>,
    r: Result<(u64, FileAttr), Errno>,
) -> bool {
    match s.create_error(parent_ino, name) {
        Some(e) => r == Err::<(u64, FileAttr), Errno>(e) && f == s,
        None => match s.symlink_target_for(target) {
            Err(e) => r == Err::<(u64, FileAttr), Errno>(e) && f == s,
            Ok(t) => if s.next_file_ino == u64::MAX || !s.archive.room_for(
                encode_utf8(t).len(),
            ) {
                r == Err::<(u64, FileAttr), Errno>(Errno::Io) && f == s
            } else {
                let full = s.child_path(parent_ino, name);
                let ino = s.next_file_ino;
                &&& f.next_file_ino == ino + 1
                &&& f.files() == s.files().insert(full, ino)
                &&& f.inode_to_path.spec_map().dom() == s.inode_to_path.spec_map().dom().insert(ino)
                &&& f.inode_to_path.spec_map()[ino]@ == full
                &&& f.dirs() == s.dirs()
                &&& f.contents().dom() == s.contents().dom()
                &&& f.contents()[parent_ino]@.drop_last() == s.contents()[parent_ino]@
                &&& entry_is(
                    f.contents()[parent_ino]@.last(),
                    name,
                    ino,
                    FileKind::Symlink,
                )
                &&& match s.archive.symlink_error(full, encode_utf8(t)) {
                    Some(e) => r == Err::<(u64, FileAttr), Errno>(symlink_errno(e)),
                    None => {
                        &&& s.archive.entry_added(
                            f.archive,
                            encode_utf8(normalize_chars(full)->0),
                            encode_utf8(t),
                            symlink_mode(0o777),
                            None,
                            None,
                        )
                        &&& r == Ok::<(u64, FileAttr), Errno>(
                            (
                                ino,
                                FileAttr {
                                    size: encode_utf8(t).len() as u64,
                                    perm: 0o777,
                                    ..plain_attr(
                                        ino,
                                        FileKind::Symlink,
                                        0o777,
                                        s.mount_time,
                                        s.spec_uid(full),
                                        s.spec_gid(full),
                                    )
                                },
                            ),
                        )
                    },
                }
            },
        },
    }
}

/// `f` and `r` are what the kernel-facing creation requests make of the
/// outcome `r0` (reached in state `m`) of creating `path`: an error is
/// passed on; a new node is owned by the caller, in its attributes and as a
/// pending owner change for its path.
pub open spec fn owned_outcome(
    m: FsState,
    f: FsState,
    path: Seq<char>,
    r0: Result<(u64, FileAttr), Errno>,
    r: Result<(u64, FileAttr), Errno>,
    uid: u32,
    gid: u32,
) -> bool {
    match r0 {
        Err(e) => r == Err::<(u64, FileAttr), Errno>(e) && f == m,
        Ok((ino, a)) => {
            &&& r == Ok::<(u64, FileAttr), Errno>((ino, FileAttr { uid, gid, ..a }))
            &&& f == (FsState { modified_uids: f.modified_uids, modified_gids: f.modified_gids, ..m })
            &&& f.modified_uids.spec_map() == m.modified_uids.spec_map().insert(path, uid)
            &&& f.modified_gids.spec_map() == m.modified_gids.spec_map().insert(path, gid)
        },
    }
}

/// An archive entry as the tree building reads it: its path when valid
/// UTF-8 (cut at the first NUL), its kind, its time (never before the
/// epoch) and its ID.
pub struct TreeItem {
    /// The path text, when the stored path is valid UTF-8.
    pub path: Option<String>,
    /// The entry's kind.
    pub kind: EntryKind,
    /// The modification time.
    pub mtime: i64,
    /// The entry ID.
    pub id: u32,
}

/// Whether `item` describes listed entry `e`.
pub open spec fn item_of(item: TreeItem, e: (EntryRow, Seq<u8>)) -> bool {
    let t = trim_nul(e.1);
    &&& (item.path is Some <==> valid_utf8(t))
    &&& item.path matches Some(p) ==> p@ == decode_utf8(t)
    &&& item.kind == spec_kind_of_mode(e.0.mode)
    &&& item.mtime == not_before_epoch(e.0.modified_time)
    &&& item.id == e.0.entry_id
}

/// How many of the first `n` listed entries are files or symlinks with
/// entry ID `id`.
pub open spec fn id_rows(l: Seq<(EntryRow, Seq<u8>)>, id: u64, n: int) -> nat
    decreases n,
{
    if n <= 0 {
        0
    } else {
        id_rows(l, id, n - 1) + if file_row(l[n - 1]) && l[n - 1].0.entry_id as u64 == id {
            1nat
        } else {
            0nat
        }
    }
}

/// The most directory inodes that building the tree from the first `n`
/// listed entries can take: for each entry with a UTF-8 path, one per
/// character and two more.
pub open spec fn dir_budget(l: Seq<(EntryRow, Seq<u8>)>, n: int) -> nat
    decreases n,
{
    if n <= 0 {
        0
    } else {
        dir_budget(l, n - 1) + if valid_utf8(trim_nul(l[n - 1].1)) {
            row_path(l[n - 1]).len() + 2
        } else {
            0nat
        }
    }
}

/// A count as a link count: the count itself, or the largest link count.
pub open spec fn capped(c: nat) -> u32 {
    if c < u32::MAX {
        c as u32
    } else {
        u32::MAX
    }
}

/// Whether no two file or symlink entries listed in `l` have one path.
pub open spec fn distinct_file_paths(l: Seq<(EntryRow, Seq<u8>)>) -> bool {
    forall|a: int, b: int|
        0 <= a < b < l.len() && file_row(#[trigger] l[a]) && file_row(#[trigger] l[b]) ==> row_path(l[a])
            != row_path(l[b])
}

/// Recording file entry `i` (path `p`, ID `id`) keeps the link counts
/// counted and the recorded paths coherent.
proof fn lemma_file_node_counts(
    b0: FsState,
    before: FsState,
    after: FsState,
    l: Seq<(EntryRow, Seq<u8>)>,
    i: int,
    p: Seq<char>,
    id: u32,
)
    requires
        b0.built_from(l.take(i)),
        b0.files() == before.files(),
        0 <= i < l.len(),
        file_row(l[i]),
        row_path(l[i]) == p,
        l[i].0.entry_id == id,
        before.next_file_ino < u64::MAX ==> before.links_counted(l, i) && before.ids_apart(),
        distinct_file_paths(l) ==> before.paths_coherent(),
        forall|k: int| 0 <= k < i && file_row(#[trigger] l[k]) ==> before.entry_id_to_ino.spec_map().contains_key(
            l[k].0.entry_id as u64,
        ),
        after.next_file_ino >= before.next_file_ino,
        after.next_file_ino < u64::MAX && before.ids_apart() ==> after.ids_apart(),
        after.files().dom() == before.files().dom().insert(p),
        after.entry_id_to_ino.spec_map().contains_key(id as u64),
        after.files()[p] == after.entry_id_to_ino.spec_map()[id as u64],
        forall|q: Seq<char>| q != p && #[trigger] before.files().contains_key(q) ==> after.files()[q] == before.files()[q],
        before.entry_id_to_ino.spec_map().contains_key(id as u64) ==> {
            let e = before.entry_id_to_ino.spec_map()[id as u64];
            &&& after.entry_id_to_ino == before.entry_id_to_ino
            &&& after.nlink_counts.spec_map() == before.nlink_counts.spec_map().insert(
                e,
                if before.nlink_counts.spec_map().contains_key(e) {
                    bumped(before.nlink_counts.spec_map()[e])
                } else {
                    2
                },
            )
        },
        !before.entry_id_to_ino.spec_map().contains_key(id as u64) ==> {
            &&& after.entry_id_to_ino.spec_map() == before.entry_id_to_ino.spec_map().insert(
                id as u64,
                before.next_file_ino,
            )
            &&& after.nlink_counts.spec_map() == before.nlink_counts.spec_map().insert(before.next_file_ino, 1)
        },
        after.inode_to_path.spec_map().dom() == before.inode_to_path.spec_map().dom().insert(after.files()[p]),
        after.inode_to_path.spec_map()[after.files()[p]]@ == p,
        forall|j: u64|
            j != after.files()[p] ==> #[trigger] after.inode_to_path.spec_map().get(j)
                == before.inode_to_path.spec_map().get(j),
    ensures
        after.next_file_ino < u64::MAX ==> after.links_counted(l, i + 1),
        distinct_file_paths(l) ==> after.paths_coherent(),
{
    let xid = id as u64;
    if after.next_file_ino < u64::MAX {
        assert(before.links_counted(l, i) && before.ids_apart());
        if !before.entry_id_to_ino.spec_map().contains_key(xid) {
            lemma_id_rows_zero(l, xid, i);
        }
        assert forall|x: u64| #[trigger] after.entry_id_to_ino.spec_map().contains_key(x) implies after.nlink_counts.spec_map().contains_key(
            after.entry_id_to_ino.spec_map()[x],
        ) && after.nlink_counts.spec_map()[after.entry_id_to_ino.spec_map()[x]] == capped(id_rows(l, x, i + 1)) by {
            assert(id_rows(l, x, i + 1) == id_rows(l, x, i) + if x == xid { 1nat } else { 0nat });
            if x != xid {
                assert(before.entry_id_to_ino.spec_map().contains_key(x));
                assert(before.entry_id_to_ino.spec_map()[x] < before.next_file_ino);
            }
        }
    }
    if distinct_file_paths(l) {
        assert(!before.files().contains_key(p)) by {
            if before.files().contains_key(p) {
                let lb = l.take(i);
                let k = choose|k: int| 0 <= k < lb.len() && file_row(#[trigger] lb[k]) && row_path(lb[k]) == p;
                assert(lb[k] == l[k]);
            }
        }
        assert forall|j: u64| #[trigger] after.inode_to_path.spec_map().contains_key(j) implies after.files().contains_key(
            after.inode_to_path.spec_map()[j]@,
        ) && after.files()[after.inode_to_path.spec_map()[j]@] == j by {
            if j != after.files()[p] {
                assert(after.inode_to_path.spec_map().get(j) == before.inode_to_path.spec_map().get(j));
                assert(before.inode_to_path.spec_map().contains_key(j));
            }
        }
    }
}

/// No file entry among the first `n` has ID `id`: the count is zero.
proof fn lemma_id_rows_zero(l: Seq<(EntryRow, Seq<u8>)>, id: u64, n: int)
    requires
        forall|k: int| 0 <= k < n && file_row(#[trigger] l[k]) ==> l[k].0.entry_id as u64 != id,
    ensures
        id_rows(l, id, n) == 0,
    decreases n,
{
    if n > 0 {
        lemma_id_rows_zero(l, id, n - 1);
    }
}

/// A link count one higher, staying at the largest count.
pub open spec fn bumped(n: u32) -> u32 {
    if n < u32::MAX {
        (n + 1) as u32
    } else {
        n
    }
}

/// Whether listed entry `e` is a file or symlink with a UTF-8 path.
pub open spec fn file_row(e: (EntryRow, Seq<u8>)) -> bool {
    &&& valid_utf8(trim_nul(e.1))
    &&& (spec_kind_of_mode(e.0.mode) == EntryKind::File || spec_kind_of_mode(e.0.mode)
        == EntryKind::Symlink)
}

/// The path of listed entry `e`.
pub open spec fn row_path(e: (EntryRow, Seq<u8>)) -> Seq<char> {
    decode_utf8(trim_nul(e.1))
}

/// Whether entry `k` is the last file or symlink among the first `n` listed
/// entries `l` with its path: the one whose node the path keeps.
pub open spec fn last_file_row(l: Seq<(EntryRow, Seq<u8>)>, k: int, n: int) -> bool {
    &&& file_row(l[k])
    &&& forall|j: int| k < j < n && file_row(#[trigger] l[j]) ==> row_path(l[j]) != row_path(l[k])
}

impl FsState {
    /// The file map holds only paths of the files and symlinks listed in
    /// `l`, and the directory map only the root, the listed directories and
    /// the directories above listed paths.
    pub open spec fn built_from(&self, l: Seq<(EntryRow, Seq<u8>)>) -> bool {
        &&& forall|q: Seq<char>|
            #[trigger] self.files().contains_key(q) ==> exists|k: int|
                0 <= k < l.len() && file_row(#[trigger] l[k]) && row_path(l[k]) == q
        &&& forall|d: Seq<char>|
            #[trigger] self.dirs().contains_key(d) ==> d == Seq::<char>::empty() || exists|k: int|
                0 <= k < l.len() && valid_utf8(trim_nul(#[trigger] l[k].1)) && (d == trim_slashes(
                    row_path(l[k]),
                ) || reached_dir(trim_slashes(row_path(l[k])), d))
    }

    /// Each inode's recorded path maps back to it in the file map.
    pub open spec fn paths_coherent(&self) -> bool {
        forall|i: u64|
            #[trigger] self.inode_to_path.spec_map().contains_key(i) ==> self.files().contains_key(
                self.inode_to_path.spec_map()[i]@,
            ) && self.files()[self.inode_to_path.spec_map()[i]@] == i
    }

    /// Each entry ID's inode has as many links as the first `n` entries of
    /// `l` that are files or symlinks with that ID (up to the largest link
    /// count).
    pub open spec fn links_counted(&self, l: Seq<(EntryRow, Seq<u8>)>, n: int) -> bool {
        forall|x: u64|
            #[trigger] self.entry_id_to_ino.spec_map().contains_key(x) ==> self.nlink_counts.spec_map().contains_key(
                self.entry_id_to_ino.spec_map()[x],
            ) && self.nlink_counts.spec_map()[self.entry_id_to_ino.spec_map()[x]] == capped(
                id_rows(l, x, n),
            )
    }

    /// Every directory in the directory map has a listing.
    pub open spec fn dirs_listed(&self) -> bool {
        forall|p: Seq<char>| #[trigger] self.dirs().contains_key(p) ==> self.contents().contains_key(self.dirs()[p])
    }

    /// Entry IDs are given distinct inodes, each below the next file inode.
    pub open spec fn ids_apart(&self) -> bool {
        &&& forall|x: u64| #[trigger]
            self.entry_id_to_ino.spec_map().contains_key(x) ==> self.entry_id_to_ino.spec_map()[x]
                < self.next_file_ino
        &&& forall|x: u64, y: u64|
            #![trigger self.entry_id_to_ino.spec_map()[x], self.entry_id_to_ino.spec_map()[y]]
            self.entry_id_to_ino.spec_map().contains_key(x) && self.entry_id_to_ino.spec_map().contains_key(y)
                && x != y ==> self.entry_id_to_ino.spec_map()[x] != self.entry_id_to_ino.spec_map()[y]
    }

    /// Each path keeps the inode of its last file or symlink entry's ID:
    /// entries that share an ID (hard links) share one inode.
    pub open spec fn shares_by_id(&self, l: Seq<(EntryRow, Seq<u8>)>) -> bool {
        forall|k: int|
            0 <= k < l.len() && last_file_row(l, k, l.len() as int) ==> self.files()[row_path(
                #[trigger] l[k],
            )] == self.entry_id_to_ino.spec_map()[l[k].0.entry_id as u64]
    }

    /// Whether listed entry `e` has its node: a file or symlink path in the
    /// file map, a directory path (without trailing slashes) in the
    /// directory map, and every directory above it in the directory map.
    /// Entries whose path is not UTF-8 are skipped.
    pub open spec fn has_node_for(&self, e: (EntryRow, Seq<u8>)) -> bool {
        let t = trim_nul(e.1);
        let k = spec_kind_of_mode(e.0.mode);
        valid_utf8(t) ==> {
            &&& (k == EntryKind::File || k == EntryKind::Symlink) ==> self.files().contains_key(
                decode_utf8(t),
            )
            &&& k == EntryKind::Directory ==> self.dirs().contains_key(trim_slashes(decode_utf8(t)))
            &&& forall|d: Seq<char>|
                reached_dir(trim_slashes(decode_utf8(t)), d) && d != trim_slashes(decode_utf8(t))
                    ==> #[trigger] self.dirs().contains_key(d)
        }
    }

    /// The tree built from the listed entries `l` is coherent:
    /// - every listed entry has its node, and every directory above it one
    ///   (while directory inodes remain);
    /// - the file and directory maps hold nothing that `l` does not list or
    ///   imply, and every directory has a listing;
    /// - each path keeps the inode of its last entry's ID, so entries that
    ///   share an ID (hard links) share one inode, while distinct IDs get
    ///   distinct inodes (while file inodes remain);
    /// - each inode's link count is the number of listed entries with its
    ///   ID (up to the largest count; while file inodes remain);
    /// - where no two file entries share a path, each inode's recorded
    ///   path maps back to it.
    pub open spec fn tree_coherent(&self, l: Seq<(EntryRow, Seq<u8>)>) -> bool {
        &&& self.next_dir_ino < u64::MAX ==> forall|i: int| 0 <= i < l.len() ==> self.has_node_for(#[trigger] l[i])
        &&& self.built_from(l)
        &&& self.dirs_listed()
        &&& self.shares_by_id(l)
        &&& self.next_file_ino < u64::MAX ==> self.ids_apart()
        &&& self.next_file_ino < u64::MAX ==> self.links_counted(l, l.len() as int)
        &&& distinct_file_paths(l) ==> self.paths_coherent()
    }

    /// The archive's entries, as the tree building reads them.
    fn tree_items(&self) -> (r: Vec<TreeItem>)
        requires
            self.wf(),
        ensures
            r@.len() == listed(self.archive.spec_rows(), self.archive.spec_dirs()).len(),
            forall|i: int|
                0 <= i < r@.len() ==> item_of(
                    #[trigger] r@[i],
                    listed(self.archive.spec_rows(), self.archive.spec_dirs())[i],
                ),
    {
        let entries = self.archive.entries();
        let ghost l = listed(self.archive.spec_rows(), self.archive.spec_dirs());
        let mut out: Vec<TreeItem> = Vec::new();
        let mut i: usize = 0;
        while i < entries.len()
            invariant
                i <= entries@.len(),
                entries@.len() == l.len(),
                forall|k: int|
                    0 <= k < entries@.len() ==> *(#[trigger] entries@[k]).0 == l[k].0 && entries@[k].1@
                        == l[k].1,
                out@.len() == i,
                forall|k: int| 0 <= k < i ==> item_of(#[trigger] out@[k], l[k]),
            decreases entries@.len() - i,
        {
            let (row, pb) = entries[i];
            let path = ArchivePath::from_null_padded_bytes(pb);
            let text: Option<String> = match path.as_str() {
                Some(t) => Some(t.to_owned()),
                None => None,
            };
            let mtime = if row.modified_time < 0 {
                0
            } else {
                row.modified_time
            };
            out.push(TreeItem { path: text, kind: row.kind(), mtime, id: row.entry_id });
            i = i + 1;
        }
        out
    }

    /// Records file or symlink `path` with entry ID `id`: hard links (the
    /// same ID) share one inode whose link count grows; a new ID gets a
    /// fresh inode. The node is listed in its parent directory, whose time
    /// becomes the newest of its children's.
    fn add_file_node(&mut self, path: &str, kind: EntryKind, mtime: i64, id: u32)
        requires
            old(self).wf(),
            old(self).has_root(),
        ensures
            final(self).wf(),
            final(self).has_root(),
            final(self).dirs() == old(self).dirs(),
            final(self).files().dom() == old(self).files().dom().insert(path@),
            final(self).entry_id_to_ino.spec_map().contains_key(id as u64),
            final(self).files()[path@] == final(self).entry_id_to_ino.spec_map()[id as u64],
            forall|x: u64| #[trigger]
                old(self).entry_id_to_ino.spec_map().contains_key(x) ==> final(self).entry_id_to_ino.spec_map().contains_key(x) && final(self).entry_id_to_ino.spec_map()[x]
                    == old(self).entry_id_to_ino.spec_map()[x],
            forall|q: Seq<char>|
                q != path@ && #[trigger] old(self).files().contains_key(q) ==> final(self).files()[q]
                    == old(self).files()[q],
            final(self).next_file_ino >= old(self).next_file_ino,
            final(self).next_file_ino < u64::MAX && old(self).ids_apart() ==> final(self).ids_apart(),
            old(self).entry_id_to_ino.spec_map().contains_key(id as u64) ==> {
                let e = old(self).entry_id_to_ino.spec_map()[id as u64];
                &&& final(self).entry_id_to_ino == old(self).entry_id_to_ino
                &&& final(self).nlink_counts.spec_map() == old(self).nlink_counts.spec_map().insert(
                    e,
                    if old(self).nlink_counts.spec_map().contains_key(e) {
                        bumped(old(self).nlink_counts.spec_map()[e])
                    } else {
                        2
                    },
                )
            },
            !old(self).entry_id_to_ino.spec_map().contains_key(id as u64) ==> {
                &&& final(self).entry_id_to_ino.spec_map() == old(self).entry_id_to_ino.spec_map().insert(
                    id as u64,
                    old(self).next_file_ino,
                )
                &&& final(self).nlink_counts.spec_map() == old(self).nlink_counts.spec_map().insert(
                    old(self).next_file_ino,
                    1,
                )
            },
            final(self).inode_to_path.spec_map().dom() == old(self).inode_to_path.spec_map().dom().insert(
                final(self).files()[path@],
            ),
            final(self).inode_to_path.spec_map()[final(self).files()[path@]]@ == path@,
            forall|j: u64|
                j != final(self).files()[path@] ==> #[trigger] final(self).inode_to_path.spec_map().get(j)
                    == old(self).inode_to_path.spec_map().get(j),
            final(self).modified_modes == old(self).modified_modes,
            final(self).modified_times == old(self).modified_times,
            final(self).modified_uids == old(self).modified_uids,
            final(self).modified_gids == old(self).modified_gids,
            final(self).contents().dom() == old(self).contents().dom(),
            final(self).archive == old(self).archive,
            final(self).uid == old(self).uid,
            final(self).gid == old(self).gid,
            final(self).read_only == old(self).read_only,
            final(self).mount_point == old(self).mount_point,
            final(self).mount_time == old(self).mount_time,
            final(self).next_dir_ino == old(self).next_dir_ino,
            final(self).modified_data == old(self).modified_data,
    {
        let ino = match self.entry_id_to_ino.get(id as u64) {
            Some(existing) => {
                let e = *existing;
                let n = match self.nlink_counts.get(e) {
                    Some(c) => *c,
                    None => 1,
                };
                let n2 = if n < u32::MAX {
                    n + 1
                } else {
                    n
                };
                self.nlink_counts.insert(e, n2);
                e
            },
            None => {
                let fresh = self.next_file_ino;
                if fresh < u64::MAX {
                    self.next_file_ino = fresh + 1;
                }
                self.entry_id_to_ino.insert(id as u64, fresh);
                self.nlink_counts.insert(fresh, 1);
                fresh
            },
        };
        self.inode_to_path.insert(ino, path.to_owned());
        self.path_to_inode.insert(path.to_owned(), ino);
        proof {
            assert(self.files().dom() =~= old(self).files().dom().insert(path@));
        }
        match split_path(path) {
            Some((parent, name)) => {
                match self.dir_inodes.get(parent.as_str()) {
                    Some(p) => {
                        let pino = *p;
                        if self.dir_contents.contains(pino) {
                            let e = if kind == EntryKind::Symlink {
                                FuseDirEntry::symlink(name.as_str(), ino)
                            } else {
                                FuseDirEntry::file(name.as_str(), ino)
                            };
                            Self::push_entry(&mut self.dir_contents, pino, e);
                        }
                        let newest = match self.dir_mtimes.get(pino) {
                            Some(t) => if mtime > *t {
                                mtime
                            } else {
                                *t
                            },
                            None => mtime,
                        };
                        self.dir_mtimes.insert(pino, newest);
                    },
                    None => {},
                }
            },
            None => {},
        }
    }

    /// Records directory `path` (trailing slashes dropped) with time
    /// `mtime`: a new directory gets a fresh inode and is listed in its
    /// parent; a directory already derived from a file's path takes the
    /// time of its explicit entry.
    fn add_explicit_dir(&mut self, path: &str, mtime: i64)
        requires
            old(self).wf(),
            old(self).has_root(),
        ensures
            final(self).wf(),
            final(self).has_root(),
            final(self).same_but_dir_tree(old(self)),
            old(self).dirs().dom().subset_of(final(self).dirs().dom()),
            old(self).contents().dom().subset_of(final(self).contents().dom()),
            final(self).dirs().contains_key(trim_slashes(path@)) || old(self).next_dir_ino == u64::MAX,
            final(self).next_dir_ino >= old(self).next_dir_ino,
            final(self).next_dir_ino <= old(self).next_dir_ino + 1,
            old(self).dirs_listed() ==> final(self).dirs_listed(),
            forall|d: Seq<char>|
                #[trigger] final(self).dirs().contains_key(d) ==> old(self).dirs().contains_key(d) || d
                    == trim_slashes(path@),
    {
        let cs = chars_of(path);
        let n = trimmed_len(&cs);
        proof {
            lemma_trim_slashes(cs@);
        }
        let dir_path = path.substring_char(0, n).to_owned();
        proof {
            assert(dir_path@ =~= trim_slashes(path@));
        }
        match self.dir_inodes.get(dir_path.as_str()) {
            Some(existing) => {
                let e = *existing;
                self.dir_mtimes.insert(e, mtime);
            },
            None => {
                if self.next_dir_ino < u64::MAX {
                    let (parent_ino, name) = match split_path(dir_path.as_str()) {
                        Some((parent, name)) => match self.dir_inodes.get(parent.as_str()) {
                            Some(p) => (*p, name),
                            None => (0, name),
                        },
                        None => (0, String::new()),
                    };
                    self.add_dir_node(dir_path.clone(), name.as_str(), parent_ino, mtime);
                }
            },
        }
    }

    /// Builds the directory tree from the archive's entries: inodes for
    /// every directory (explicit, or implied by a path below it), every file
    /// and every symlink, the listings, and the directory times.
    fn build_directory_tree(&mut self)
        requires
            old(self).wf(),
            old(self).has_root(),
            old(self).files() == Map::<Seq<char>, u64>::empty(),
            old(self).entry_id_to_ino.spec_map() == Map::<u64, u64>::empty(),
            old(self).dirs() == Map::<Seq<char>, u64>::empty().insert(Seq::empty(), ROOT_INO),
            old(self).dirs_listed(),
            old(self).inode_to_path.spec_map() == Map::<u64, String>::empty(),
            old(self).next_dir_ino == DIR_INO_START,
        ensures
            final(self).next_dir_ino <= DIR_INO_START + dir_budget(
                listed(final(self).archive.spec_rows(), final(self).archive.spec_dirs()),
                listed(final(self).archive.spec_rows(), final(self).archive.spec_dirs()).len() as int,
            ),
            final(self).wf(),
            final(self).has_root(),
            final(self).archive == old(self).archive,
            final(self).uid == old(self).uid,
            final(self).gid == old(self).gid,
            final(self).read_only == old(self).read_only,
            final(self).mount_point == old(self).mount_point,
            final(self).mount_time == old(self).mount_time,
            final(self).modified_data == old(self).modified_data,
            final(self).next_dir_ino < u64::MAX ==> forall|i: int|
                0 <= i < listed(final(self).archive.spec_rows(), final(self).archive.spec_dirs()).len()
                    ==> final(self).has_node_for(
                    #[trigger] listed(final(self).archive.spec_rows(), final(self).archive.spec_dirs())[i],
                ),
            final(self).shares_by_id(listed(final(self).archive.spec_rows(), final(self).archive.spec_dirs())),
            final(self).built_from(listed(final(self).archive.spec_rows(), final(self).archive.spec_dirs())),
            final(self).dirs_listed(),
            final(self).next_file_ino < u64::MAX ==> final(self).ids_apart(),
            final(self).next_file_ino < u64::MAX ==> final(self).links_counted(
                listed(final(self).archive.spec_rows(), final(self).archive.spec_dirs()),
                listed(final(self).archive.spec_rows(), final(self).archive.spec_dirs()).len() as int,
            ),
            distinct_file_paths(listed(final(self).archive.spec_rows(), final(self).archive.spec_dirs()))
                ==> final(self).paths_coherent(),
            final(self).modified_modes == old(self).modified_modes,
            final(self).modified_times == old(self).modified_times,
            final(self).modified_uids == old(self).modified_uids,
            final(self).modified_gids == old(self).modified_gids,
    {
        let items = self.tree_items();
        let ghost l = listed(self.archive.spec_rows(), self.archive.spec_dirs());
        let ghost s0 = *self;
        let mut i: usize = 0;
        while i < items.len()
            invariant
                self.wf(),
                self.has_root(),
                i <= items@.len(),
                items@.len() == l.len(),
                l == listed(self.archive.spec_rows(), self.archive.spec_dirs()),
                forall|k: int| 0 <= k < items@.len() ==> item_of(#[trigger] items@[k], l[k]),
                self.archive == s0.archive,
                self.uid == s0.uid,
                self.gid == s0.gid,
                self.read_only == s0.read_only,
                self.mount_point == s0.mount_point,
                self.mount_time == s0.mount_time,
                s0 == *old(self),
                self.modified_data == s0.modified_data,
                self.next_dir_ino < u64::MAX ==> forall|k: int|
                    0 <= k < i ==> self.has_node_for(#[trigger] l[k]),
                self.built_from(l.take(i as int)),
                self.dirs_listed(),
                self.next_file_ino < u64::MAX ==> self.ids_apart(),
                self.next_file_ino < u64::MAX ==> self.links_counted(l, i as int),
                self.next_dir_ino <= DIR_INO_START + dir_budget(l, i as int),
                distinct_file_paths(l) ==> self.paths_coherent(),
                self.modified_modes == s0.modified_modes,
                self.modified_times == s0.modified_times,
                self.modified_uids == s0.modified_uids,
                self.modified_gids == s0.modified_gids,
                forall|k: int|
                    0 <= k < i && file_row(#[trigger] l[k]) ==> self.entry_id_to_ino.spec_map().contains_key(
                        l[k].0.entry_id as u64,
                    ) && self.files().contains_key(row_path(l[k])) && (last_file_row(l, k, i as int)
                        ==> self.files()[row_path(l[k])] == self.entry_id_to_ino.spec_map()[l[k].0.entry_id as u64]),
            decreases items@.len() - i,
        {
            let ghost before = *self;
            match &items[i].path {
                Some(path) => {
                    let kind = items[i].kind;
                    let mtime = items[i].mtime;
                    let id = items[i].id;
                    self.ensure_parent_dirs(path.as_str());
                    let ghost mid = self.dirs();
                    proof {
                        assert(forall|d: Seq<char>|
                            #[trigger] mid.contains_key(d) ==> before.dirs().contains_key(d) || reached_dir(
                                trim_slashes(path@),
                                d,
                            ));
                    }
                    match kind {
                        EntryKind::Directory => {
                            self.add_explicit_dir(path.as_str(), mtime);
                        },
                        EntryKind::File | EntryKind::Symlink => {
                            let ghost mids = *self;
                            self.add_file_node(path.as_str(), kind, mtime, id);
                            proof {
                                lemma_file_node_counts(before, mids, *self, l, i as int, path@, id);
                            }
                        },
                        _ => {},
                    }
                },
                None => {},
            }
            proof {
                if !file_row(l[i as int]) {
                    assert forall|x: u64| #[trigger] self.entry_id_to_ino.spec_map().contains_key(x)
                        implies id_rows(l, x, i as int + 1) == id_rows(l, x, i as int) by {}
                }
            }
            proof {
                let lt = l.take(i as int + 1);
                let lb = l.take(i as int);
                assert(lt[i as int] == l[i as int]);
                assert forall|q: Seq<char>| #[trigger] self.files().contains_key(q) implies exists|k: int|
                    0 <= k < lt.len() && file_row(#[trigger] lt[k]) && row_path(lt[k]) == q by {
                    if before.files().contains_key(q) {
                        let k = choose|k: int| 0 <= k < lb.len() && file_row(#[trigger] lb[k]) && row_path(lb[k]) == q;
                        assert(lt[k] == lb[k]);
                    } else {
                        assert(file_row(lt[i as int]) && row_path(lt[i as int]) == q);
                    }
                }
                assert forall|d: Seq<char>| #[trigger] self.dirs().contains_key(d) implies d == Seq::<char>::empty() || exists|k: int|
                    0 <= k < lt.len() && valid_utf8(trim_nul(#[trigger] lt[k].1)) && (d == trim_slashes(
                        row_path(lt[k]),
                    ) || reached_dir(trim_slashes(row_path(lt[k])), d)) by {
                    if before.dirs().contains_key(d) {
                        if d != Seq::<char>::empty() {
                            let k = choose|k: int|
                                0 <= k < lb.len() && valid_utf8(trim_nul(#[trigger] lb[k].1)) && (d == trim_slashes(
                                    row_path(lb[k]),
                                ) || reached_dir(trim_slashes(row_path(lb[k])), d));
                            assert(lt[k] == lb[k]);
                        }
                    } else {
                        assert(valid_utf8(trim_nul(lt[i as int].1)));
                    }
                }
                assert(before.dirs().dom().subset_of(self.dirs().dom()));
                assert(before.files().dom().subset_of(self.files().dom()));
                if self.next_dir_ino < u64::MAX {
                    assert(before.next_dir_ino <= self.next_dir_ino);
                    assert forall|k: int| 0 <= k < i + 1 implies self.has_node_for(#[trigger] l[k]) by {
                        if k < i {
                            assert(before.has_node_for(l[k]));
                        }
                    }
                }
            }
            i = i + 1;
        }
    }

    /// A filesystem view of `archive`: the root directory, then the tree
    /// built from the archive's entries; nothing pending; the mount time is
    /// now.
    pub fn new(archive: Archive, read_only: bool, uid: u32, gid: u32) -> (s: Self)
        requires
            archive.wf(),
        ensures
            s.wf(),
            s.has_root(),
            s.archive == archive,
            s.read_only == read_only,
            s.uid == uid,
            s.gid == gid,
            s.mount_point is None,
            s.modified_data.spec_map() == Map::<Seq<char>, Vec<u8>>::empty(),
            s.tree_coherent(listed(archive.spec_rows(), archive.spec_dirs())),
            s.next_dir_ino <= DIR_INO_START + dir_budget(
                listed(archive.spec_rows(), archive.spec_dirs()),
                listed(archive.spec_rows(), archive.spec_dirs()).len() as int,
            ),
            s.modified_modes.spec_map() == Map::<Seq<char>, u32>::empty(),
            s.modified_times.spec_map() == Map::<Seq<char>, i64>::empty(),
            s.modified_uids.spec_map() == Map::<Seq<char>, u32>::empty(),
            s.modified_gids.spec_map() == Map::<Seq<char>, u32>::empty(),
    {
        let mount_time = now_millis();
        let mut state = FsState {
            archive,
            read_only,
            uid,
            gid,
            mount_time,
            dir_inodes: NameTable::new(),
            dir_contents: InoTable::new(),
            inode_to_path: InoTable::new(),
            path_to_inode: NameTable::new(),
            modified_data: NameTable::new(),
            modified_modes: NameTable::new(),
            modified_times: NameTable::new(),
            modified_uids: NameTable::new(),
            modified_gids: NameTable::new(),
            dir_mtimes: InoTable::new(),
            entry_id_to_ino: InoTable::new(),
            nlink_counts: InoTable::new(),
            mount_point: None,
            next_file_ino: FILE_INO_START,
            next_dir_ino: DIR_INO_START,
            virtual_dir: VirtualDir::new(),
        };
        state.dir_inodes.insert(String::new(), ROOT_INO);
        state.dir_contents.insert(ROOT_INO, Vec::new());
        state.dir_mtimes.insert(ROOT_INO, mount_time);
        proof {
            let m = state.dirs();
            assert(m =~= Map::<Seq<char>, u64>::empty().insert(Seq::empty(), ROOT_INO));
            assert(state.files() =~= Map::<Seq<char>, u64>::empty());
            assert(state.entry_id_to_ino.spec_map() =~= Map::<u64, u64>::empty());
            assert(state.dirs_listed());
        }
        state.build_directory_tree();
        proof {
            assert(state.modified_data.spec_map() =~= Map::<Seq<char>, Vec<u8>>::empty());
            assert(state.modified_modes.spec_map() =~= Map::<Seq<char>, u32>::empty());
            assert(state.modified_times.spec_map() =~= Map::<Seq<char>, i64>::empty());
            assert(state.modified_uids.spec_map() =~= Map::<Seq<char>, u32>::empty());
            assert(state.modified_gids.spec_map() =~= Map::<Seq<char>, u32>::empty());
        }
        state
    }

    /// Sets the mount point used to turn absolute symlink targets into
    /// archive-relative ones.
    pub fn set_mount_point(&mut self, path: String)
        ensures
            final(self).mount_point == Some(path),
            *final(self) == (FsState { mount_point: Some(path), ..*old(self) }),
    {
        self.mount_point = Some(path);
    }
}

/// The position of the first `/` at or after `i` in `s`, or `s.len()`.
pub open spec fn first_slash_from(s: Seq<char>, i: int) -> int
    decreases s.len() - i,
{
    if i >= s.len() {
        s.len() as int
    } else if s[i] == '/' {
        i
    } else {
        first_slash_from(s, i + 1)
    }
}

/// The parts of `s` between slashes (empty parts included).
pub open spec fn slash_parts(s: Seq<char>) -> Seq<Seq<char>>
    decreases s.len(),
{
    let k = first_slash_from(s, 0);
    if k >= s.len() || k < 0 {
        seq![s]
    } else {
        seq![s.take(k)] + slash_parts(s.skip(k + 1))
    }
}

proof fn lemma_first_slash_at(s: Seq<char>, j: int, k: int)
    requires
        0 <= j <= k <= s.len(),
        forall|x: int| j <= x < k ==> #[trigger] s[x] != '/',
        k == s.len() || s[k] == '/',
    ensures
        first_slash_from(s, j) == k,
    decreases k - j,
{
    if j < k {
        lemma_first_slash_at(s, j + 1, k);
    }
}

/// One component step of lexical normalization: empty parts and `.` are
/// dropped, `..` drops the last kept component (if any), others are kept.
pub open spec fn norm_step(acc: Seq<Seq<char>>, p: Seq<char>) -> Seq<Seq<char>> {
    if p.len() == 0 || p == seq!['.'] {
        acc
    } else if p == seq!['.', '.'] {
        if acc.len() > 0 {
            acc.drop_last()
        } else {
            acc
        }
    } else {
        acc.push(p)
    }
}

/// Lexical normalization of path parts, from the kept components `acc`.
pub open spec fn norm_parts(parts: Seq<Seq<char>>, acc: Seq<Seq<char>>) -> Seq<Seq<char>>
    decreases parts.len(),
{
    if parts.len() == 0 {
        acc
    } else {
        norm_parts(parts.drop_first(), norm_step(acc, parts[0]))
    }
}

/// The lexically normalized components of `s`: `.` and repeated slashes
/// removed, `..` resolved against the components before it.
pub open spec fn norm_components(s: Seq<char>) -> Seq<Seq<char>> {
    norm_parts(slash_parts(s), Seq::empty())
}

/// Lexical normalization of a path: a leading `/` is kept, then the
/// normalized components joined with `/`.
pub open spec fn spec_normalize_path(s: Seq<char>) -> Seq<char> {
    if s.len() > 0 && s[0] == '/' {
        seq!['/'] + join_slash(norm_components(s))
    } else {
        join_slash(norm_components(s))
    }
}

/// The components of a path as given, without empty parts and `.`.
pub open spec fn plain_components(s: Seq<char>) -> Seq<Seq<char>> {
    slash_parts(s).filter(|p: Seq<char>| p.len() > 0 && p != seq!['.'])
}

/// The character sequences of a vector of strings.
pub open spec fn texts(v: Seq<String>) -> Seq<Seq<char>> {
    v.map_values(|x: String| x@)
}

proof fn lemma_norm_cons(p: Seq<char>, rest: Seq<Seq<char>>, acc: Seq<Seq<char>>)
    ensures
        norm_parts(seq![p] + rest, acc) == norm_parts(rest, norm_step(acc, p)),
{
    let ps = seq![p] + rest;
    assert(ps[0] == p);
    assert(ps.drop_first() =~= rest);
}

/// Applies one normalization step to the kept components.
fn apply_norm_step(acc: &mut Vec<String>, part: &str)
    ensures
        texts(final(acc)@) == norm_step(texts(old(acc)@), part@),
{
    proof {
        reveal_strlit(".");
        reveal_strlit("..");
    }
    let dot = ".".to_owned();
    let dotdot = "..".to_owned();
    let p = part.to_owned();
    assert(dot@ =~= seq!['.']);
    assert(dotdot@ =~= seq!['.', '.']);
    if part.is_empty() || p == dot {
        return;
    }
    if p == dotdot {
        if acc.len() > 0 {
            acc.pop();
            proof {
                assert(texts(acc@) =~= texts(old(acc)@).drop_last());
            }
        }
        return;
    }
    acc.push(p);
    proof {
        assert(texts(acc@) =~= texts(old(acc)@).push(part@));
    }
}

/// The normalized components of `path`.
fn normalized_components(path: &str) -> (r: Vec<String>)
    ensures
        texts(r@) == norm_components(path@),
{
    let cs = chars_of(path);
    let n = cs.len();
    let mut acc: Vec<String> = Vec::new();
    let mut start: usize = 0;
    let mut i: usize = 0;
    proof {
        assert(path@.skip(0) =~= path@);
        assert(texts(acc@) =~= Seq::<Seq<char>>::empty());
    }
    while i < n
        invariant
            cs@ == path@,
            n == cs@.len(),
            start <= i <= n,
            forall|x: int| start <= x < i ==> #[trigger] cs@[x] != '/',
            norm_components(path@) == norm_parts(slash_parts(path@.skip(start as int)), texts(acc@)),
        decreases n - i,
    {
        if cs[i] == '/' {
            let part = path.substring_char(start, i);
            proof {
                let t = path@.skip(start as int);
                assert forall|x: int| 0 <= x < i - start implies #[trigger] t[x] != '/' by {
                    assert(t[x] == cs@[start + x]);
                }
                lemma_first_slash_at(t, 0, i - start);
                assert(t.take(i - start) =~= part@);
                assert(t.skip(i - start + 1) =~= path@.skip(i + 1));
                lemma_norm_cons(part@, slash_parts(path@.skip(i + 1)), texts(acc@));
            }
            apply_norm_step(&mut acc, part);
            start = i + 1;
        }
        i = i + 1;
    }
    let part = path.substring_char(start, n);
    proof {
        let t = path@.skip(start as int);
        assert forall|x: int| 0 <= x < n - start implies #[trigger] t[x] != '/' by {
            assert(t[x] == cs@[start + x]);
        }
        lemma_first_slash_at(t, 0, n - start);
        assert(t =~= part@);
        assert(slash_parts(t) == seq![t]);
        lemma_norm_cons(part@, Seq::empty(), texts(acc@));
        assert(seq![part@] + Seq::<Seq<char>>::empty() =~= seq![part@]);
    }
    apply_norm_step(&mut acc, part);
    acc
}

/// The parts of `path` between slashes.
fn slash_split(path: &str) -> (r: Vec<String>)
    ensures
        texts(r@) == slash_parts(path@),
{
    let cs = chars_of(path);
    let n = cs.len();
    let mut acc: Vec<String> = Vec::new();
    let mut start: usize = 0;
    let mut i: usize = 0;
    proof {
        assert(path@.skip(0) =~= path@);
        assert(texts(acc@) + slash_parts(path@) =~= slash_parts(path@));
    }
    while i < n
        invariant
            cs@ == path@,
            n == cs@.len(),
            start <= i <= n,
            forall|x: int| start <= x < i ==> #[trigger] cs@[x] != '/',
            slash_parts(path@) == texts(acc@) + slash_parts(path@.skip(start as int)),
        decreases n - i,
    {
        if cs[i] == '/' {
            let part = path.substring_char(start, i);
            proof {
                let t = path@.skip(start as int);
                assert forall|x: int| 0 <= x < i - start implies #[trigger] t[x] != '/' by {
                    assert(t[x] == cs@[start + x]);
                }
                lemma_first_slash_at(t, 0, i - start);
                assert(t.take(i - start) =~= part@);
                assert(t.skip(i - start + 1) =~= path@.skip(i + 1));
            }
            let ghost before = texts(acc@);
            acc.push(part.to_owned());
            proof {
                assert(texts(acc@) =~= before.push(part@));
                assert(before + (seq![part@] + slash_parts(path@.skip(i + 1))) =~= before.push(part@)
                    + slash_parts(path@.skip(i + 1)));
            }
            start = i + 1;
        }
        i = i + 1;
    }
    let part = path.substring_char(start, n);
    proof {
        let t = path@.skip(start as int);
        assert forall|x: int| 0 <= x < n - start implies #[trigger] t[x] != '/' by {
            assert(t[x] == cs@[start + x]);
        }
        lemma_first_slash_at(t, 0, n - start);
        assert(t =~= part@);
    }
    let ghost before = texts(acc@);
    acc.push(part.to_owned());
    proof {
        assert(texts(acc@) =~= before.push(part@));
        assert(before + seq![part@] =~= before.push(part@));
    }
    acc
}

/// The components of `path` as given, without empty parts and `.`.
fn plain_components_of(path: &str) -> (r: Vec<String>)
    ensures
        texts(r@) == plain_components(path@),
{
    let raw = slash_split(path);
    let ghost keep = |p: Seq<char>| p.len() > 0 && p != seq!['.'];
    proof {
        reveal_strlit(".");
    }
    let dot = ".".to_owned();
    assert(dot@ =~= seq!['.']);
    let mut out: Vec<String> = Vec::new();
    let mut i: usize = 0;
    proof {
        assert(texts(raw@).take(0).filter(keep) =~= Seq::<Seq<char>>::empty()) by {
            reveal(Seq::filter);
        }
        assert(texts(out@) =~= Seq::<Seq<char>>::empty());
    }
    while i < raw.len()
        invariant
            i <= raw@.len(),
            dot@ == seq!['.'],
            keep == (|p: Seq<char>| p.len() > 0 && p != seq!['.']),
            texts(out@) == texts(raw@).take(i as int).filter(keep),
        decreases raw@.len() - i,
    {
        let ghost before = texts(out@);
        proof {
            reveal(Seq::filter);
            assert(texts(raw@).take(i + 1).drop_last() =~= texts(raw@).take(i as int));
            assert(texts(raw@).take(i + 1).last() == raw@[i as int]@);
        }
        let p = raw[i].as_str().to_owned();
        if !p.as_str().is_empty() && p != dot {
            out.push(p);
            proof {
                assert(texts(out@) =~= before.push(raw@[i as int]@));
            }
        } else {
            proof {
                assert(texts(out@) =~= before);
            }
        }
        i = i + 1;
    }
    proof {
        assert(texts(raw@).take(raw@.len() as int) =~= texts(raw@));
    }
    out
}

/// `parts` from position `from` on, joined with `/`.
fn join_from(parts: &Vec<String>, from: usize) -> (r: String)
    requires
        from <= parts@.len(),
    ensures
        r@ == join_slash(texts(parts@).skip(from as int)),
{
    let ghost all = texts(parts@).skip(from as int);
    let mut r = String::new();
    let mut k: usize = from;
    proof {
        reveal_strlit("/");
        assert(all.take(0) =~= Seq::<Seq<char>>::empty());
    }
    while k < parts.len()
        invariant
            from <= k <= parts@.len(),
            all == texts(parts@).skip(from as int),
            r@ == join_slash(all.take(k - from)),
        decreases parts@.len() - k,
    {
        proof {
            assert(all.take(k - from + 1).drop_last() =~= all.take(k - from));
            assert(all.take(k - from + 1).last() == parts@[k as int]@);
        }
        if k > from {
            proof {
                reveal_strlit("/");
            }
            r.append("/");
            assert("/"@ =~= seq!['/']);
        } else {
            assert(r@ =~= Seq::<char>::empty());
        }
        r.append(parts[k].as_str());
        proof {
            if k == from {
                assert(all.take(1).len() == 1);
                assert(r@ =~= all.take(1)[0]);
            }
        }
        k = k + 1;
    }
    proof {
        assert(all.take(parts@.len() - from) =~= all);
    }
    r
}

/// Whether `s` starts with `/`.
fn starts_with_slash(s: &str) -> (b: bool)
    ensures
        b == (s@.len() > 0 && s@[0] == '/'),
{
    s.unicode_len() > 0 && s.get_char(0) == '/'
}

/// Lexically normalizes a path: a leading `/` is kept, `.` and repeated
/// slashes are removed, `..` drops the component before it.
pub fn normalize_path(path: &str) -> (r: String)
    ensures
        r@ == spec_normalize_path(path@),
{
    let comps = normalized_components(path);
    let joined = join_from(&comps, 0);
    proof {
        assert(texts(comps@).skip(0) =~= texts(comps@));
    }
    if starts_with_slash(path) {
        let mut r = String::new();
        proof {
            reveal_strlit("/");
        }
        r.append("/");
        r.append(joined.as_str());
        assert("/"@ =~= seq!['/']);
        r
    } else {
        joined
    }
}

/// The archive error `add_symlink` gives, as an errno.
pub open spec fn symlink_errno(e: BaleError) -> Errno {
    match e {
        BaleError::UnsafeFilename => Errno::NameTooLong,
        BaleError::PathTooLong { .. } => Errno::NameTooLong,
        BaleError::PathExists => Errno::Exists,
        _ => Errno::Io,
    }
}

impl FsState {
    /// The target a new symlink stores: a relative target as given; an
    /// absolute one normalized and made relative to the mount point
    /// (`Invalid` without a mount point, outside it, or at its root).
    pub open spec fn symlink_target_for(&self, target: Seq<char>) -> Result<Seq<char>, Errno> {
        if target.len() > 0 && target[0] == '/' {
            let n = norm_components(target);
            match self.mount_point {
                None => Err(Errno::Invalid),
                Some(m) => {
                    let mc = plain_components(m@);
                    if !(m@.len() > 0 && m@[0] == '/') || mc.len() > n.len() || n.take(mc.len() as int)
                        != mc {
                        Err(Errno::Invalid)
                    } else if join_slash(n.skip(mc.len() as int)).len() == 0 {
                        Err(Errno::Invalid)
                    } else {
                        Ok(join_slash(n.skip(mc.len() as int)))
                    }
                },
            }
        } else {
            Ok(target)
        }
    }

    /// The target a new symlink stores (see [`symlink_target_for`]).
    fn symlink_target(&self, target: &str) -> (r: Result<String, Errno>)
        ensures
            match self.symlink_target_for(target@) {
                Ok(t) => r matches Ok(x) && x@ == t,
                Err(e) => r == Err::<String, Errno>(e),
            },
    {
        if !starts_with_slash(target) {
            return Ok(target.to_owned());
        }
        let n = normalized_components(target);
        let mount = match &self.mount_point {
            Some(m) => m,
            None => {
                return Err(Errno::Invalid);
            },
        };
        if !starts_with_slash(mount.as_str()) {
            return Err(Errno::Invalid);
        }
        let mc = plain_components_of(mount.as_str());
        if mc.len() > n.len() {
            return Err(Errno::Invalid);
        }
        let mut k: usize = 0;
        while k < mc.len()
            invariant
                k <= mc@.len() <= n@.len(),
                texts(n@) == norm_components(target@),
                texts(mc@) == plain_components(mount@),
                self.mount_point == Some(*mount),
                mount@.len() > 0 && mount@[0] == '/',
                target@.len() > 0 && target@[0] == '/',
                forall|j: int| 0 <= j < k ==> #[trigger] texts(n@)[j] == texts(mc@)[j],
            decreases mc@.len() - k,
        {
            if n[k] != mc[k] {
                proof {
                    assert(texts(n@).take(mc@.len() as int)[k as int] != texts(mc@)[k as int]);
                }
                return Err(Errno::Invalid);
            }
            k = k + 1;
        }
        proof {
            assert(texts(n@).take(mc@.len() as int) =~= texts(mc@));
        }
        let rest = join_from(&n, mc.len());
        proof {
            assert(texts(n@).skip(mc@.len() as int) =~= norm_components(target@).skip(
                plain_components(mount@).len() as int,
            ));
        }
        if rest.as_str().is_empty() {
            return Err(Errno::Invalid);
        }
        Ok(rest)
    }

    /// Creates symlink `name` in `parent_ino` pointing at `target` (an
    /// absolute target is made relative to the mount point): a new file
    /// inode, its path, an entry in the parent's listing, a symlink entry
    /// in the archive, and the parent's modification time set to now.
    pub fn create_symlink(&mut self, parent_ino: u64, name: &str, target: &str) -> (r: Result<
        (u64, FileAttr),
        Errno,
    >)
        requires
            old(self).wf(),
        ensures
            final(self).wf(),
            create_symlink_post(*old(self), *final(self), parent_ino, name@, target@, r),
    {
        let full_path = match self.check_new_name(parent_ino, name) {
            Err(e) => {
                return Err(e);
            },
            Ok(p) => p,
        };
        let link_target = match self.symlink_target(target) {
            Err(e) => {
                return Err(e);
            },
            Ok(t) => t,
        };
        let tlen = link_target.as_str().as_bytes().len();
        if self.next_file_ino == u64::MAX || !self.archive.has_room_for(tlen) {
            return Err(Errno::Io);
        }
        let ghost old_state = *self;
        let ino = self.next_file_ino;
        self.next_file_ino = ino + 1;
        self.inode_to_path.insert(ino, full_path.clone());
        self.path_to_inode.insert(full_path.clone(), ino);
        let entry = FuseDirEntry::symlink(name, ino);
        Self::push_entry(&mut self.dir_contents, parent_ino, entry);
        proof {
            assert(self.files() =~= old_state.files().insert(full_path@, ino));
            assert(self.inode_to_path.spec_map().dom() =~= old_state.inode_to_path.spec_map().dom().insert(ino));
            assert(self.contents().dom() =~= old_state.contents().dom());
            assert(self.contents()[parent_ino]@.drop_last() =~= old_state.contents()[parent_ino]@);
        }
        match self.archive.add_symlink(full_path.as_str(), link_target.as_str(), 0o777) {
            Err(e) => {
                let code = match e {
                    BaleError::UnsafeFilename => Errno::NameTooLong,
                    BaleError::PathTooLong { .. } => Errno::NameTooLong,
                    BaleError::PathExists => Errno::Exists,
                    _ => Errno::Io,
                };
                return Err(code);
            },
            Ok(()) => {},
        }
        let parent_path = self.get_dir_path(parent_ino);
        touch(&mut self.modified_times, parent_path);
        let attr = FileAttr {
            ino,
            size: tlen as u64,
            blocks: 0,
            atime: self.mount_time,
            mtime: self.mount_time,
            ctime: self.mount_time,
            crtime: self.mount_time,
            kind: FileKind::Symlink,
            perm: 0o777,
            nlink: 1,
            uid: self.get_uid(full_path.as_str()),
            gid: self.get_gid(full_path.as_str()),
            rdev: 0,
            blksize: 4096,
            flags: 0,
        };
        Ok((ino, attr))
    }
}

impl FsState {
    /// The contents of the file at `p` as a read sees them: its pending
    /// contents when it has any, else its data block in the archive; `None`
    /// when neither is there (no entry, not a regular file, or a block out
    /// of bounds).
    pub open spec fn loaded_data(self, p: Seq<char>) -> Option<Seq<u8>> {
        if self.modified_data.spec_map().contains_key(p) {
            Some(self.modified_data.spec_map()[p]@)
        } else {
            match self.archive.spec_lookup(encode_utf8(p)) {
                Some(t) => if spec_kind_of_mode(t.0.mode) == EntryKind::File && read_block(
                    self.archive.spec_bytes(),
                    t.0,
                ) is Some {
                    Some(read_block(self.archive.spec_bytes(), t.0)->0)
                } else {
                    None
                },
                None => None,
            }
        }
    }
}

impl FsState {
    /// Makes sure `path` has pending contents: when it has none, the
    /// file's data is read from the archive (`Io` when it cannot be).
    pub fn load_into_modified(&mut self, path: &str) -> (r: Result<(), Errno>)
        requires
            old(self).wf(),
        ensures
            final(self).wf(),
            old(self).modified_data.spec_map().contains_key(path@) ==> r is Ok && *final(self) == *old(self),
            !old(self).modified_data.spec_map().contains_key(path@) ==> match old(self).archive.spec_lookup(encode_utf8(path@)) {
                Some(t) => if spec_kind_of_mode(t.0.mode) == EntryKind::File && read_block(
                    old(self).archive.spec_bytes(),
                    t.0,
                ) is Some {
                    &&& r is Ok
                    &&& final(self).modified_data.spec_map().dom() == old(self).modified_data.spec_map().dom().insert(path@)
                    &&& final(self).modified_data.spec_map()[path@]@ == read_block(
                        old(self).archive.spec_bytes(),
                        t.0,
                    )->0
                    &&& forall|k: Seq<char>|
                        k != path@ ==> #[trigger] final(self).modified_data.spec_map().get(k) == old(self).modified_data.spec_map().get(k)
                    &&& *final(self) == (FsState { modified_data: final(self).modified_data, ..*old(self) })
                } else {
                    r == Err::<(), Errno>(Errno::Io) && *final(self) == *old(self)
                },
                None => r == Err::<(), Errno>(Errno::Io) && *final(self) == *old(self),
            },
    {
        if self.modified_data.contains(path) {
            return Ok(());
        }
        let copied: Option<Vec<u8>> = match self.archive.file(path) {
            Ok(f) => {
                let mut v: Vec<u8> = Vec::new();
                extend_bytes(&mut v, f.data);
                Some(v)
            },
            Err(_) => None,
        };
        match copied {
            Some(data) => {
                let ghost before = self.modified_data.spec_map();
                self.modified_data.insert(path.to_owned(), data);
                proof {
                    assert(self.modified_data.spec_map().dom() =~= before.dom().insert(path@));
                }
                Ok(())
            },
            None => Err(Errno::Io),
        }
    }

    /// Whether a sync of this state is owed success: every path with a
    /// pending mode or time also has pending contents; every pending path
    /// normalizes and fits the archive's path size; the archive has IDs for
    /// one entry per pending path; and the data blocks (each with room for
    /// its padding) and the grown tables fit in memory.
    pub open spec fn sync_ready(self) -> bool {
        let items = self.modified_data.spec_items();
        let m = self.modified_data.spec_map();
        let n = items.len();
        let a = self.archive;
        &&& forall|k: Seq<char>| #[trigger] self.modified_modes.spec_map().contains_key(k) ==> m.contains_key(k)
        &&& forall|k: Seq<char>| #[trigger] self.modified_times.spec_map().contains_key(k) ==> m.contains_key(k)
        &&& forall|k: Seq<char>|
            #[trigger] m.contains_key(k) ==> normalize_chars(k) is Some && encode_utf8(
                normalize_chars(k)->0,
            ).len() <= a.spec_path_size()
        &&& a.spec_trailer().next_id + n < u32::MAX
        &&& a.spec_write_offset() + pending_sum(items, m, n as int) + 64 * (a.spec_rows().len() + n) + (
        a.spec_dirs().len() + n) * (a.spec_path_size() + 4) + 64 <= isize::MAX
    }

    /// Writes every pending change to the archive and syncs it: each file
    /// with pending contents is replaced by an entry with those contents,
    /// its pending permission bits and its pending time; then each path
    /// with only a pending mode or time is replaced likewise with its data
    /// read back from the archive (`Io` when that fails). On success the
    /// pending contents, modes and times are cleared.
    pub fn sync_modified_to_archive(&mut self) -> (r: Result<(), Errno>)
        requires
            old(self).wf(),
        ensures
            final(self).wf(),
            r is Err ==> r == Err::<(), Errno>(Errno::Io),
            old(self).sync_ready() ==> r is Ok,
            r is Ok ==> {
                &&& final(self).modified_data.spec_map() == Map::<Seq<char>, Vec<u8>>::empty()
                &&& final(self).modified_modes.spec_map() == Map::<Seq<char>, u32>::empty()
                &&& final(self).modified_times.spec_map() == Map::<Seq<char>, i64>::empty()
                &&& !final(self).archive.spec_dirty()
            },
            final(self).dirs() == old(self).dirs(),
            final(self).files() == old(self).files(),
            final(self).contents() == old(self).contents(),
    {
        let ghost items = self.modified_data.spec_items();
        let ghost mm = self.modified_data.spec_map();
        let ghost a0 = self.archive;
        let ghost ready = self.sync_ready();
        let data_paths = self.modified_data.keys();
        let mut i: usize = 0;
        while i < data_paths.len()
            invariant
                self.wf(),
                i <= data_paths@.len(),
                self.dirs() == old(self).dirs(),
                self.files() == old(self).files(),
                self.contents() == old(self).contents(),
                self.modified_data == old(self).modified_data,
                self.modified_modes == old(self).modified_modes,
                self.modified_times == old(self).modified_times,
                items == old(self).modified_data.spec_items(),
                mm == old(self).modified_data.spec_map(),
                a0 == old(self).archive,
                ready == old(self).sync_ready(),
                data_paths@.len() == items.len(),
                forall|k: int| 0 <= k < data_paths@.len() ==> #[trigger] data_paths@[k]@ == items[k].0@,
                forall|k: Seq<char>|
                    mm.contains_key(k) <==> exists|j: int|
                        0 <= j < data_paths@.len() && #[trigger] data_paths@[j]@ == k,
                ready ==> {
                    &&& self.archive.spec_write_offset() <= a0.spec_write_offset() + pending_sum(
                        items,
                        mm,
                        i as int,
                    )
                    &&& self.archive.spec_trailer().next_id == a0.spec_trailer().next_id + i
                    &&& self.archive.spec_rows().len() <= a0.spec_rows().len() + i
                    &&& self.archive.spec_dirs().len() <= a0.spec_dirs().len() + i
                    &&& self.archive.spec_path_size() == a0.spec_path_size()
                },
            decreases data_paths@.len() - i,
        {
            let path = data_paths[i].as_str();
            let perm = self.get_file_mode(path);
            let archive_mode = S_IFREG | perm;
            let mtime: Option<i64> = match self.modified_times.get(path) {
                Some(t) => Some(*t),
                None => None,
            };
            proof {
                assert(mm.contains_key(path@));
            }
            let data: Vec<u8> = match self.modified_data.get(path) {
                Some(d) => {
                    let mut v: Vec<u8> = Vec::new();
                    extend_bytes(&mut v, d.as_slice());
                    v
                },
                None => Vec::new(),
            };
            let ghost before = self.archive;
            self.archive.delete(path);
            proof {
                if ready {
                    lemma_pending_sum_mono(items, mm, i as int + 1, items.len() as int);
                    assert(data@ == mm[items[i as int].0@]@);
                    let key = before.key_of(path.spec_bytes());
                    if has_key(before.spec_dirs(), key) {
                        before.spec_dirs().filter_lemma(|d: (Seq<u8>, u32)| d.0 != key);
                        before.spec_rows().filter_lemma(
                            |row: EntryRow| !key_holds_id(before.spec_dirs(), key, row.entry_id),
                        );
                    }
                    assert(self.archive.room_for(data@.len()));
                }
            }
            if !self.archive.has_room_for(data.len()) {
                return Err(Errno::Io);
            }
            let ghost mid = self.archive;
            match self.archive.add_entry_with_mtime(path, data.as_slice(), archive_mode, mtime) {
                Err(_) => {
                    return Err(Errno::Io);
                },
                Ok(()) => {},
            }
            proof {
                if ready {
                    mid.lemma_block_growth(data@);
                }
            }
            i = i + 1;
        }
        let ghost a1 = self.archive;
        let mode_paths = self.modified_modes.keys();
        let time_paths = self.modified_times.keys();
        let mut meta: Vec<String> = Vec::new();
        let mut j: usize = 0;
        while j < mode_paths.len()
            invariant
                j <= mode_paths@.len(),
                self.modified_data == old(self).modified_data,
                self.modified_modes == old(self).modified_modes,
                self.wf(),
                ready == old(self).sync_ready(),
                forall|k: int|
                    0 <= k < mode_paths@.len() ==> self.modified_modes.spec_map().contains_key(
                        #[trigger] mode_paths@[k]@,
                    ),
                ready ==> meta@.len() == 0,
            decreases mode_paths@.len() - j,
        {
            if !self.modified_data.contains(mode_paths[j].as_str()) {
                meta.push(mode_paths[j].as_str().to_owned());
            }
            j = j + 1;
        }
        let mut k: usize = 0;
        while k < time_paths.len()
            invariant
                k <= time_paths@.len(),
                self.modified_data == old(self).modified_data,
                self.modified_modes == old(self).modified_modes,
                self.modified_times == old(self).modified_times,
                self.wf(),
                ready == old(self).sync_ready(),
                forall|x: int|
                    0 <= x < time_paths@.len() ==> self.modified_times.spec_map().contains_key(
                        #[trigger] time_paths@[x]@,
                    ),
                ready ==> meta@.len() == 0,
            decreases time_paths@.len() - k,
        {
            let p = time_paths[k].as_str();
            if !self.modified_data.contains(p) && !self.modified_modes.contains(p) {
                meta.push(p.to_owned());
            }
            k = k + 1;
        }
        let mut m: usize = 0;
        while m < meta.len()
            invariant
                self.wf(),
                m <= meta@.len(),
                self.dirs() == old(self).dirs(),
                self.files() == old(self).files(),
                self.contents() == old(self).contents(),
                ready == old(self).sync_ready(),
                ready ==> meta@.len() == 0 && self.archive == a1,
            decreases meta@.len() - m,
        {
            let path = meta[m].as_str();
            let perm = self.get_file_mode(path);
            let archive_mode = S_IFREG | perm;
            let mtime: Option<i64> = match self.modified_times.get(path) {
                Some(t) => Some(*t),
                None => None,
            };
            let data: Vec<u8> = match self.archive.file(path) {
                Ok(f) => {
                    let mut v: Vec<u8> = Vec::new();
                    extend_bytes(&mut v, f.data);
                    v
                },
                Err(_) => {
                    return Err(Errno::Io);
                },
            };
            self.archive.delete(path);
            if !self.archive.has_room_for(data.len()) {
                return Err(Errno::Io);
            }
            match self.archive.add_entry_with_mtime(path, data.as_slice(), archive_mode, mtime) {
                Err(_) => {
                    return Err(Errno::Io);
                },
                Ok(()) => {},
            }
            m = m + 1;
        }
        proof {
            if ready {
                let n = items.len();
                let ps = a0.spec_path_size();
                let d1 = a1.spec_dirs().len();
                let d0 = a0.spec_dirs().len();
                assert(d1 * (ps + 4) <= (d0 + n) * (ps + 4)) by (nonlinear_arith)
                    requires
                        d1 <= d0 + n,
                ;
                assert(self.archive.room_for_tables());
            }
        }
        if !self.archive.has_room_for_tables() {
            return Err(Errno::Io);
        }
        match self.archive.sync() {
            Err(_) => {
                return Err(Errno::Io);
            },
            Ok(()) => {},
        }
        self.modified_data.clear();
        self.modified_modes.clear();
        self.modified_times.clear();
        Ok(())
    }
}

/// Records that the directory at `path` changed now.
fn touch(times: &mut NameTable<i64>, path: String)
    requires
        old(times).wf(),
    ensures
        final(times).wf(),
        final(times).spec_map().dom() == old(times).spec_map().dom().insert(path@),
        forall|k: Seq<char>| k != path@ ==> #[trigger] final(times).spec_map().get(k) == old(times).spec_map().get(k),
{
    let ghost key = path@;
    let now = now_millis();
    times.insert(path, now);
    proof {
        assert(times.spec_map().dom() =~= old(times).spec_map().dom().insert(key));
    }
}
} // verus!
