//! The virtual `.bale/` metadata directory: a read-only directory at the
//! mount root holding archive metadata files, plus a `.bale` symlink in
//! every directory pointing back to it.

use std::collections::HashMap;
use vstd::prelude::*;
use crate::archive::model::Archive;
use crate::entry_kind::EntryKind;
use crate::format::file_header::FileHeader;
use crate::format::trailer::{Trailer, FLAG_COMPACTED};
use crate::fuse::inode::VIRTUAL_INO_START;
use crate::text::{spec_dec, decimal_string, spec_digits, digit_byte};
use vstd::arithmetic::power2::pow2;

verus! {

broadcast use vstd::std_specs::hash::group_hash_axioms;

/// Number of metadata files inside `.bale/`.
pub const VIRTUAL_FILE_COUNT: u64 = 7;

/// The name of metadata file `i`.
pub open spec fn virtual_file_name(i: int) -> Seq<char> {
    if i == 0 {
        "version"@
    } else if i == 1 {
        "entry_count"@
    } else if i == 2 {
        "directory_count"@
    } else if i == 3 {
        "path_size"@
    } else if i == 4 {
        "alignment"@
    } else if i == 5 {
        "archive_size"@
    } else if i == 6 {
        "compacted"@
    } else {
        Seq::empty()
    }
}

/// The name of metadata file `i`.
fn file_name_at(i: u64) -> (s: &'static str)
    requires
        i < VIRTUAL_FILE_COUNT,
    ensures
        s@ == virtual_file_name(i as int),
{
    if i == 0 {
        "version"
    } else if i == 1 {
        "entry_count"
    } else if i == 2 {
        "directory_count"
    } else if i == 3 {
        "path_size"
    } else if i == 4 {
        "alignment"
    } else if i == 5 {
        "archive_size"
    } else {
        "compacted"
    }
}

/// The value metadata file `i` shows for an archive with trailer `t`.
pub open spec fn virtual_file_value(i: int, t: Trailer) -> Seq<char> {
    if i == 0 {
        "1.0.0"@
    } else if i == 1 {
        spec_dec(t.entry_count as nat)
    } else if i == 2 {
        spec_dec(t.directory_entry_count as nat)
    } else if i == 3 {
        spec_dec(t.path_size as nat)
    } else if i == 4 {
        spec_dec(
            if t.alignment_power <= 16 {
                pow2(t.alignment_power as nat)
            } else {
                4096
            },
        )
    } else if i == 5 {
        spec_dec(t.archive_size as nat)
    } else {
        if t.flags & FLAG_COMPACTED != 0 {
            "true"@
        } else {
            "false"@
        }
    }
}

/// The content of metadata file `i` for an archive with trailer `t`: the
/// value on one line.
pub open spec fn virtual_file_text(i: int, t: Trailer) -> Seq<char> {
    virtual_file_value(i, t) + "\n"@
}

/// The relative target of the `.bale` symlink in a directory at `depth`:
/// `../` once per level, then `.bale`.
pub open spec fn symlink_target_text(depth: nat) -> Seq<char>
    decreases depth,
{
    if depth == 0 {
        ".bale"@
    } else {
        "../"@ + symlink_target_text((depth - 1) as nat)
    }
}

/// The virtual `.bale/` directory: its inode, its metadata files' inodes
/// (following it), and per-directory `.bale` symlink inodes allocated on
/// demand.
pub struct VirtualDir {
    dir_ino: u64,
    next_symlink_ino: u64,
    symlink_inodes: HashMap<u64, u64>,
    symlink_depths: HashMap<u64, usize>,
}

impl VirtualDir {
    /// The `.bale/` directory's inode.
    pub closed spec fn spec_dir_ino(&self) -> u64 {
        self.dir_ino
    }

    /// The next symlink inode to allocate.
    pub closed spec fn spec_next(&self) -> u64 {
        self.next_symlink_ino
    }

    /// Directory inode to its symlink's inode.
    pub closed spec fn spec_symlinks(&self) -> Map<u64, u64> {
        self.symlink_inodes@
    }

    /// Symlink inode to its directory's depth.
    pub closed spec fn spec_depths(&self) -> Map<u64, usize> {
        self.symlink_depths@
    }

    /// Whether `ino` is one of the virtual nodes: the directory, a `.bale`
    /// symlink handed out, or a metadata file.
    pub open spec fn spec_is_virtual(&self, ino: u64) -> bool {
        ino == self.spec_dir_ino() || self.spec_depths().contains_key(ino) || (self.file_ino(0) <= ino
            < self.file_ino(VIRTUAL_FILE_COUNT as int))
    }

    /// The inode of metadata file `i`.
    pub open spec fn file_ino(&self, i: int) -> int {
        self.spec_dir_ino() + 1 + i
    }

    /// Well-formedness: the files follow the directory; symlink inodes lie
    /// after the files and below the next one to allocate; each directory
    /// has its own symlink inode, which has a depth.
    pub open spec fn wf(&self) -> bool {
        &&& self.spec_dir_ino() == VIRTUAL_INO_START
        &&& self.spec_dir_ino() + 1 + VIRTUAL_FILE_COUNT <= self.spec_next()
        &&& forall|d: u64|
            #[trigger] self.spec_symlinks().contains_key(d) ==> self.spec_depths().contains_key(
                self.spec_symlinks()[d],
            )
        &&& forall|s: u64|
            #[trigger] self.spec_depths().contains_key(s) ==> self.spec_dir_ino() + 1
                + VIRTUAL_FILE_COUNT <= s < self.spec_next()
        &&& forall|d1: u64, d2: u64|
            #![trigger self.spec_symlinks()[d1], self.spec_symlinks()[d2]]
            self.spec_symlinks().contains_key(d1) && self.spec_symlinks().contains_key(d2) && d1
                != d2 ==> self.spec_symlinks()[d1] != self.spec_symlinks()[d2]
    }

    /// A new virtual directory at the virtual inode range's start, with its
    /// metadata files after it and no symlinks yet.
    pub fn new() -> (v: Self)
        ensures
            v.wf(),
            v.spec_dir_ino() == VIRTUAL_INO_START,
            v.spec_next() == VIRTUAL_INO_START + 1 + VIRTUAL_FILE_COUNT,
            v.spec_symlinks() == Map::<u64, u64>::empty(),
            v.spec_depths() == Map::<u64, usize>::empty(),
    {
        VirtualDir {
            dir_ino: VIRTUAL_INO_START,
            next_symlink_ino: VIRTUAL_INO_START + 1 + VIRTUAL_FILE_COUNT,
            symlink_inodes: HashMap::new(),
            symlink_depths: HashMap::new(),
        }
    }

    /// The `.bale/` directory's inode.
    pub fn dir_ino(&self) -> (r: u64)
        ensures
            r == self.spec_dir_ino(),
    {
        self.dir_ino
    }

    /// The metadata files: each name with its inode, in order.
    pub fn files(&self) -> (r: Vec<(&'static str, u64)>)
        requires
            self.wf(),
        ensures
            r@.len() == VIRTUAL_FILE_COUNT,
            forall|i: int|
                0 <= i < VIRTUAL_FILE_COUNT ==> (#[trigger] r@[i]).0@ == virtual_file_name(i)
                    && r@[i].1 == self.file_ino(i),
    {
        let mut v: Vec<(&'static str, u64)> = Vec::new();
        let mut i: u64 = 0;
        while i < VIRTUAL_FILE_COUNT
            invariant
                i <= VIRTUAL_FILE_COUNT,
                self.wf(),
                v@.len() == i,
                forall|k: int|
                    0 <= k < i ==> (#[trigger] v@[k]).0@ == virtual_file_name(k) && v@[k].1
                        == self.file_ino(k),
            decreases VIRTUAL_FILE_COUNT - i,
        {
            v.push((file_name_at(i), self.dir_ino + 1 + i));
            i = i + 1;
        }
        v
    }

    /// Whether a new symlink inode can still be handed out.
    pub fn has_free_inode(&self) -> (b: bool)
        ensures
            b == (self.spec_next() < u64::MAX),
    {
        self.next_symlink_ino < u64::MAX
    }

    /// The symlink inode for directory `dir_ino` at `depth`: the one given
    /// before, or a new one (recorded with its depth).
    pub fn symlink_ino_for(&mut self, dir_ino: u64, depth: usize) -> (r: u64)
        requires
            old(self).wf(),
            old(self).spec_next() < u64::MAX,
        ensures
            final(self).wf(),
            old(self).spec_symlinks().contains_key(dir_ino) ==> r == old(self).spec_symlinks()[dir_ino]
                && *final(self) == *old(self),
            !old(self).spec_symlinks().contains_key(dir_ino) ==> {
                &&& r == old(self).spec_next()
                &&& final(self).spec_next() == r + 1
                &&& final(self).spec_dir_ino() == old(self).spec_dir_ino()
                &&& final(self).spec_symlinks() == old(self).spec_symlinks().insert(dir_ino, r)
                &&& final(self).spec_depths() == old(self).spec_depths().insert(r, depth)
            },
    {
        match self.symlink_inodes.get(&dir_ino) {
            Some(ino) => {
                return *ino;
            },
            None => {},
        }
        let ino = self.next_symlink_ino;
        self.next_symlink_ino = ino + 1;
        self.symlink_inodes.insert(dir_ino, ino);
        self.symlink_depths.insert(ino, depth);
        proof {
            let s = self.symlink_inodes@;
            assert forall|d: u64| #[trigger] s.contains_key(d) implies self.symlink_depths@.contains_key(
                s[d],
            ) by {
                if d != dir_ino {
                    assert(old(self).spec_symlinks().contains_key(d));
                }
            }
            assert forall|x: u64| #[trigger] self.symlink_depths@.contains_key(x) implies self.dir_ino
                + 1 + VIRTUAL_FILE_COUNT <= x < self.next_symlink_ino by {
                if x != ino {
                    assert(old(self).spec_depths().contains_key(x));
                }
            }
            assert forall|d1: u64, d2: u64|
                s.contains_key(d1) && s.contains_key(d2) && d1 != d2 implies s[d1] != s[d2] by {
                if d1 != dir_ino && d2 != dir_ino {
                    assert(old(self).spec_symlinks()[d1] != old(self).spec_symlinks()[d2]);
                } else if d1 == dir_ino {
                    assert(old(self).spec_depths().contains_key(old(self).spec_symlinks()[d2]));
                } else {
                    assert(old(self).spec_depths().contains_key(old(self).spec_symlinks()[d1]));
                }
            }
        }
        ino
    }

    /// The depth recorded for symlink inode `ino`, if it is one.
    pub fn symlink_depth(&self, ino: u64) -> (r: Option<usize>)
        ensures
            r == (if self.spec_depths().contains_key(ino) {
                Some(self.spec_depths()[ino])
            } else {
                None::<usize>
            }),
    {
        match self.symlink_depths.get(&ino) {
            Some(d) => Some(*d),
            None => None,
        }
    }

    /// Looks a name up inside `.bale/`: the metadata file's inode, as a
    /// regular file.
    pub fn lookup(&self, name: &str) -> (r: Option<(u64, EntryKind)>)
        requires
            self.wf(),
        ensures
            (exists|i: int| 0 <= i < VIRTUAL_FILE_COUNT && virtual_file_name(i) == name@) <==> r is Some,
            r matches Some(x) ==> x.1 == EntryKind::File && exists|i: int|
                0 <= i < VIRTUAL_FILE_COUNT && virtual_file_name(i) == name@ && x.0 == self.file_ino(i),
    {
        let chars = crate::chars::chars_of(name);
        let mut i: u64 = 0;
        while i < VIRTUAL_FILE_COUNT
            invariant
                i <= VIRTUAL_FILE_COUNT,
                chars@ == name@,
                self.wf(),
                forall|k: int| 0 <= k < i ==> virtual_file_name(k) != name@,
            decreases VIRTUAL_FILE_COUNT - i,
        {
            let f = crate::chars::chars_of(file_name_at(i));
            if chars_equal(&f, &chars) {
                return Some((self.dir_ino + 1 + i, EntryKind::File));
            }
            i = i + 1;
        }
        None
    }

    /// The metadata files, as (inode, kind, name) for directory listings.
    pub fn readdir(&self) -> (r: Vec<(u64, EntryKind, &'static str)>)
        requires
            self.wf(),
        ensures
            r@.len() == VIRTUAL_FILE_COUNT,
            forall|i: int|
                0 <= i < VIRTUAL_FILE_COUNT ==> (#[trigger] r@[i]).0 == self.file_ino(i) && r@[i].1
                    == EntryKind::File && r@[i].2@ == virtual_file_name(i),
    {
        let mut v: Vec<(u64, EntryKind, &'static str)> = Vec::new();
        let mut i: u64 = 0;
        while i < VIRTUAL_FILE_COUNT
            invariant
                i <= VIRTUAL_FILE_COUNT,
                self.wf(),
                v@.len() == i,
                forall|k: int|
                    0 <= k < i ==> (#[trigger] v@[k]).0 == self.file_ino(k) && v@[k].1
                        == EntryKind::File && v@[k].2@ == virtual_file_name(k),
            decreases VIRTUAL_FILE_COUNT - i,
        {
            v.push((self.dir_ino + 1 + i, EntryKind::File, file_name_at(i)));
            i = i + 1;
        }
        v
    }

    /// The text of the metadata file with inode `ino`, for `archive`;
    /// `None` when `ino` is not a metadata file.
    pub fn file_content(&self, ino: u64, archive: &Archive) -> (r: Option<String>)
        requires
            self.wf(),
        ensures
            (self.file_ino(0) <= ino < self.file_ino(VIRTUAL_FILE_COUNT as int)) <==> r is Some,
            r matches Some(s) ==> s@ == virtual_file_text(
                ino - self.file_ino(0),
                archive.spec_trailer(),
            ),
    {
        if ino < self.dir_ino + 1 || ino >= self.dir_ino + 1 + VIRTUAL_FILE_COUNT {
            return None;
        }
        let i = ino - self.dir_ino - 1;
        let t = archive.trailer();
        let mut s = if i == 0 {
            let (major, minor, patch) = FileHeader::new().version();
            let mut s = decimal_string(major as u64);
            s.append(".");
            s.append(decimal_string(minor as u64).as_str());
            s.append(".");
            s.append(decimal_string(patch as u64).as_str());
            proof {
                reveal_strlit(".");
                assert(spec_digits(1, 10) == seq![digit_byte(1)]);
                assert(spec_digits(0, 10) == seq![digit_byte(0)]);
                assert(spec_dec(1) =~= seq!['1']);
                assert(spec_dec(0) =~= seq!['0']);
            }
            proof {
                assert(s@ =~= "1.0.0"@) by {
                    reveal_strlit("1.0.0");
                }
            }
            s
        } else if i == 1 {
            decimal_string(t.entry_count as u64)
        } else if i == 2 {
            decimal_string(t.directory_entry_count as u64)
        } else if i == 3 {
            decimal_string(t.path_size as u64)
        } else if i == 4 {
            let a = match t.alignment() {
                Ok(a) => a,
                Err(_) => 4096,
            };
            proof {
                if t.alignment_power <= 16 {
                    vstd::arithmetic::power2::lemma2_to64();
                    if t.alignment_power < 16 {
                        vstd::arithmetic::power2::lemma_pow2_strictly_increases(
                            t.alignment_power as nat,
                            16,
                        );
                    }
                }
            }
            decimal_string(a as u64)
        } else if i == 5 {
            decimal_string(t.archive_size)
        } else {
            if t.is_compacted() {
                String::from_str("true")
            } else {
                String::from_str("false")
            }
        };
        proof {
            reveal_strlit("true");
            reveal_strlit("false");
            assert(s@ == virtual_file_value(i as int, archive.spec_trailer()));
        }
        s.append("\n");
        proof {
            reveal_strlit("\n");
            reveal_strlit("true");
            reveal_strlit("false");
            reveal_strlit("true\n");
            reveal_strlit("false\n");
            reveal_strlit("1.0.0\n");
            reveal_strlit("1.0.0");
            assert(s@ =~= virtual_file_text(i as int, archive.spec_trailer()));
        }
        Some(s)
    }

    /// Whether `ino` belongs to the virtual directory: the directory
    /// itself, one of its files, or an allocated symlink.
    pub fn is_virtual(&self, ino: u64) -> (b: bool)
        requires
            self.wf(),
        ensures
            b == (ino == self.spec_dir_ino() || self.spec_depths().contains_key(ino) || (
            self.file_ino(0) <= ino < self.file_ino(VIRTUAL_FILE_COUNT as int))),
    {
        if ino == self.dir_ino {
            return true;
        }
        if self.symlink_depths.contains_key(&ino) {
            return true;
        }
        ino >= self.dir_ino + 1 && ino < self.dir_ino + 1 + VIRTUAL_FILE_COUNT
    }

    /// The target of the `.bale` symlink in a directory at `depth`:
    /// `.bale` at the root, `../.bale` one level down, and so on.
    pub fn symlink_target(depth: usize) -> (s: String)
        ensures
            s@ == symlink_target_text(depth as nat),
    {
        let mut s = String::new();
        let mut i: usize = 0;
        while i < depth
            invariant
                i <= depth,
                s@ + symlink_target_text((depth - i) as nat) == symlink_target_text(depth as nat),
            decreases depth - i,
        {
            proof {
                assert(symlink_target_text((depth - i) as nat) == "../"@ + symlink_target_text(
                    (depth - i - 1) as nat,
                ));
            }
            s.append("../");
            i = i + 1;
        }
        s.append(".bale");
        proof {
            assert(symlink_target_text(0) == ".bale"@);
        }
        s
    }
}

/// Whether two character sequences are equal.
fn chars_equal(a: &Vec<char>, b: &Vec<char>) -> (r: bool)
    ensures
        r == (a@ == b@),
{
    if a.len() != b.len() {
        return false;
    }
    let mut i: usize = 0;
    while i < a.len()
        invariant
            i <= a@.len() == b@.len(),
            forall|k: int| 0 <= k < i ==> a@[k] == b@[k],
        decreases a@.len() - i,
    {
        if a[i] != b[i] {
            return false;
        }
        i = i + 1;
    }
    assert(a@ =~= b@);
    true
}

/// Different directories get different `.bale` symlink inodes.
pub proof fn lemma_symlink_inos_apart(v: VirtualDir, d1: u64, d2: u64)
    requires
        v.wf(),
        v.spec_symlinks().contains_key(d1),
        v.spec_symlinks().contains_key(d2),
        d1 != d2,
    ensures
        v.spec_symlinks()[d1] != v.spec_symlinks()[d2],
{
}

} // verus!
