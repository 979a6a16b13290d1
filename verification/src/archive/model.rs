//! The archive model: file bytes, trailer, and the in-memory entry and
//! directory tables.

use vstd::prelude::*;
use vstd::string::StringSliceAdditionalSpecFns;
use crate::archive::options::{AddEntryOptions, OpenOptions};
use crate::archive_path::{ArchivePath, normalize_chars, trim_nul, nul_trimmed_len};
use crate::entry_kind::{EntryKind, spec_kind_of_mode, S_IFMT, S_IFDIR, S_IFLNK};
use vstd::utf8::{encode_utf8, valid_utf8};
use crate::text::str_from_utf8;
use crate::error::{BaleError, Corruption};
use crate::format::crc::{Crc, spec_crc_of};
use crate::format::entry_row::EntryRow;
use crate::format::file_header::{FileHeader, FILE_HEADER_SIZE};
use crate::format::trailer::{Trailer, valid_alignment, valid_path_size, FLAG_COMPACTED, lemma_trailer_fields, lemma_trailer_parse_of_bytes};
use crate::archive::order::{sort_rows_by_id, sort_dirs_by_path, id_le, path_le, lex_le, bytes_le};
use crate::archive::entries::{Entry, FileEntry, DirEntry, SymlinkEntry};
use crate::archive::resolve::{resolve_target, resolved_target};
use crate::archive::tables::{rows_bytes, dirs_bytes, parse_rows, parse_dirs, write_rows, write_dirs, read_rows, read_dirs, lemma_rows_bytes, lemma_dirs_bytes, lemma_parse_rows_of_bytes, lemma_parse_dirs_of_bytes};
use vstd::relations::sorted_by;
use vstd::arithmetic::power2::pow2;
use crate::clock::clock_millis;

verus! {

/// A directory table record: the null-padded path and the entry ID.
#[derive(Debug, Clone)]
pub struct DirRecord {
    /// Path bytes, null-padded to the archive's path size.
    pub path: Vec<u8>,
    /// Entry ID (0 marks a tombstone).
    pub entry_id: u32,
}

/// The (path, ID) pairs of directory records.
pub open spec fn dir_view(d: Seq<DirRecord>) -> Seq<(Seq<u8>, u32)> {
    Seq::new(d.len(), |i: int| (d[i].path@, d[i].entry_id))
}

/// The search key for `path` in a table with the given path size: the path
/// cut to the path size and null-padded to it.
pub open spec fn search_key(path: Seq<u8>, path_size: nat) -> Seq<u8> {
    let n = if path.len() < path_size {
        path.len()
    } else {
        path_size
    };
    path.take(n as int) + Seq::new((path_size - n) as nat, |i: int| 0u8)
}

/// `path` null-padded to `path_size` bytes (requires it to fit).
pub open spec fn padded(path: Seq<u8>, path_size: nat) -> Seq<u8> {
    path + Seq::new((path_size - path.len()) as nat, |i: int| 0u8)
}

/// Index of the first directory record at or after `i` whose path is `key`,
/// or `dirs.len()` when there is none.
pub open spec fn first_dir_from(dirs: Seq<(Seq<u8>, u32)>, key: Seq<u8>, i: int) -> int
    decreases dirs.len() - i,
{
    if i >= dirs.len() {
        dirs.len() as int
    } else if dirs[i].0 == key {
        i
    } else {
        first_dir_from(dirs, key, i + 1)
    }
}

/// Index of the first entry row at or after `i` with the given ID, or
/// `rows.len()` when there is none.
pub open spec fn first_row_from(rows: Seq<EntryRow>, id: u32, i: int) -> int
    decreases rows.len() - i,
{
    if i >= rows.len() {
        rows.len() as int
    } else if rows[i].entry_id == id {
        i
    } else {
        first_row_from(rows, id, i + 1)
    }
}

/// The bytes of an entry's data block within the archive bytes: empty for
/// no block (offset 0), `None` when the block runs past the end.
pub open spec fn read_block(bytes: Seq<u8>, row: EntryRow) -> Option<Seq<u8>> {
    if row.data_offset == 0 {
        Some(Seq::empty())
    } else if row.data_offset + row.block_size > bytes.len() {
        None
    } else {
        Some(bytes.subrange(row.data_offset as int, row.data_offset + row.block_size))
    }
}

/// The result of looking a search key up: the first record with that path,
/// then the first row with that record's ID.
pub open spec fn lookup(rows: Seq<EntryRow>, dirs: Seq<(Seq<u8>, u32)>, key: Seq<u8>) -> Option<
    (EntryRow, Seq<u8>, u32),
> {
    let i = first_dir_from(dirs, key, 0);
    if i >= dirs.len() {
        None
    } else {
        let id = dirs[i].1;
        let j = first_row_from(rows, id, 0);
        if j >= rows.len() {
            None
        } else {
            Some((rows[j], trim_nul(dirs[i].0), id))
        }
    }
}

/// `n` rounded up to a multiple of `a`.
pub open spec fn align_up(n: int, a: int) -> int {
    n + (a - n % a) % a
}

proof fn lemma_first_dir_bounds(dirs: Seq<(Seq<u8>, u32)>, key: Seq<u8>, i: int)
    requires
        0 <= i <= dirs.len(),
    ensures
        i <= first_dir_from(dirs, key, i) <= dirs.len(),
        first_dir_from(dirs, key, i) < dirs.len() ==> dirs[first_dir_from(dirs, key, i)].0
            == key,
        forall|k: int| i <= k < first_dir_from(dirs, key, i) ==> dirs[k].0 != key,
    decreases dirs.len() - i,
{
    if i < dirs.len() && dirs[i].0 != key {
        lemma_first_dir_bounds(dirs, key, i + 1);
    }
}

proof fn lemma_first_row_bounds(rows: Seq<EntryRow>, id: u32, i: int)
    requires
        0 <= i <= rows.len(),
    ensures
        i <= first_row_from(rows, id, i) <= rows.len(),
        first_row_from(rows, id, i) < rows.len() ==> rows[first_row_from(rows, id, i)].entry_id
            == id,
        forall|k: int| i <= k < first_row_from(rows, id, i) ==> rows[k].entry_id != id,
    decreases rows.len() - i,
{
    if i < rows.len() && rows[i].entry_id != id {
        lemma_first_row_bounds(rows, id, i + 1);
    }
}

/// The first index of a key is unchanged by appending records after it, and
/// lands on the appended record when the key was absent.
proof fn lemma_first_dir_push(dirs: Seq<(Seq<u8>, u32)>, key: Seq<u8>, d: (Seq<u8>, u32), i: int)
    requires
        0 <= i <= dirs.len(),
    ensures
        first_dir_from(dirs, key, i) < dirs.len() ==> first_dir_from(dirs.push(d), key, i)
            == first_dir_from(dirs, key, i),
        first_dir_from(dirs, key, i) >= dirs.len() && d.0 == key ==> first_dir_from(
            dirs.push(d),
            key,
            i,
        ) == dirs.len(),
    decreases dirs.len() - i,
{
    if i < dirs.len() {
        assert(dirs.push(d)[i] == dirs[i]);
        if dirs[i].0 != key {
            lemma_first_dir_push(dirs, key, d, i + 1);
        }
    } else {
        assert(dirs.push(d)[i] == d);
    }
}

proof fn lemma_first_row_push(rows: Seq<EntryRow>, id: u32, r: EntryRow, i: int)
    requires
        0 <= i <= rows.len(),
    ensures
        first_row_from(rows, id, i) < rows.len() ==> first_row_from(rows.push(r), id, i)
            == first_row_from(rows, id, i),
        first_row_from(rows, id, i) >= rows.len() && r.entry_id == id ==> first_row_from(
            rows.push(r),
            id,
            i,
        ) == rows.len(),
    decreases rows.len() - i,
{
    if i < rows.len() {
        assert(rows.push(r)[i] == rows[i]);
        if rows[i].entry_id != id {
            lemma_first_row_push(rows, id, r, i + 1);
        }
    } else {
        assert(rows.push(r)[i] == r);
    }
}

/// The Unix epoch milliseconds of a time `millis` milliseconds after the
/// epoch, or before it when `before_epoch`; beyond the `i64` range the
/// value saturates.
pub open spec fn epoch_millis(before_epoch: bool, millis: u128) -> int {
    if !before_epoch {
        if millis <= i64::MAX {
            millis as int
        } else {
            i64::MAX as int
        }
    } else {
        if millis <= i64::MAX {
            -(millis as int)
        } else {
            i64::MIN as int
        }
    }
}

/// Converts a time given by its side of the epoch and its distance from it
/// in milliseconds to Unix epoch milliseconds (negative before the epoch),
/// saturating beyond the `i64` range.
pub fn system_time_to_millis(before_epoch: bool, millis: u128) -> (t: i64)
    ensures
        t == epoch_millis(before_epoch, millis),
{
    if millis <= i64::MAX as u128 {
        let m = millis as i64;
        if before_epoch {
            -m
        } else {
            m
        }
    } else if before_epoch {
        i64::MIN
    } else {
        i64::MAX
    }
}

/// Returns the current time as Unix epoch milliseconds.
pub(crate) fn now_millis() -> (t: i64) {
    let (before, ms) = clock_millis();
    system_time_to_millis(before, ms)
}

/// A bale archive held in memory: the file bytes, the trailer, and the
/// entry and directory tables.
///
/// Data blocks live in `data` below `write_offset`; the tables are kept in
/// memory and written out, with the trailer, by [`sync`](Self::sync).
pub struct Archive {
    data: Vec<u8>,
    trailer: Trailer,
    write_offset: usize,
    dirty: bool,
    entry_rows: Vec<EntryRow>,
    dir_entries: Vec<DirRecord>,
}

impl Archive {
    /// The archive's bytes.
    pub closed spec fn spec_bytes(&self) -> Seq<u8> {
        self.data@
    }

    /// The archive's trailer.
    pub closed spec fn spec_trailer(&self) -> Trailer {
        self.trailer
    }

    /// The entry rows, in table order.
    pub closed spec fn spec_rows(&self) -> Seq<EntryRow> {
        self.entry_rows@
    }

    /// The directory records as (padded path, ID), in table order.
    pub closed spec fn spec_dirs(&self) -> Seq<(Seq<u8>, u32)> {
        dir_view(self.dir_entries@)
    }

    /// The end of the data region, where the next data block goes.
    pub closed spec fn spec_write_offset(&self) -> nat {
        self.write_offset as nat
    }

    /// Whether there are changes not yet written by `sync`.
    pub closed spec fn spec_dirty(&self) -> bool {
        self.dirty
    }

    /// The archive's path size.
    pub open spec fn spec_path_size(&self) -> nat {
        self.spec_trailer().path_size as nat
    }

    /// Well-formedness: a valid trailer, a data region inside the bytes,
    /// and directory paths of exactly the path size.
    pub closed spec fn wf(&self) -> bool {
        &&& self.trailer.spec_is_valid()
        &&& FILE_HEADER_SIZE <= self.write_offset <= self.data@.len()
        &&& all_paths_len(self.dir_entries@, self.trailer.path_size as nat)
    }

    /// Looks `path` up as `find_entry_with_path` does.
    pub open spec fn spec_lookup(&self, path: Seq<u8>) -> Option<(EntryRow, Seq<u8>, u32)> {
        lookup(self.spec_rows(), self.spec_dirs(), search_key(path, self.spec_path_size()))
    }

    /// A new, empty archive with the given alignment and path size: the file
    /// header is written, the tables are empty, and the archive is dirty so
    /// that the first `sync` writes the trailer.
    pub fn create_with_options(alignment: u32, path_size: u16) -> (r: Result<Self, BaleError>)
        ensures
            !valid_alignment(alignment) ==> r == Err::<Self, BaleError>(
                BaleError::InvalidAlignment(alignment),
            ),
            valid_alignment(alignment) && !valid_path_size(path_size) ==> r == Err::<
                Self,
                BaleError,
            >(BaleError::InvalidPathSize(path_size)),
            valid_alignment(alignment) && valid_path_size(path_size) ==> (r matches Ok(a) && a.wf()
                && a.spec_trailer().is_empty_with(a.spec_trailer().alignment_power, path_size)
                && pow2(a.spec_trailer().alignment_power as nat) == alignment
                && a.spec_bytes() == FileHeader::new_spec().spec_bytes()
                && a.spec_write_offset() == FILE_HEADER_SIZE && a.spec_rows().len() == 0
                && a.spec_dirs().len() == 0 && a.spec_dirty()),
    {
        let trailer = match Trailer::new_with_options(alignment, path_size) {
            Ok(t) => t,
            Err(e) => return Err(e),
        };
        let header = FileHeader::new();
        let data = header.to_bytes();
        proof {
            FileHeader::lemma_new_spec(header);
        }
        Ok(Archive {
            data,
            trailer,
            write_offset: FILE_HEADER_SIZE,
            dirty: true,
            entry_rows: Vec::new(),
            dir_entries: Vec::new(),
        })
    }

    /// A new, empty archive with the default alignment (4096) and path
    /// size (256).
    pub fn create() -> (a: Self)
        ensures
            a.wf(),
            a.spec_trailer().is_empty_with(12, 256),
            a.spec_rows().len() == 0,
            a.spec_dirs().len() == 0,
            a.spec_write_offset() == FILE_HEADER_SIZE,
            a.spec_bytes() == FileHeader::new_spec().spec_bytes(),
            a.spec_dirty(),
    {
        let header = FileHeader::new();
        let data = header.to_bytes();
        proof {
            FileHeader::lemma_new_spec(header);
        }
        Archive {
            data,
            trailer: Trailer::new(),
            write_offset: FILE_HEADER_SIZE,
            dirty: true,
            entry_rows: Vec::new(),
            dir_entries: Vec::new(),
        }
    }

    /// Null-pads a path to the path size; `PathTooLong` when it does not fit.
    pub fn pad_path(&self, path: &[u8]) -> (r: Result<Vec<u8>, BaleError>)
        requires
            self.wf(),
        ensures
            path@.len() > self.spec_path_size() ==> r == Err::<Vec<u8>, BaleError>(
                BaleError::PathTooLong {
                    len: path@.len() as usize,
                    max: self.spec_path_size() as usize,
                },
            ),
            path@.len() <= self.spec_path_size() ==> (r matches Ok(v) && v@ == padded(
                path@,
                self.spec_path_size(),
            )),
    {
        let ps = self.trailer.path_size as usize;
        if path.len() > ps {
            return Err(BaleError::PathTooLong { len: path.len(), max: ps });
        }
        let mut v: Vec<u8> = Vec::new();
        crate::text::extend_bytes(&mut v, path);
        while v.len() < ps
            invariant
                path@.len() <= v@.len() <= ps,
                v@ == padded(path@, v@.len() as nat),
            decreases ps - v@.len(),
        {
            let ghost before = v@;
            v.push(0);
            assert(v@ =~= padded(path@, v@.len() as nat));
        }
        Ok(v)
    }

    /// The search key for a path string: its bytes cut to the path size and
    /// null-padded.
    fn key_for(&self, path: &[u8]) -> (v: Vec<u8>)
        requires
            self.wf(),
        ensures
            v@ == search_key(path@, self.spec_path_size()),
    {
        let ps = self.trailer.path_size as usize;
        let n = if path.len() < ps {
            path.len()
        } else {
            ps
        };
        let mut v: Vec<u8> = Vec::new();
        crate::text::extend_bytes(&mut v, &path[0..n]);
        let mut i: usize = 0;
        while i < ps - n
            invariant
                i <= ps - n,
                n <= ps,
                v@ == path@.take(n as int) + Seq::new(i as nat, |k: int| 0u8),
            decreases ps - n - i,
        {
            v.push(0);
            i = i + 1;
            assert(v@ =~= path@.take(n as int) + Seq::new(i as nat, |k: int| 0u8));
        }
        v
    }

    /// Index of the first directory record with the given padded path.
    fn position_of(&self, key: &Vec<u8>) -> (i: usize)
        ensures
            i == first_dir_from(self.spec_dirs(), key@, 0),
    {
        let mut i: usize = 0;
        while i < self.dir_entries.len()
            invariant
                i <= self.dir_entries@.len(),
                first_dir_from(self.spec_dirs(), key@, 0) == first_dir_from(
                    self.spec_dirs(),
                    key@,
                    i as int,
                ),
            decreases self.dir_entries@.len() - i,
        {
            if bytes_equal(self.dir_entries[i].path.as_slice(), key.as_slice()) {
                return i;
            }
            i = i + 1;
        }
        i
    }

    /// Index of the first entry row with the given ID.
    fn row_position(&self, id: u32) -> (j: usize)
        ensures
            j == first_row_from(self.spec_rows(), id, 0),
    {
        let mut j: usize = 0;
        while j < self.entry_rows.len()
            invariant
                j <= self.entry_rows@.len(),
                first_row_from(self.spec_rows(), id, 0) == first_row_from(
                    self.spec_rows(),
                    id,
                    j as int,
                ),
            decreases self.entry_rows@.len() - j,
        {
            if self.entry_rows[j].entry_id == id {
                return j;
            }
            j = j + 1;
        }
        j
    }

    /// Finds an entry by path: the first directory record whose padded path
    /// matches, then the first entry row with its ID. Returns the row, the
    /// record's path without padding, and the ID.
    pub fn find_entry_with_path(&self, path: &str) -> (r: Option<(&EntryRow, &[u8], u32)>)
        requires
            self.wf(),
        ensures
            match self.spec_lookup(path.spec_bytes()) {
                None => r is None,
                Some(t) => r matches Some(x) && *x.0 == t.0 && x.1@ == t.1 && x.2 == t.2,
            },
            r matches Some(x) ==> trim_nul(x.1@) == x.1@,
    {
        self.lookup_bytes(path.as_bytes())
    }

    /// `find_entry_with_path` on path bytes.
    fn lookup_bytes(&self, path: &[u8]) -> (r: Option<(&EntryRow, &[u8], u32)>)
        requires
            self.wf(),
        ensures
            match self.spec_lookup(path@) {
                None => r is None,
                Some(t) => r matches Some(x) && *x.0 == t.0 && x.1@ == t.1 && x.2 == t.2,
            },
            r matches Some(x) ==> trim_nul(x.1@) == x.1@,
    {
        let key = self.key_for(path);
        let i = self.position_of(&key);
        proof {
            lemma_first_dir_bounds(self.spec_dirs(), key@, 0);
        }
        if i >= self.dir_entries.len() {
            return None;
        }
        let id = self.dir_entries[i].entry_id;
        let j = self.row_position(id);
        proof {
            lemma_first_row_bounds(self.spec_rows(), id, 0);
        }
        if j >= self.entry_rows.len() {
            return None;
        }
        let p = self.dir_entries[i].path.as_slice();
        let n = nul_trimmed_len(p);
        proof {
            crate::archive_path::lemma_trim_nul_twice(p@);
            assert(p@.subrange(0, n as int) == trim_nul(p@));
        }
        Some((&self.entry_rows[j], &p[0..n], id))
    }

    /// Finds an entry row by path.
    pub fn find_entry(&self, path: &str) -> (r: Option<&EntryRow>)
        requires
            self.wf(),
        ensures
            match self.spec_lookup(path.spec_bytes()) {
                None => r is None,
                Some(t) => r matches Some(x) && *x == t.0,
            },
    {
        match self.find_entry_with_path(path) {
            Some((row, _, _)) => Some(row),
            None => None,
        }
    }

    /// Returns the data block of an entry: empty when it has none; a
    /// corruption error when the block runs past the end of the archive.
    pub fn read_data(&self, entry: &EntryRow) -> (r: Result<&[u8], BaleError>)
        ensures
            match read_block(self.spec_bytes(), *entry) {
                None => r == Err::<&[u8], BaleError>(
                    BaleError::Corrupted(Corruption::DataOutOfBounds),
                ),
                Some(b) => r matches Ok(s) && s@ == b,
            },
    {
        let offset = entry.data_offset;
        if offset == 0 {
            return Ok(&self.data.as_slice()[0..0]);
        }
        let len = self.data.len() as u64;
        if offset > len || entry.block_size > len - offset {
            return Err(BaleError::Corrupted(Corruption::DataOutOfBounds));
        }
        let start = offset as usize;
        let end = (offset + entry.block_size) as usize;
        Ok(&self.data.as_slice()[start..end])
    }
}

/// Whether two byte strings are equal.
pub fn bytes_equal(a: &[u8], b: &[u8]) -> (r: bool)
    ensures
        r <==> a@ == b@,
{
    if a.len() != b.len() {
        return false;
    }
    let mut i: usize = 0;
    while i < a.len()
        invariant
            i <= a@.len(),
            a@.len() == b@.len(),
            forall|k: int| 0 <= k < i ==> a@[k] == b@[k],
        decreases a@.len() - i,
    {
        if a[i] != b[i] {
            return false;
        }
        i = i + 1;
    }
    assert(a@ =~= b@);
    true
}


/// `s` cut or zero-extended to exactly `n` bytes.
pub open spec fn resized(s: Seq<u8>, n: nat) -> Seq<u8> {
    if n <= s.len() {
        s.take(n as int)
    } else {
        s + Seq::new((n - s.len()) as nat, |i: int| 0u8)
    }
}

/// Bytes needed to bring `n` up to a multiple of `a`.
pub open spec fn pad_len(n: nat, a: nat) -> nat {
    (((a as int) - (n as int) % (a as int)) % (a as int)) as nat
}

impl Archive {
    /// The archive's data alignment in bytes.
    pub open spec fn spec_alignment(&self) -> nat {
        pow2(self.spec_trailer().alignment_power as nat)
    }

    /// Where a data block of `len` bytes is placed: 0 for an empty block,
    /// else the write offset rounded up to the alignment.
    pub open spec fn block_offset(&self, len: nat) -> nat {
        if len == 0 {
            0
        } else {
            self.spec_write_offset() + pad_len(self.spec_write_offset(), self.spec_alignment())
        }
    }

    /// The archive bytes after writing the data block `data`: the bytes
    /// are set to the aligned offset (cut, or zero-filled) and `data`
    /// follows.
    pub open spec fn bytes_after_block(&self, data: Seq<u8>) -> Seq<u8> {
        if data.len() == 0 {
            self.spec_bytes()
        } else {
            resized(self.spec_bytes(), self.block_offset(data.len())) + data
        }
    }

    /// The write offset after writing the data block `data`.
    pub open spec fn write_offset_after_block(&self, data: Seq<u8>) -> nat {
        if data.len() == 0 {
            self.spec_write_offset()
        } else {
            self.block_offset(data.len()) + data.len()
        }
    }

    /// Room for one more data block of `len` bytes: the block, with its
    /// alignment padding, still fits in memory.
    pub open spec fn room_for(&self, len: nat) -> bool {
        self.spec_write_offset() + 65536 + len <= isize::MAX
    }

    /// A data block that reads back before a new block is written reads
    /// back the same after it, when the bytes end at the write offset; the
    /// new block reads back as the data written, and the bytes still end at
    /// the write offset.
    pub proof fn lemma_blocks_after_write(&self, data: Seq<u8>, r: EntryRow, new_row: EntryRow)
        requires
            self.wf(),
            self.spec_bytes().len() == self.spec_write_offset(),
            new_row.data_offset == self.block_offset(data.len()),
            new_row.block_size == data.len(),
        ensures
            read_block(self.spec_bytes(), r) is Some ==> read_block(self.bytes_after_block(data), r)
                == read_block(self.spec_bytes(), r),
            read_block(self.bytes_after_block(data), new_row) == Some(data),
            self.bytes_after_block(data).len() == self.write_offset_after_block(data),
    {
        self.lemma_alignment_bounds();
        let b = self.spec_bytes();
        let nb = self.bytes_after_block(data);
        if data.len() > 0 {
            let off = self.block_offset(data.len());
            assert(resized(b, off).len() == off);
            assert(nb.subrange(off as int, (off + data.len()) as int) =~= data);
            if read_block(b, r) is Some && r.data_offset != 0 {
                assert(nb.subrange(r.data_offset as int, (r.data_offset + r.block_size) as int) =~= b.subrange(
                    r.data_offset as int,
                    (r.data_offset + r.block_size) as int,
                ));
            }
        } else {
            assert(data =~= Seq::<u8>::empty());
        }
    }

    /// Syncing keeps every data block inside the written region readable,
    /// when the bytes end at the write offset.
    pub proof fn lemma_blocks_after_sync(&self, new: Archive, r: EntryRow)
        requires
            self.synced_to(new),
            self.spec_bytes().len() == self.spec_write_offset(),
            read_block(self.spec_bytes(), r) is Some,
        ensures
            read_block(new.spec_bytes(), r) == read_block(self.spec_bytes(), r),
    {
        let b = self.spec_bytes();
        let wo = self.spec_write_offset();
        assert(b.take(wo as int) =~= b);
        if r.data_offset != 0 {
            let nb = new.spec_bytes();
            assert(nb.subrange(r.data_offset as int, (r.data_offset + r.block_size) as int) =~= b.subrange(
                r.data_offset as int,
                (r.data_offset + r.block_size) as int,
            ));
        }
    }

    /// A well-formed archive's alignment and path size are ones that a new
    /// archive can be created with.
    pub proof fn lemma_wf_options(&self)
        requires
            self.wf(),
        ensures
            valid_alignment(self.spec_alignment() as u32),
            self.spec_alignment() as u32 == self.spec_alignment(),
            valid_path_size(self.spec_path_size() as u16),
            self.spec_path_size() <= 4096,
    {
        self.lemma_alignment_bounds();
        assert(pow2(self.spec_trailer().alignment_power as nat) == self.spec_alignment());
    }

    /// Writing a data block moves the write offset by at most the block
    /// and its alignment padding.
    pub proof fn lemma_block_growth(&self, data: Seq<u8>)
        requires
            self.wf(),
        ensures
            self.write_offset_after_block(data) <= self.spec_write_offset() + 65536 + data.len(),
    {
        self.lemma_alignment_bounds();
    }

    proof fn lemma_alignment_bounds(&self)
        requires
            self.wf(),
        ensures
            0 < self.spec_alignment() <= 65536,
            pad_len(self.spec_write_offset(), self.spec_alignment()) < self.spec_alignment(),
    {
        vstd::arithmetic::power2::lemma_pow2_pos(self.trailer.alignment_power as nat);
        vstd::arithmetic::power2::lemma2_to64();
        if self.trailer.alignment_power < 16 {
            vstd::arithmetic::power2::lemma_pow2_strictly_increases(
                self.trailer.alignment_power as nat,
                16,
            );
        }
    }

    /// Writes a data block at the next aligned offset. An empty block is
    /// not written and has offset 0 and no CRC. Returns the block's offset
    /// and CRC.
    fn write_data_block(&mut self, data: &[u8]) -> (r: (u64, Crc))
        requires
            old(self).wf(),
            old(self).room_for(data@.len()),
        ensures
            final(self).wf(),
            r.0 == old(self).block_offset(data@.len()),
            r.1.0 == spec_crc_of(data@),
            data@.len() > 0 ==> r.0 > 0,
            final(self).spec_bytes() == old(self).bytes_after_block(data@),
            final(self).spec_write_offset() == old(self).write_offset_after_block(data@),
            final(self).spec_trailer() == old(self).spec_trailer(),
            final(self).spec_rows() == old(self).spec_rows(),
            final(self).spec_dirs() == old(self).spec_dirs(),
            final(self).spec_dirty() == old(self).spec_dirty(),
    {
        if data.len() == 0 {
            return (0, Crc::none());
        }
        proof {
            self.lemma_alignment_bounds();
        }
        let alignment: usize = match self.trailer.alignment() {
            Ok(a) => a as usize,
            Err(_) => 1,
        };
        let current = self.write_offset;
        let padding = (alignment - current % alignment) % alignment;
        let offset = current + padding;
        let ghost old_bytes = self.data@;
        let ghost before = *self;
        if offset <= self.data.len() {
            self.data.truncate(offset);
        } else {
            while self.data.len() < offset
                invariant
                    old_bytes.len() <= self.data@.len() <= offset,
                    self.trailer == before.trailer,
                    self.entry_rows == before.entry_rows,
                    self.dir_entries == before.dir_entries,
                    self.write_offset == before.write_offset,
                    self.dirty == before.dirty,
                    self.data@ == old_bytes + Seq::new(
                        (self.data@.len() - old_bytes.len()) as nat,
                        |i: int| 0u8,
                    ),
                decreases offset - self.data@.len(),
            {
                self.data.push(0);
                assert(self.data@ =~= old_bytes + Seq::new(
                    (self.data@.len() - old_bytes.len()) as nat,
                    |i: int| 0u8,
                ));
            }
        }
        assert(self.data@ == resized(old_bytes, offset as nat));
        let crc = Crc::compute(data);
        crate::text::extend_bytes(&mut self.data, data);
        self.write_offset = offset + data.len();
        (offset as u64, crc)
    }
}


/// A row as `add_entry` stores it: the given ID, CRC and sizes of `data`,
/// the block offset, the mode, no compression or flags, and the given
/// timestamps (both from the same clock reading when neither is given).
pub open spec fn stored_row(
    row: EntryRow,
    id: u32,
    data: Seq<u8>,
    mode: u32,
    offset: nat,
    created: Option<i64>,
    modified: Option<i64>,
) -> bool {
    &&& row.entry_id == id
    &&& row.crc32c == spec_crc_of(data)
    &&& row.data_offset == offset
    &&& row.file_size == data.len()
    &&& row.block_size == data.len()
    &&& row.mode == mode
    &&& row.compression == 0
    &&& row.flags == 0
    &&& row.reserved@ == Seq::new(10, |i: int| 0u8)
    &&& (created matches Some(t) ==> row.created_time == t)
    &&& (modified matches Some(t) ==> row.modified_time == t)
    &&& (created is None && modified is None ==> row.created_time == row.modified_time)
}

/// The mode `add_directory` stores: the directory type bits are added when
/// the mode has no type bits.
pub open spec fn directory_mode(mode: u32) -> u32 {
    if mode & S_IFMT == 0 {
        mode | S_IFDIR
    } else {
        mode
    }
}

/// The mode `add_symlink` stores: the symlink type bits are added when the
/// mode has no type bits.
pub open spec fn symlink_mode(mode: u32) -> u32 {
    if mode & S_IFMT == 0 {
        mode | S_IFLNK
    } else {
        mode
    }
}

impl Archive {
    /// The error that adding an entry at `path` gives, if any: an invalid
    /// path, a normalized path longer than the path size, or an exhausted
    /// ID space.
    pub open spec fn add_error(&self, path: Seq<char>) -> Option<BaleError> {
        match normalize_chars(path) {
            None => Some(BaleError::InvalidPath),
            Some(c) => if encode_utf8(c).len() > self.spec_path_size() {
                Some(
                    BaleError::PathTooLong {
                        len: encode_utf8(c).len() as usize,
                        max: self.spec_path_size() as usize,
                    },
                )
            } else if self.spec_trailer().next_id == u32::MAX {
                Some(BaleError::ArchiveFull)
            } else {
                None
            },
        }
    }

    /// `new` is `self` with one entry added: the next ID is taken, the data
    /// block is written, and a row and a directory record for `key` (the
    /// normalized path bytes) are appended.
    pub open spec fn entry_added(
        self,
        new: Archive,
        key: Seq<u8>,
        data: Seq<u8>,
        mode: u32,
        created: Option<i64>,
        modified: Option<i64>,
    ) -> bool {
        let id = self.spec_trailer().next_id;
        &&& new.spec_trailer() == (Trailer { next_id: (id + 1) as u32, ..self.spec_trailer() })
        &&& new.spec_rows().len() == self.spec_rows().len() + 1
        &&& new.spec_rows().drop_last() == self.spec_rows()
        &&& stored_row(
            new.spec_rows().last(),
            id,
            data,
            mode,
            self.block_offset(data.len()),
            created,
            modified,
        )
        &&& new.spec_dirs() == self.spec_dirs().push((padded(key, self.spec_path_size()), id))
        &&& new.spec_bytes() == self.bytes_after_block(data)
        &&& new.spec_write_offset() == self.write_offset_after_block(data)
        &&& new.spec_dirty()
    }

    /// Adds an entry with explicit timestamps (`None` takes the clock).
    ///
    /// The path is normalized; the data is written as an aligned block; a
    /// new entry ID is assigned; a row and a directory record are appended.
    pub fn add_entry_with_options(
        &mut self,
        path: &str,
        data: &[u8],
        mode: u32,
        options: AddEntryOptions,
    ) -> (r: Result<(), BaleError>)
        requires
            old(self).wf(),
            old(self).room_for(data@.len()),
        ensures
            match old(self).add_error(path@) {
                Some(e) => r == Err::<(), BaleError>(e) && *final(self) == *old(self),
                None => r is Ok && final(self).wf() && old(self).entry_added(
                    *final(self),
                    encode_utf8(normalize_chars(path@)->0),
                    data@,
                    mode,
                    options.created_time,
                    options.modified_time,
                ),
            },
    {
        let normalized = match ArchivePath::normalize_bytes(path) {
            Ok(v) => v,
            Err(e) => return Err(e),
        };
        let padded_path = match self.pad_path(normalized.as_slice()) {
            Ok(p) => p,
            Err(e) => return Err(e),
        };
        let entry_id = self.trailer.next_id();
        if entry_id == u32::MAX {
            return Err(BaleError::ArchiveFull);
        }
        let ghost before = *self;
        self.trailer.set_next_id(entry_id + 1);
        let (data_offset, crc) = self.write_data_block(data);
        let now = now_millis();
        let created = match options.created_time {
            Some(t) => t,
            None => now,
        };
        let modified = match options.modified_time {
            Some(t) => t,
            None => now,
        };
        let row = EntryRow::new_file(
            entry_id,
            crc,
            data_offset,
            data.len() as u64,
            data.len() as u64,
            created,
            modified,
            mode,
        );
        self.entry_rows.push(row);
        let rec = DirRecord { path: padded_path, entry_id };
        self.dir_entries.push(rec);
        self.dirty = true;
        proof {
            assert(self.entry_rows@.drop_last() =~= before.entry_rows@);
            assert(dir_view(self.dir_entries@) =~= dir_view(before.dir_entries@).push(
                (rec.path@, entry_id),
            ));
        }
        Ok(())
    }

    /// Adds an entry whose timestamps are the current time.
    pub fn add_entry(&mut self, path: &str, data: &[u8], mode: u32) -> (r: Result<(), BaleError>)
        requires
            old(self).wf(),
            old(self).room_for(data@.len()),
        ensures
            match old(self).add_error(path@) {
                Some(e) => r == Err::<(), BaleError>(e) && *final(self) == *old(self),
                None => r is Ok && final(self).wf() && old(self).entry_added(
                    *final(self),
                    encode_utf8(normalize_chars(path@)->0),
                    data@,
                    mode,
                    None,
                    None,
                ),
            },
    {
        self.add_entry_with_options(path, data, mode, AddEntryOptions::default())
    }

    /// Adds an entry whose modification time is `mtime` (`None` takes the
    /// clock); its creation time is the current time.
    pub fn add_entry_with_mtime(&mut self, path: &str, data: &[u8], mode: u32, mtime: Option<i64>) -> (r:
        Result<(), BaleError>)
        requires
            old(self).wf(),
            old(self).room_for(data@.len()),
        ensures
            match old(self).add_error(path@) {
                Some(e) => r == Err::<(), BaleError>(e) && *final(self) == *old(self),
                None => r is Ok && final(self).wf() && old(self).entry_added(
                    *final(self),
                    encode_utf8(normalize_chars(path@)->0),
                    data@,
                    mode,
                    None,
                    mtime,
                ),
            },
    {
        self.add_entry_with_options(
            path,
            data,
            mode,
            AddEntryOptions { created_time: None, modified_time: mtime },
        )
    }

    /// Adds a directory entry (no data); the directory type bits are set
    /// when `mode` has none.
    pub fn add_directory(&mut self, path: &str, mode: u32) -> (r: Result<(), BaleError>)
        requires
            old(self).wf(),
            old(self).room_for(0),
        ensures
            match old(self).add_error(path@) {
                Some(e) => r == Err::<(), BaleError>(e) && *final(self) == *old(self),
                None => r is Ok && final(self).wf() && old(self).entry_added(
                    *final(self),
                    encode_utf8(normalize_chars(path@)->0),
                    Seq::empty(),
                    directory_mode(mode),
                    None,
                    None,
                ),
            },
    {
        let mode = if mode & S_IFMT == 0 {
            mode | S_IFDIR
        } else {
            mode
        };
        let empty: [u8; 0] = [];
        proof {
            assert(empty@ =~= Seq::<u8>::empty());
        }
        self.add_entry(path, &empty, mode)
    }
}

/// A write is read back: after an entry is added under a path that no
/// directory record holds, with an ID that no row holds, looking the
/// normalized path up finds the new row and its ID, and its data block
/// reads back as the data that was written.
pub proof fn lemma_added_entry_found(
    a: Archive,
    b: Archive,
    key: Seq<u8>,
    data: Seq<u8>,
    mode: u32,
    created: Option<i64>,
    modified: Option<i64>,
)
    requires
        a.wf(),
        key.len() <= a.spec_path_size(),
        a.entry_added(b, key, data, mode, created, modified),
        first_dir_from(a.spec_dirs(), padded(key, a.spec_path_size()), 0) == a.spec_dirs().len(),
        first_row_from(a.spec_rows(), a.spec_trailer().next_id, 0) == a.spec_rows().len(),
    ensures
        b.spec_lookup(key) == Some(
            (
                b.spec_rows().last(),
                trim_nul(padded(key, a.spec_path_size())),
                a.spec_trailer().next_id,
            ),
        ),
        read_block(b.spec_bytes(), b.spec_rows().last()) == Some(data),
{
    let ps = a.spec_path_size();
    let k = padded(key, ps);
    assert(search_key(key, ps) =~= k);
    assert(b.spec_path_size() == ps);
    let d = (k, a.spec_trailer().next_id);
    lemma_first_dir_push(a.spec_dirs(), k, d, 0);
    let row = b.spec_rows().last();
    assert(b.spec_rows() =~= a.spec_rows().push(row));
    lemma_first_row_push(a.spec_rows(), a.spec_trailer().next_id, row, 0);
    if data.len() > 0 {
        a.lemma_alignment_bounds();
        let off = a.block_offset(data.len());
        assert(resized(a.spec_bytes(), off).len() == off);
        assert(b.spec_bytes().subrange(off as int, (off + data.len()) as int) =~= data);
    }
}


/// One step of filtering a sequence in place: the filtered prefix grows by
/// the next element when it is kept, and that element is dropped otherwise.
proof fn lemma_filter_step<A>(s: Seq<A>, p: spec_fn(A) -> bool, j: int)
    requires
        0 <= j < s.len(),
    ensures
        s.take(j + 1).filter(p) == (if p(s[j]) {
            s.take(j).filter(p).push(s[j])
        } else {
            s.take(j).filter(p)
        }),
        p(s[j]) ==> s.take(j).filter(p).push(s[j]) + s.skip(j + 1) == s.take(j).filter(p) + s.skip(
            j,
        ),
        !p(s[j]) ==> (s.take(j).filter(p) + s.skip(j)).remove(s.take(j).filter(p).len() as int)
            == s.take(j).filter(p) + s.skip(j + 1),
{
    reveal(Seq::filter);
    assert(s.take(j + 1).drop_last() =~= s.take(j));
    let f = s.take(j).filter(p);
    assert(f.push(s[j]) + s.skip(j + 1) =~= f + s.skip(j));
    assert((f + s.skip(j)).remove(f.len() as int) =~= f + s.skip(j + 1));
}

/// Every directory record's path has `n` bytes.
pub open spec fn all_paths_len(v: Seq<DirRecord>, n: nat) -> bool {
    forall|i: int| 0 <= i < v.len() ==> (#[trigger] v[i]).path@.len() == n
}

/// Removes the directory records whose path is `key`.
fn remove_dirs_with_key(dirs: &mut Vec<DirRecord>, key: &Vec<u8>, n: Ghost<nat>)
    requires
        all_paths_len(old(dirs)@, n@),
    ensures
        all_paths_len(final(dirs)@, n@),
        dir_view(final(dirs)@) == dir_view(old(dirs)@).filter(
            |d: (Seq<u8>, u32)| d.0 != key@,
        ),
{
    let ghost s = dir_view(dirs@);
    let ghost p = |d: (Seq<u8>, u32)| d.0 != key@;
    let mut i: usize = 0;
    let ghost mut j: int = 0;
    proof {
        reveal(Seq::filter);
        assert(s.take(0).filter(p) =~= Seq::<(Seq<u8>, u32)>::empty());
        assert(dir_view(dirs@) =~= s.take(0).filter(p) + s.skip(0));
    }
    while i < dirs.len()
        invariant
            0 <= j <= s.len(),
            i == s.take(j).filter(p).len(),
            dir_view(dirs@) == s.take(j).filter(p) + s.skip(j),
            all_paths_len(dirs@, n@),
            s == dir_view(old(dirs)@),
            p == (|d: (Seq<u8>, u32)| d.0 != key@),
        decreases s.len() - j,
    {
        proof {
            lemma_filter_step(s, p, j);
            assert(dir_view(dirs@)[i as int] == s[j]);
        }
        if bytes_equal(dirs[i].path.as_slice(), key.as_slice()) {
            let ghost before = dirs@;
            dirs.remove(i);
            proof {
                assert(dir_view(dirs@) =~= dir_view(before).remove(i as int));
                j = j + 1;
            }
        } else {
            i = i + 1;
            proof {
                j = j + 1;
            }
        }
    }
    proof {
        assert(s.take(j) =~= s);
        assert(s.skip(j) =~= Seq::<(Seq<u8>, u32)>::empty());
        assert(dir_view(dirs@) =~= s.filter(p));
    }
}

/// Whether `v` holds `x`.
fn contains_id(v: &Vec<u32>, x: u32) -> (b: bool)
    ensures
        b == v@.contains(x),
{
    let mut i: usize = 0;
    while i < v.len()
        invariant
            i <= v@.len(),
            forall|k: int| 0 <= k < i ==> v@[k] != x,
        decreases v@.len() - i,
    {
        if v[i] == x {
            return true;
        }
        i = i + 1;
    }
    false
}

/// Removes the rows whose ID is in `ids`.
fn remove_rows_with_ids(rows: &mut Vec<EntryRow>, ids: &Vec<u32>)
    ensures
        final(rows)@ == old(rows)@.filter(|r: EntryRow| !ids@.contains(r.entry_id)),
{
    let ghost s = rows@;
    let ghost p = |r: EntryRow| !ids@.contains(r.entry_id);
    let mut i: usize = 0;
    let ghost mut j: int = 0;
    proof {
        reveal(Seq::filter);
        assert(s.take(0).filter(p) =~= Seq::<EntryRow>::empty());
        assert(rows@ =~= s.take(0).filter(p) + s.skip(0));
    }
    while i < rows.len()
        invariant
            0 <= j <= s.len(),
            i == s.take(j).filter(p).len(),
            rows@ == s.take(j).filter(p) + s.skip(j),
            s == old(rows)@,
            p == (|r: EntryRow| !ids@.contains(r.entry_id)),
        decreases s.len() - j,
    {
        proof {
            lemma_filter_step(s, p, j);
            assert(rows@[i as int] == s[j]);
        }
        if contains_id(ids, rows[i].entry_id) {
            rows.remove(i);
            proof {
                j = j + 1;
            }
        } else {
            i = i + 1;
            proof {
                j = j + 1;
            }
        }
    }
    proof {
        assert(s.take(j) =~= s);
        assert(s.skip(j) =~= Seq::<EntryRow>::empty());
        assert(rows@ =~= s.filter(p));
    }
}

/// Whether some directory record has path `key` and ID `id`.
pub open spec fn key_holds_id(dirs: Seq<(Seq<u8>, u32)>, key: Seq<u8>, id: u32) -> bool {
    exists|k: int| 0 <= k < dirs.len() && dirs[k].0 == key && dirs[k].1 == id
}

/// Whether some directory record has path `key`.
pub open spec fn has_key(dirs: Seq<(Seq<u8>, u32)>, key: Seq<u8>) -> bool {
    exists|k: int| 0 <= k < dirs.len() && dirs[k].0 == key
}

/// Whether some directory record has ID `id`.
pub open spec fn has_id(dirs: Seq<(Seq<u8>, u32)>, id: u32) -> bool {
    exists|k: int| 0 <= k < dirs.len() && dirs[k].1 == id
}

impl Archive {
    /// `new` is `self` after unlinking `path`: the first record with its
    /// search key is removed, and the rows with that record's ID too when
    /// no other record holds it; the archive is unchanged when no record
    /// has the path.
    pub open spec fn unlinked(self, new: Archive, path: Seq<u8>) -> bool {
        let dirs = self.spec_dirs();
        let i = first_dir_from(dirs, self.key_of(path), 0);
        if i < dirs.len() {
            let id = dirs[i].1;
            let rest = dirs.remove(i);
            &&& new.wf()
            &&& new.spec_dirs() == rest
            &&& new.spec_rows() == (if has_id(rest, id) {
                self.spec_rows()
            } else {
                self.spec_rows().filter(|row: EntryRow| row.entry_id != id)
            })
            &&& new.spec_bytes() == self.spec_bytes()
            &&& new.spec_trailer() == self.spec_trailer()
            &&& new.spec_write_offset() == self.spec_write_offset()
            &&& new.spec_dirty()
        } else {
            new == self
        }
    }

    /// `new` is `self` after deleting `path`: every record with its search
    /// key is removed, with every row whose ID one of them held; the
    /// archive is unchanged when no record has the path.
    pub open spec fn deleted(self, new: Archive, path: Seq<u8>) -> bool {
        let key = self.key_of(path);
        if has_key(self.spec_dirs(), key) {
            &&& new.wf()
            &&& new.spec_dirs() == self.spec_dirs().filter(|d: (Seq<u8>, u32)| d.0 != key)
            &&& new.spec_rows() == self.spec_rows().filter(
                |row: EntryRow| !key_holds_id(self.spec_dirs(), key, row.entry_id),
            )
            &&& new.spec_bytes() == self.spec_bytes()
            &&& new.spec_trailer() == self.spec_trailer()
            &&& new.spec_write_offset() == self.spec_write_offset()
            &&& new.spec_dirty()
        } else {
            new == self
        }
    }
}

impl Archive {
    /// The search key of a path in this archive.
    pub open spec fn key_of(&self, path: Seq<u8>) -> Seq<u8> {
        search_key(path, self.spec_path_size())
    }

    /// Deletes every directory record for `path`, and every entry row whose
    /// ID one of them held. Returns whether anything matched; the archive
    /// is unchanged when nothing did.
    pub fn delete(&mut self, path: &str) -> (r: bool)
        requires
            old(self).wf(),
        ensures
            r == has_key(old(self).spec_dirs(), old(self).key_of(path.spec_bytes())),
            old(self).deleted(*final(self), path.spec_bytes()),
    {
        let key = self.key_for(path.as_bytes());
        let ghost dv = self.spec_dirs();
        let mut ids: Vec<u32> = Vec::new();
        let mut i: usize = 0;
        while i < self.dir_entries.len()
            invariant
                i <= self.dir_entries@.len(),
                dv == dir_view(self.dir_entries@),
                forall|id: u32|
                    ids@.contains(id) <==> exists|k: int|
                        0 <= k < i && dv[k].0 == key@ && dv[k].1 == id,
            decreases self.dir_entries@.len() - i,
        {
            if bytes_equal(self.dir_entries[i].path.as_slice(), key.as_slice()) {
                let ghost before = ids@;
                ids.push(self.dir_entries[i].entry_id);
                proof {
                    let cur = self.dir_entries@[i as int].entry_id;
                    assert(dv[i as int] == (self.dir_entries@[i as int].path@, cur));
                    assert forall|id: u32|
                        ids@.contains(id) <==> exists|k: int|
                            0 <= k < i + 1 && dv[k].0 == key@ && dv[k].1 == id by {
                        if id == cur {
                            assert(ids@[before.len() as int] == id);
                            assert(dv[i as int].0 == key@ && dv[i as int].1 == id);
                        } else {
                            if ids@.contains(id) {
                                let x = choose|x: int| 0 <= x < ids@.len() && ids@[x] == id;
                                assert(before[x] == id);
                                assert(before.contains(id));
                            }
                            if exists|k: int| 0 <= k < i + 1 && dv[k].0 == key@ && dv[k].1 == id {
                                let k = choose|k: int|
                                    0 <= k < i + 1 && dv[k].0 == key@ && dv[k].1 == id;
                                assert(k < i);
                                assert(before.contains(id));
                                let x = choose|x: int| 0 <= x < before.len() && before[x] == id;
                                assert(ids@[x] == id);
                            }
                        }
                    }
                }
            } else {
                proof {
                    assert(dv[i as int].0 != key@);
                    assert forall|id: u32|
                        ids@.contains(id) <==> exists|k: int|
                            0 <= k < i + 1 && dv[k].0 == key@ && dv[k].1 == id by {
                        if exists|k: int| 0 <= k < i + 1 && dv[k].0 == key@ && dv[k].1 == id {
                            let k = choose|k: int|
                                0 <= k < i + 1 && dv[k].0 == key@ && dv[k].1 == id;
                            assert(k < i);
                        }
                    }
                }
            }
            i = i + 1;
        }
        if ids.len() == 0 {
            proof {
                if has_key(dv, key@) {
                    let k = choose|k: int| 0 <= k < dv.len() && dv[k].0 == key@;
                    assert(ids@.contains(dv[k].1));
                }
            }
            return false;
        }
        proof {
            assert(ids@.contains(ids@[0]));
        }
        let ghost before = *self;
        remove_dirs_with_key(&mut self.dir_entries, &key, Ghost(self.trailer.path_size as nat));
        remove_rows_with_ids(&mut self.entry_rows, &ids);
        self.dirty = true;
        proof {
            let p1 = |row: EntryRow| !ids@.contains(row.entry_id);
            let p2 = |row: EntryRow| !key_holds_id(dv, key@, row.entry_id);
            assert forall|row: EntryRow| #[trigger] p1(row) == p2(row) by {
                if key_holds_id(dv, key@, row.entry_id) {
                    let k = choose|k: int|
                        0 <= k < dv.len() && dv[k].0 == key@ && dv[k].1 == row.entry_id;
                    assert(ids@.contains(row.entry_id));
                }
            }
            assert(p1 =~= p2);
            assert(self.spec_rows() == before.spec_rows().filter(p2));
            assert(self.spec_dirs() == dv.filter(|d: (Seq<u8>, u32)| d.0 != key@));
            assert(self.wf());
            let key2 = old(self).key_of(path.spec_bytes());
            assert(key2 == key@);
            let q = |d: (Seq<u8>, u32)| d.0 != key2;
            assert(q =~= (|d: (Seq<u8>, u32)| d.0 != key@));
            let q2 = |row: EntryRow| !key_holds_id(old(self).spec_dirs(), key2, row.entry_id);
            assert(q2 =~= p2);
        }
        true
    }
}


/// The row `replace_content` stores in place of `row`: the new block's
/// offset, sizes and CRC and the new mode; the modification time is taken
/// from the clock and the rest is kept.
pub open spec fn replaced_row(row: EntryRow, new: EntryRow, data: Seq<u8>, mode: u32, offset: nat) -> bool {
    new == EntryRow {
        data_offset: offset as u64,
        file_size: data.len() as u64,
        block_size: data.len() as u64,
        crc32c: spec_crc_of(data),
        mode: mode,
        modified_time: new.modified_time,
        ..row
    }
}

impl Archive {
    /// Removes the first directory record for `path`. When no other record
    /// holds its ID, the entry rows with that ID are removed too. Returns
    /// whether a record was found; the archive is unchanged when none was.
    pub fn unlink(&mut self, path: &str) -> (r: bool)
        requires
            old(self).wf(),
        ensures
            r == (first_dir_from(old(self).spec_dirs(), old(self).key_of(path.spec_bytes()), 0)
                < old(self).spec_dirs().len()),
            old(self).unlinked(*final(self), path.spec_bytes()),
    {
        let key = self.key_for(path.as_bytes());
        let pos = self.position_of(&key);
        proof {
            lemma_first_dir_bounds(self.spec_dirs(), key@, 0);
        }
        if pos >= self.dir_entries.len() {
            return false;
        }
        let ghost dv = self.spec_dirs();
        let removed = self.dir_entries.remove(pos);
        let id = removed.entry_id;
        proof {
            assert(self.spec_dirs() =~= dv.remove(pos as int));
        }
        let ghost rest = self.spec_dirs();
        let mut still = false;
        let mut k: usize = 0;
        while k < self.dir_entries.len()
            invariant
                k <= self.dir_entries@.len(),
                rest == dir_view(self.dir_entries@),
                still == exists|x: int| 0 <= x < k && rest[x].1 == id,
            decreases self.dir_entries@.len() - k,
        {
            if self.dir_entries[k].entry_id == id {
                still = true;
            }
            k = k + 1;
            proof {
                assert(rest[k - 1].1 == self.dir_entries@[k - 1].entry_id);
            }
        }
        if !still {
            let mut ids: Vec<u32> = Vec::new();
            ids.push(id);
            remove_rows_with_ids(&mut self.entry_rows, &ids);
            proof {
                assert(ids@ =~= seq![id]);
                let p1 = |row: EntryRow| !ids@.contains(row.entry_id);
                let p2 = |row: EntryRow| row.entry_id != id;
                assert forall|row: EntryRow| #[trigger] p1(row) == p2(row) by {
                    if row.entry_id == id {
                        assert(ids@[0] == id);
                    }
                }
                assert(p1 =~= p2);
            }
        }
        self.dirty = true;
        proof {
            assert forall|x: int| 0 <= x < self.dir_entries@.len() implies (
            #[trigger] self.dir_entries@[x]).path@.len() == self.trailer.path_size by {
                if x < pos {
                    assert(self.dir_entries@[x] == old(self).dir_entries@[x]);
                } else {
                    assert(self.dir_entries@[x] == old(self).dir_entries@[x + 1]);
                }
            }
        }
        true
    }

    /// What `hard_link` does: an error, or the directory record it adds.
    pub open spec fn hard_link_outcome(&self, target: Seq<u8>, link: Seq<char>) -> Result<
        (Seq<u8>, u32),
        BaleError,
    > {
        let ps = self.spec_path_size();
        match self.spec_lookup(target) {
            None => Err(BaleError::EntryNotFound),
            Some(t) => if spec_kind_of_mode(t.0.mode) == EntryKind::Directory {
                Err(BaleError::NotAFile)
            } else {
                match normalize_chars(link) {
                    None => Err(BaleError::InvalidPath),
                    Some(c) => if self.spec_lookup(encode_utf8(c)) is Some {
                        Err(BaleError::PathExists)
                    } else if encode_utf8(c).len() > ps {
                        Err(
                            BaleError::PathTooLong {
                                len: encode_utf8(c).len() as usize,
                                max: ps as usize,
                            },
                        )
                    } else {
                        Ok((padded(encode_utf8(c), ps), t.2))
                    },
                }
            },
        }
    }

    /// Adds a second directory record for an existing entry: `link`
    /// (normalized) names the same entry ID as `target`.
    pub fn hard_link(&mut self, target: &str, link: &str) -> (r: Result<(), BaleError>)
        requires
            old(self).wf(),
        ensures
            match old(self).hard_link_outcome(target.spec_bytes(), link@) {
                Err(e) => r == Err::<(), BaleError>(e) && *final(self) == *old(self),
                Ok(d) => {
                    &&& r is Ok
                    &&& final(self).wf()
                    &&& final(self).spec_dirs() == old(self).spec_dirs().push(d)
                    &&& final(self).spec_rows() == old(self).spec_rows()
                    &&& final(self).spec_bytes() == old(self).spec_bytes()
                    &&& final(self).spec_trailer() == old(self).spec_trailer()
                    &&& final(self).spec_write_offset() == old(self).spec_write_offset()
                    &&& final(self).spec_dirty()
                },
            },
    {
        let entry_id = match self.find_entry_with_path(target) {
            None => return Err(BaleError::EntryNotFound),
            Some((row, _, id)) => {
                if row.kind() == EntryKind::Directory {
                    return Err(BaleError::NotAFile);
                }
                id
            },
        };
        let normalized = match ArchivePath::normalize_bytes(link) {
            Ok(v) => v,
            Err(e) => return Err(e),
        };
        if self.lookup_bytes(normalized.as_slice()).is_some() {
            return Err(BaleError::PathExists);
        }
        let padded_path = match self.pad_path(normalized.as_slice()) {
            Ok(p) => p,
            Err(e) => return Err(e),
        };
        let ghost before = *self;
        let rec = DirRecord { path: padded_path, entry_id };
        self.dir_entries.push(rec);
        self.dirty = true;
        proof {
            assert(dir_view(self.dir_entries@) =~= dir_view(before.dir_entries@).push(
                (rec.path@, entry_id),
            ));
        }
        Ok(())
    }

    /// What `replace_content` does: an error, or the index of the row it
    /// rewrites (the first row with the found entry's ID).
    pub open spec fn replace_outcome(&self, path: Seq<u8>) -> Result<int, BaleError> {
        match self.spec_lookup(path) {
            None => Err(BaleError::EntryNotFound),
            Some(t) => if spec_kind_of_mode(t.0.mode) != EntryKind::File {
                Err(BaleError::NotAFile)
            } else {
                Ok(first_row_from(self.spec_rows(), t.2, 0))
            },
        }
    }

    /// Replaces the data of a file entry: a new data block is written and
    /// the entry's row takes its offset, sizes, CRC, the given mode and the
    /// current time as modification time.
    pub fn replace_content(&mut self, path: &str, data: &[u8], mode: u32) -> (r: Result<
        (),
        BaleError,
    >)
        requires
            old(self).wf(),
            old(self).room_for(data@.len()),
        ensures
            match old(self).replace_outcome(path.spec_bytes()) {
                Err(e) => r == Err::<(), BaleError>(e) && *final(self) == *old(self),
                Ok(j) => {
                    &&& r is Ok
                    &&& final(self).wf()
                    &&& 0 <= j < old(self).spec_rows().len()
                    &&& final(self).spec_rows().len() == old(self).spec_rows().len()
                    &&& replaced_row(
                        old(self).spec_rows()[j],
                        final(self).spec_rows()[j],
                        data@,
                        mode,
                        old(self).block_offset(data@.len()),
                    )
                    &&& final(self).spec_rows() == old(self).spec_rows().update(
                        j,
                        final(self).spec_rows()[j],
                    )
                    &&& final(self).spec_dirs() == old(self).spec_dirs()
                    &&& final(self).spec_bytes() == old(self).bytes_after_block(data@)
                    &&& final(self).spec_write_offset() == old(self).write_offset_after_block(
                        data@,
                    )
                    &&& final(self).spec_trailer() == old(self).spec_trailer()
                    &&& final(self).spec_dirty()
                },
            },
    {
        let entry_id = match self.find_entry_with_path(path) {
            None => return Err(BaleError::EntryNotFound),
            Some((row, _, id)) => {
                if row.kind() != EntryKind::File {
                    return Err(BaleError::NotAFile);
                }
                id
            },
        };
        let j = self.row_position(entry_id);
        proof {
            lemma_first_row_bounds(self.spec_rows(), entry_id, 0);
            let key = search_key(path.spec_bytes(), self.spec_path_size());
            lemma_first_dir_bounds(self.spec_dirs(), key, 0);
        }
        let (data_offset, crc) = self.write_data_block(data);
        let old_row = self.entry_rows[j];
        let new_row = EntryRow {
            data_offset,
            file_size: data.len() as u64,
            block_size: data.len() as u64,
            crc32c: crc.0,
            mode,
            modified_time: now_millis(),
            ..old_row
        };
        self.entry_rows.set(j, new_row);
        self.dirty = true;
        Ok(())
    }
}


/// The trimmed path `p` moved from under directory `from` to under `to`:
/// `None` when `p` is not valid UTF-8 or does not start with `from/`.
pub open spec fn moved_path(p: Seq<u8>, from: Seq<u8>, to: Seq<u8>) -> Option<Seq<u8>> {
    let prefix = from.push(47u8);
    if valid_utf8(p) && prefix.len() <= p.len() && p.take(prefix.len() as int) == prefix {
        Some(to.push(47u8) + p.skip(prefix.len() as int))
    } else {
        None
    }
}

/// The directory record at `k` after moving descendants of `from` to `to`.
pub open spec fn moved_record(d: (Seq<u8>, u32), from: Seq<u8>, to: Seq<u8>, ps: nat) -> (
    Seq<u8>,
    u32,
) {
    match moved_path(trim_nul(d.0), from, to) {
        Some(np) => (padded(np, ps), d.1),
        None => d,
    }
}

/// The first record at or after `k` whose moved path exceeds the path
/// size, or `dirs.len()` when there is none.
pub open spec fn first_too_long_from(
    dirs: Seq<(Seq<u8>, u32)>,
    from: Seq<u8>,
    to: Seq<u8>,
    ps: nat,
    k: int,
) -> int
    decreases dirs.len() - k,
{
    if k >= dirs.len() {
        dirs.len() as int
    } else if moved_path(trim_nul(dirs[k].0), from, to) matches Some(np) && np.len() > ps {
        k
    } else {
        first_too_long_from(dirs, from, to, ps, k + 1)
    }
}

proof fn lemma_first_too_long_bounds(
    dirs: Seq<(Seq<u8>, u32)>,
    from: Seq<u8>,
    to: Seq<u8>,
    ps: nat,
    k: int,
)
    requires
        0 <= k <= dirs.len(),
    ensures
        k <= first_too_long_from(dirs, from, to, ps, k) <= dirs.len(),
        forall|x: int|
            k <= x < first_too_long_from(dirs, from, to, ps, k) ==> !(moved_path(
                trim_nul(#[trigger] dirs[x].0),
                from,
                to,
            ) matches Some(np) && np.len() > ps),
        first_too_long_from(dirs, from, to, ps, k) < dirs.len() ==> (moved_path(
            trim_nul(dirs[first_too_long_from(dirs, from, to, ps, k)].0),
            from,
            to,
        ) matches Some(np) && np.len() > ps),
    decreases dirs.len() - k,
{
    if k < dirs.len() {
        lemma_first_too_long_bounds(dirs, from, to, ps, k + 1);
    }
}

impl Archive {
    /// What `rename` does: an error, or the new directory table.
    ///
    /// Both paths are normalized. The source is the first record with the
    /// source path; the destination must fit and be unused. When the source
    /// is a directory, every record under `from/` moves under `to/`.
    pub open spec fn rename_outcome(&self, from: Seq<char>, to: Seq<char>) -> Result<
        Seq<(Seq<u8>, u32)>,
        BaleError,
    > {
        let ps = self.spec_path_size();
        let dirs = self.spec_dirs();
        let rows = self.spec_rows();
        match (normalize_chars(from), normalize_chars(to)) {
            (None, _) => Err(BaleError::InvalidPath),
            (Some(_), None) => Err(BaleError::InvalidPath),
            (Some(fc), Some(tc)) => {
                let f = encode_utf8(fc);
                let t = encode_utf8(tc);
                let i = first_dir_from(dirs, padded(f, ps), 0);
                if f.len() > ps {
                    Err(BaleError::PathTooLong { len: f.len() as usize, max: ps as usize })
                } else if i >= dirs.len() {
                    Err(BaleError::EntryNotFound)
                } else if t.len() > ps {
                    Err(BaleError::PathTooLong { len: t.len() as usize, max: ps as usize })
                } else if has_key(dirs, padded(t, ps)) {
                    Err(BaleError::PathExists)
                } else {
                    let id = dirs[i].1;
                    let j = first_row_from(rows, id, 0);
                    let is_dir = j < rows.len() && spec_kind_of_mode(rows[j].mode)
                        == EntryKind::Directory;
                    let bad = first_too_long_from(dirs, f, t, ps, 0);
                    if is_dir && bad < dirs.len() {
                        Err(
                            BaleError::PathTooLong {
                                len: moved_path(trim_nul(dirs[bad].0), f, t)->0.len() as usize,
                                max: ps as usize,
                            },
                        )
                    } else if is_dir {
                        Ok(
                            Seq::new(dirs.len(), |k: int| moved_record(dirs[k], f, t, ps)).update(
                                i,
                                (padded(t, ps), id),
                            ),
                        )
                    } else {
                        Ok(dirs.update(i, (padded(t, ps), id)))
                    }
                }
            },
        }
    }

    /// Renames an entry: its directory record takes the new path, and when
    /// it is a directory, every record under it moves along.
    pub fn rename(&mut self, from: &str, to: &str) -> (r: Result<(), BaleError>)
        requires
            old(self).wf(),
        ensures
            match old(self).rename_outcome(from@, to@) {
                Err(e) => r == Err::<(), BaleError>(e) && *final(self) == *old(self),
                Ok(d) => {
                    &&& r is Ok
                    &&& final(self).wf()
                    &&& final(self).spec_dirs() == d
                    &&& final(self).spec_rows() == old(self).spec_rows()
                    &&& final(self).spec_bytes() == old(self).spec_bytes()
                    &&& final(self).spec_trailer() == old(self).spec_trailer()
                    &&& final(self).spec_write_offset() == old(self).spec_write_offset()
                    &&& final(self).spec_dirty()
                },
            },
    {
        let from_norm = match ArchivePath::normalize_bytes(from) {
            Ok(v) => v,
            Err(e) => return Err(e),
        };
        let to_norm = match ArchivePath::normalize_bytes(to) {
            Ok(v) => v,
            Err(e) => return Err(e),
        };
        let ps = self.trailer.path_size as usize;
        let from_padded = match self.pad_path(from_norm.as_slice()) {
            Ok(p) => p,
            Err(e) => return Err(e),
        };
        let source_pos = self.position_of(&from_padded);
        proof {
            lemma_first_dir_bounds(self.spec_dirs(), from_padded@, 0);
        }
        if source_pos >= self.dir_entries.len() {
            return Err(BaleError::EntryNotFound);
        }
        let to_padded = match self.pad_path(to_norm.as_slice()) {
            Ok(p) => p,
            Err(e) => return Err(e),
        };
        let exists_pos = self.position_of(&to_padded);
        proof {
            lemma_first_dir_bounds(self.spec_dirs(), to_padded@, 0);
            if has_key(self.spec_dirs(), to_padded@) {
                let k = choose|k: int|
                    0 <= k < self.spec_dirs().len() && self.spec_dirs()[k].0 == to_padded@;
            }
        }
        if exists_pos < self.dir_entries.len() {
            return Err(BaleError::PathExists);
        }
        let entry_id = self.dir_entries[source_pos].entry_id;
        let j = self.row_position(entry_id);
        proof {
            lemma_first_row_bounds(self.spec_rows(), entry_id, 0);
        }
        let is_directory = j < self.entry_rows.len() && self.entry_rows[j].kind()
            == EntryKind::Directory;
        let ghost dv = self.spec_dirs();
        let ghost f = from_norm@;
        let ghost t = to_norm@;
        if is_directory {
            let mut newp: Vec<Option<Vec<u8>>> = Vec::new();
            let mut k: usize = 0;
            proof {
                lemma_first_too_long_bounds(dv, f, t, ps as nat, 0);
            }
            while k < self.dir_entries.len()
                invariant
                    k <= self.dir_entries@.len(),
                    dv == dir_view(self.dir_entries@),
                    newp@.len() == k,
                    f == from_norm@,
                    t == to_norm@,
                    f.len() <= ps,
                    t.len() <= ps,
                    ps == self.trailer.path_size,
                    self.wf(),
                    *self == *old(self),
                    normalize_chars(from@) is Some,
                    normalize_chars(to@) is Some,
                    f == encode_utf8(normalize_chars(from@)->0),
                    t == encode_utf8(normalize_chars(to@)->0),
                    from_padded@ == padded(f, ps as nat),
                    to_padded@ == padded(t, ps as nat),
                    source_pos == first_dir_from(dv, from_padded@, 0),
                    source_pos < dv.len(),
                    !has_key(dv, to_padded@),
                    entry_id == dv[source_pos as int].1,
                    j == first_row_from(self.spec_rows(), entry_id, 0),
                    j < self.spec_rows().len(),
                    spec_kind_of_mode(self.spec_rows()[j as int].mode) == EntryKind::Directory,
                    forall|x: int| 0 <= x < k ==> !(moved_path(
                        trim_nul(#[trigger] dv[x].0),
                        f,
                        t,
                    ) matches Some(np) && np.len() > ps),
                    forall|x: int|
                        0 <= x < k ==> match #[trigger] newp@[x] {
                            Some(v) => moved_path(trim_nul(dv[x].0), f, t) matches Some(np)
                                && v@ == padded(np, ps as nat),
                            None => moved_path(trim_nul(dv[x].0), f, t) is None,
                        },
                decreases self.dir_entries@.len() - k,
            {
                let p = self.dir_entries[k].path.as_slice();
                let n = nul_trimmed_len(p);
                let trimmed = &p[0..n];
                proof {
                    assert(dv[k as int].0 == p@);
                    assert(trimmed@ == trim_nul(dv[k as int].0));
                }
                let plen = from_norm.len() + 1;
                let mut moved: Option<Vec<u8>> = None;
                if str_from_utf8(trimmed).is_some() && plen <= trimmed.len()
                    && bytes_equal(&trimmed[0..from_norm.len()], from_norm.as_slice())
                    && trimmed[from_norm.len()] == 47u8 {
                    proof {
                        assert(trimmed@.take(plen as int) =~= f.push(47u8));
                    }
                    let mut np: Vec<u8> = Vec::new();
                    crate::text::extend_bytes(&mut np, to_norm.as_slice());
                    np.push(47u8);
                    crate::text::extend_bytes(&mut np, &trimmed[plen..n]);
                    proof {
                        assert(np@ =~= t.push(47u8) + trimmed@.skip(plen as int));
                    }
                    proof {
                        assert(moved_path(trim_nul(dv[k as int].0), f, t) == Some(np@));
                    }
                    if np.len() > ps {
                        proof {
                            lemma_first_too_long_bounds(dv, f, t, ps as nat, 0);
                            let bad = first_too_long_from(dv, f, t, ps as nat, 0);
                            if bad < k {
                                assert(!(moved_path(trim_nul(dv[bad].0), f, t) matches Some(np2)
                                    && np2.len() > ps));
                            }
                            assert(bad == k);
                        }
                        return Err(BaleError::PathTooLong { len: np.len(), max: ps });
                    }
                    let padded_np = match self.pad_path(np.as_slice()) {
                        Ok(v) => v,
                        Err(_) => np,
                    };
                    moved = Some(padded_np);
                } else {
                    proof {
                        if valid_utf8(trimmed@) && plen <= trimmed@.len() && trimmed@.take(
                            plen as int,
                        ) == f.push(47u8) {
                            assert(trimmed@.take(plen as int)[f.len() as int] == 47u8);
                            assert(trimmed@.subrange(0, f.len() as int) =~= f);
                        }
                    }
                }
                newp.push(moved);
                k = k + 1;
            }
            proof {
                assert(first_too_long_from(dv, f, t, ps as nat, 0) == dv.len());
            }
            let ghost target = Seq::new(dv.len(), |x: int| moved_record(dv[x], f, t, ps as nat));
            while newp.len() > 0
                invariant
                    newp@.len() <= self.dir_entries@.len() == dv.len(),
                    all_paths_len(self.dir_entries@, ps as nat),
                    target == Seq::new(dv.len(), |x: int| moved_record(dv[x], f, t, ps as nat)),
                    forall|x: int| 0 <= x < dv.len() ==> !(moved_path(
                        trim_nul(#[trigger] dv[x].0),
                        f,
                        t,
                    ) matches Some(np) && np.len() > ps),
                    ps == self.trailer.path_size,
                    forall|x: int|
                        0 <= x < newp@.len() ==> match #[trigger] newp@[x] {
                            Some(v) => moved_path(trim_nul(dv[x].0), f, t) matches Some(np)
                                && v@ == padded(np, ps as nat),
                            None => moved_path(trim_nul(dv[x].0), f, t) is None,
                        },
                    forall|x: int|
                        0 <= x < dv.len() ==> #[trigger] dir_view(self.dir_entries@)[x] == if x
                            < newp@.len() {
                            dv[x]
                        } else {
                            target[x]
                        },
                    self.trailer == old(self).trailer,
                    self.entry_rows == old(self).entry_rows,
                    self.data == old(self).data,
                    self.write_offset == old(self).write_offset,
                    self.dirty == old(self).dirty,
                decreases newp@.len(),
            {
                let ghost prev = newp@;
                let item = newp.pop();
                let x = newp.len();
                proof {
                    assert(item == Some(prev[x as int]));
                }
                let ghost before = self.dir_entries@;
                proof {
                    assert(dir_view(before)[x as int] == dv[x as int]);
                }
                match item {
                    Some(Some(v)) => {
                        let id = self.dir_entries[x].entry_id;
                        proof {
                            assert(id == dv[x as int].1);
                            let np = moved_path(trim_nul(dv[x as int].0), f, t)->0;
                            assert(np.len() <= ps);
                            assert(v@ == padded(np, ps as nat));
                            assert(target[x as int] == (v@, id));
                        }
                        self.dir_entries.set(x, DirRecord { path: v, entry_id: id });
                        proof {
                            assert forall|y: int| 0 <= y < dv.len() implies #[trigger] dir_view(
                                self.dir_entries@,
                            )[y] == if y < newp@.len() {
                                dv[y]
                            } else {
                                target[y]
                            } by {
                                if y != x {
                                    assert(dir_view(self.dir_entries@)[y] == dir_view(before)[y]);
                                }
                            }
                            assert forall|y: int| 0 <= y < self.dir_entries@.len() implies (
                            #[trigger] self.dir_entries@[y]).path@.len() == ps by {
                                if y != x {
                                    assert(self.dir_entries@[y] == before[y]);
                                }
                            }
                        }
                    },
                    _ => {
                        proof {
                            assert(target[x as int] == dv[x as int]);
                        }
                    },
                }
            }
        }
        let ghost mid = self.dir_entries@;
        self.dir_entries.set(source_pos, DirRecord { path: to_padded, entry_id });
        self.dirty = true;
        proof {
            if is_directory {
                let target = Seq::new(dv.len(), |x: int| moved_record(dv[x], f, t, ps as nat));
                assert(dir_view(mid) =~= target);
                assert(dir_view(self.dir_entries@) =~= target.update(
                    source_pos as int,
                    (to_padded@, entry_id),
                ));
            } else {
                assert(dir_view(self.dir_entries@) =~= dv.update(
                    source_pos as int,
                    (to_padded@, entry_id),
                ));
            }
        }
        Ok(())
    }
}


/// The trailer that `sync` writes: table offsets and counts for tables
/// written at `wo`, the archive size, the compacted flag, and the metadata
/// CRC over the file header, both tables and the first 60 trailer bytes.
pub open spec fn synced_trailer(
    t: Trailer,
    header: Seq<u8>,
    wo: nat,
    rows: Seq<EntryRow>,
    dirs: Seq<(Seq<u8>, u32)>,
) -> Trailer {
    let ps = t.path_size as nat;
    let dt = wo + 64 * rows.len();
    let end = dt + dirs.len() * (ps + 4);
    let t0 = Trailer {
        entry_table_offset: wo as u64,
        directory_table_offset: dt as u64,
        entry_count: rows.len() as u32,
        directory_entry_count: dirs.len() as u32,
        archive_size: (end + 64) as u64,
        flags: FLAG_COMPACTED,
        metadata_crc32c: 0,
        ..t
    };
    Trailer {
        metadata_crc32c: spec_crc_of(
            header + rows_bytes(rows) + dirs_bytes(dirs) + t0.spec_bytes().subrange(0, 60),
        ),
        ..t0
    }
}

impl Archive {
    /// Room to write the tables and the trailer.
    pub open spec fn room_for_tables(&self) -> bool {
        self.spec_write_offset() + 64 * self.spec_rows().len() + self.spec_dirs().len() * (
        self.spec_path_size() + 4) + 64 <= isize::MAX
    }

    /// `new` is what `sync` makes of `self`: the rows sorted by ID and the
    /// records by path (each a reordering), the bytes cut to the data region
    /// and followed by both tables and the new trailer.
    pub open spec fn synced_to(self, new: Archive) -> bool {
        let wo = self.spec_write_offset();
        &&& new.spec_rows().to_multiset() == self.spec_rows().to_multiset()
        &&& sorted_by(new.spec_rows(), id_le())
        &&& new.spec_dirs().to_multiset() == self.spec_dirs().to_multiset()
        &&& sorted_by(new.spec_dirs(), path_le())
        &&& new.spec_trailer() == synced_trailer(
            self.spec_trailer(),
            self.spec_bytes().take(FILE_HEADER_SIZE as int),
            wo,
            new.spec_rows(),
            new.spec_dirs(),
        )
        &&& new.spec_bytes() == self.spec_bytes().take(wo as int) + rows_bytes(new.spec_rows())
            + dirs_bytes(new.spec_dirs()) + new.spec_trailer().spec_bytes()
        &&& new.spec_write_offset() == wo
        &&& !new.spec_dirty()
    }

    /// Writes the tables and the trailer after the data region, when there
    /// are unsaved changes: the tables are sorted, written at the write
    /// offset, and the trailer records them with the metadata CRC.
    pub fn sync(&mut self) -> (r: Result<(), BaleError>)
        requires
            old(self).wf(),
            old(self).room_for_tables(),
        ensures
            r is Ok,
            final(self).wf(),
            !old(self).spec_dirty() ==> *final(self) == *old(self),
            old(self).spec_dirty() ==> old(self).synced_to(*final(self)),
    {
        if !self.dirty {
            return Ok(());
        }
        let ghost before = *self;
        let ps = self.trailer.path_size;
        sort_rows_by_id(&mut self.entry_rows);
        sort_dirs_by_path(&mut self.dir_entries, Ghost(ps as nat));
        proof {
            lemma_multiset_len(self.entry_rows@, before.entry_rows@);
            lemma_multiset_len(dir_view(self.dir_entries@), dir_view(before.dir_entries@));
            lemma_rows_bytes(self.entry_rows@);
            lemma_dirs_bytes(dir_view(self.dir_entries@), ps as nat);
        }
        self.data.truncate(self.write_offset);
        let et = self.data.len();
        write_rows(&mut self.data, &self.entry_rows);
        let dt = self.data.len();
        write_dirs(&mut self.data, &self.dir_entries);
        let end = self.data.len();
        self.trailer.set_compacted();
        self.trailer.entry_table_offset = et as u64;
        self.trailer.directory_table_offset = dt as u64;
        self.trailer.entry_count = #[verifier::truncate] (self.entry_rows.len() as u32);
        self.trailer.directory_entry_count = #[verifier::truncate] (self.dir_entries.len() as u32);
        self.trailer.set_archive_size(end as u64 + 64);
        self.trailer.set_metadata_crc(Crc::none());
        let ghost mid = self.data@;
        let ghost t0 = self.trailer;
        let crc = Trailer::compute_metadata_crc(
            &self.data.as_slice()[0..FILE_HEADER_SIZE],
            &self.data.as_slice()[et..dt],
            &self.data.as_slice()[dt..end],
            &self.trailer,
        );
        self.trailer.set_metadata_crc(crc);
        self.trailer.write_to(&mut self.data);
        self.dirty = false;
        proof {
            let wo = before.write_offset as int;
            let rb = rows_bytes(self.entry_rows@);
            let db = dirs_bytes(dir_view(self.dir_entries@));
            assert(mid.subrange(0, FILE_HEADER_SIZE as int) =~= before.data@.take(
                FILE_HEADER_SIZE as int,
            ));
            assert(mid.subrange(et as int, dt as int) =~= rb);
            assert(mid.subrange(dt as int, end as int) =~= db);
            assert(crc.0 == spec_crc_of(
                before.data@.take(FILE_HEADER_SIZE as int) + rb + db + t0.spec_bytes().subrange(
                    0,
                    60,
                ),
            ));
            lemma_trailer_fields(self.trailer);
            assert(self.trailer.spec_is_valid());
            let ns = *self;
            assert(ns.spec_rows().to_multiset() == before.spec_rows().to_multiset());
            assert(sorted_by(ns.spec_rows(), id_le()));
            assert(ns.spec_dirs().to_multiset() == before.spec_dirs().to_multiset());
            assert(sorted_by(ns.spec_dirs(), path_le()));
            let st = synced_trailer(
                before.spec_trailer(),
                before.spec_bytes().take(FILE_HEADER_SIZE as int),
                wo as nat,
                ns.spec_rows(),
                ns.spec_dirs(),
            );
            assert(ns.trailer.entry_table_offset == st.entry_table_offset);
            assert(ns.trailer.directory_table_offset == st.directory_table_offset);
            assert(ns.trailer.entry_count == st.entry_count);
            assert(ns.trailer.directory_entry_count == st.directory_entry_count);
            assert(ns.trailer.archive_size == st.archive_size);
            assert(ns.trailer.flags == st.flags);
            assert(ns.trailer.metadata_crc32c == st.metadata_crc32c);
            assert(ns.spec_trailer() == synced_trailer(
                before.spec_trailer(),
                before.spec_bytes().take(FILE_HEADER_SIZE as int),
                wo as nat,
                ns.spec_rows(),
                ns.spec_dirs(),
            ));
            assert(ns.spec_bytes() =~= before.spec_bytes().take(wo) + rows_bytes(ns.spec_rows())
                + dirs_bytes(ns.spec_dirs()) + ns.spec_trailer().spec_bytes());
        }
        Ok(())
    }
}

/// Two reorderings of each other have the same length.
pub(crate) proof fn lemma_multiset_len<A>(a: Seq<A>, b: Seq<A>)
    requires
        a.to_multiset() == b.to_multiset(),
    ensures
        a.len() == b.len(),
{
    a.to_multiset_ensures();
    b.to_multiset_ensures();
}


/// What opening the bytes `b` gives: an error, or the trailer (read from
/// the last 64 bytes) and the two tables it locates.
///
/// The archive must be at least 72 bytes, the trailer valid, the entry
/// table start after the file header, and both tables lie inside the
/// bytes; with CRC validation the stored metadata CRC must match.
pub open spec fn open_outcome(b: Seq<u8>, validate_crc: bool) -> Result<
    (Trailer, Seq<EntryRow>, Seq<(Seq<u8>, u32)>),
    BaleError,
> {
    let len = b.len();
    let t = Trailer::spec_parse_at(b, len - 64);
    let ps = t.path_size as nat;
    let et = t.entry_table_offset as nat;
    let dt = t.directory_table_offset as nat;
    let n = t.entry_count as nat;
    let m = t.directory_entry_count as nat;
    if len < 72 {
        Err(BaleError::TooSmall { size: len as u64, minimum: 72 })
    } else if !t.spec_is_valid() {
        Err(BaleError::Corrupted(Corruption::InvalidTrailer))
    } else if et < FILE_HEADER_SIZE || et + 64 * n > len || dt + m * (ps + 4) > len {
        Err(BaleError::Corrupted(Corruption::TableOutOfBounds))
    } else {
        let computed = computed_metadata_crc(b, t);
        if validate_crc && computed != t.metadata_crc32c {
            Err(
                BaleError::Corrupted(
                    Corruption::MetadataCrcMismatch { stored: t.metadata_crc32c, computed },
                ),
            )
        } else {
            Ok((t, parse_rows(b, et as int, n), parse_dirs(b, dt as int, m, ps)))
        }
    }
}

impl Archive {
    /// Opens an archive held in `bytes`: reads the trailer, checks the
    /// table bounds and (when asked) the metadata CRC, and loads both
    /// tables. New data blocks go where the entry table starts.
    pub fn open_with_options(bytes: Vec<u8>, options: OpenOptions) -> (r: Result<Archive, BaleError>)
        ensures
            match open_outcome(bytes@, options.validate_crc) {
                Err(e) => r == Err::<Archive, BaleError>(e),
                Ok((t, rows, dirs)) => r matches Ok(a) && a.wf() && a.spec_bytes() == bytes@
                    && a.spec_trailer() == t && a.spec_rows() == rows && a.spec_dirs() == dirs
                    && a.spec_write_offset() == t.entry_table_offset && !a.spec_dirty(),
            },
    {
        let len = bytes.len();
        if (len as u64) < Trailer::MIN_ARCHIVE_SIZE {
            return Err(BaleError::TooSmall { size: len as u64, minimum: Trailer::MIN_ARCHIVE_SIZE });
        }
        let trailer = Trailer::read_at(bytes.as_slice(), len - 64);
        if !trailer.is_valid() {
            return Err(BaleError::Corrupted(Corruption::InvalidTrailer));
        }
        let ps = trailer.path_size as usize;
        let et = trailer.entry_table_offset;
        let dt = trailer.directory_table_offset;
        let n = trailer.entry_count as u64;
        let m = trailer.directory_entry_count as u64;
        let len64 = len as u64;
        assert(m * (ps as u64 + 4) <= 0xffff_ffffu64 * 4100) by (nonlinear_arith)
            requires
                m <= 0xffff_ffffu64,
                ps <= 4096,
        ;
        if et < FILE_HEADER_SIZE as u64 || et > len64 || 64 * n > len64 - et || dt > len64 || m
            * (ps as u64 + 4) > len64 - dt {
            return Err(BaleError::Corrupted(Corruption::TableOutOfBounds));
        }
        let et = et as usize;
        let dt = dt as usize;
        let n = n as usize;
        let m = m as usize;
        if options.validate_crc {
            let mut zeroed = trailer;
            zeroed.set_metadata_crc(Crc::none());
            let computed = Trailer::compute_metadata_crc(
                &bytes.as_slice()[0..FILE_HEADER_SIZE],
                &bytes.as_slice()[et..et + 64 * n],
                &bytes.as_slice()[dt..dt + m * (ps + 4)],
                &zeroed,
            );
            if computed.0 != trailer.metadata_crc32c {
                return Err(
                    BaleError::Corrupted(
                        Corruption::MetadataCrcMismatch {
                            stored: trailer.metadata_crc32c,
                            computed: computed.0,
                        },
                    ),
                );
            }
        }
        let entry_rows = read_rows(bytes.as_slice(), et, n);
        let dir_entries = read_dirs(bytes.as_slice(), dt, m, ps);
        Ok(Archive { data: bytes, trailer, write_offset: et, dirty: false, entry_rows, dir_entries })
    }

    /// Opens an archive held in `bytes`, validating the metadata CRC.
    pub fn open(bytes: Vec<u8>) -> (r: Result<Archive, BaleError>)
        ensures
            match open_outcome(bytes@, true) {
                Err(e) => r == Err::<Archive, BaleError>(e),
                Ok((t, rows, dirs)) => r matches Ok(a) && a.wf() && a.spec_bytes() == bytes@
                    && a.spec_trailer() == t && a.spec_rows() == rows && a.spec_dirs() == dirs
                    && a.spec_write_offset() == t.entry_table_offset && !a.spec_dirty(),
            },
    {
        Archive::open_with_options(bytes, OpenOptions::default())
    }
}

/// Where `sync` puts things: the trailer in the last 64 bytes, the entry
/// table at the write offset, the directory table after it.
#[verifier::spinoff_prover]
#[verifier::rlimit(60)]
proof fn lemma_synced_layout(a: Archive, b: Archive)
    requires
        a.wf(),
        a.room_for_tables(),
        a.spec_rows().len() <= u32::MAX,
        a.spec_dirs().len() <= u32::MAX,
        a.synced_to(b),
    ensures
        ({
            let t = b.spec_trailer();
            let bytes = b.spec_bytes();
            let wo = a.spec_write_offset();
            let ps = t.path_size as nat;
            let dt = wo + 64 * b.spec_rows().len();
            let end = dt + b.spec_dirs().len() * (ps + 4);
            &&& bytes.len() == end + 64
            &&& Trailer::spec_parse_at(bytes, bytes.len() - 64) == t
            &&& t.spec_is_valid()
            &&& t.entry_table_offset == wo
            &&& t.entry_count == b.spec_rows().len()
            &&& t.directory_entry_count == b.spec_dirs().len()
            &&& t.directory_table_offset == dt
            &&& t.path_size == a.spec_path_size()
            &&& bytes.subrange(wo as int, dt as int) == rows_bytes(b.spec_rows())
            &&& bytes.subrange(dt as int, end as int) == dirs_bytes(b.spec_dirs())
            &&& parse_rows(bytes, wo as int, b.spec_rows().len()) == b.spec_rows()
            &&& parse_dirs(bytes, dt as int, b.spec_dirs().len(), ps) == b.spec_dirs()
            &&& bytes.take(FILE_HEADER_SIZE as int) == a.spec_bytes().take(FILE_HEADER_SIZE as int)
        }),
{
    let wo = a.spec_write_offset();
    let rows = b.spec_rows();
    let dirs = b.spec_dirs();
    let t = b.spec_trailer();
    let ps = t.path_size as nat;
    let rb = rows_bytes(rows);
    let db = dirs_bytes(dirs);
    let bytes = b.spec_bytes();
    lemma_multiset_len(rows, a.spec_rows());
    lemma_multiset_len(dirs, a.spec_dirs());
    lemma_rows_bytes(rows);
    assert forall|i: int| 0 <= i < dirs.len() implies (#[trigger] dirs[i]).0.len() == ps by {
        lemma_dir_paths_len(a, dirs, i);
    }
    lemma_dirs_bytes(dirs, ps);
    lemma_trailer_fields(t);
    let dt: int = (wo + 64 * rows.len()) as int;
    let end: int = dt + dirs.len() * (ps + 4);
    let pre = a.spec_bytes().take(wo as int);
    assert(bytes == pre + rb + db + t.spec_bytes());
    assert(bytes.subrange(end, end + 64) =~= t.spec_bytes());
    lemma_trailer_parse_of_bytes(bytes, end, t);
    assert(bytes.subrange(wo as int, dt) =~= rb);
    assert(bytes.subrange(dt, end) =~= db);
    lemma_parse_rows_of_bytes(bytes, wo as int, rows);
    lemma_parse_dirs_of_bytes(bytes, dt, dirs, ps);
    assert(bytes.take(FILE_HEADER_SIZE as int) =~= a.spec_bytes().take(FILE_HEADER_SIZE as int));
}

/// A synced archive is laid out as its trailer says: its length is the
/// trailer's archive size, it is marked compacted, its rows are sorted by
/// ID and its records by path, and the trailer counts both tables.
#[verifier::spinoff_prover]
#[verifier::rlimit(60)]
pub proof fn lemma_sync_layout(a: Archive, b: Archive)
    requires
        a.wf(),
        a.room_for_tables(),
        a.spec_rows().len() <= u32::MAX,
        a.spec_dirs().len() <= u32::MAX,
        a.synced_to(b),
    ensures
        b.spec_bytes().len() == b.spec_trailer().archive_size,
        b.spec_trailer().flags == FLAG_COMPACTED,
        sorted_by(b.spec_rows(), id_le()),
        sorted_by(b.spec_dirs(), path_le()),
        b.spec_trailer().entry_count == b.spec_rows().len(),
        b.spec_trailer().directory_entry_count == b.spec_dirs().len(),
{
    lemma_synced_layout(a, b);
    lemma_multiset_len(b.spec_rows(), a.spec_rows());
    lemma_multiset_len(b.spec_dirs(), a.spec_dirs());
    let wo = a.spec_write_offset();
    let ps = a.spec_path_size();
    let end = wo + 64 * b.spec_rows().len() + b.spec_dirs().len() * (ps + 4);
    assert(end + 64 <= isize::MAX);
    assert(b.spec_trailer().archive_size == (end + 64) as u64);
}

/// Syncing any well-formed archive gives bytes that reopen, with their
/// metadata CRC checked, as exactly the synced trailer and tables; the rows
/// come sorted by ID and the records by path, the archive is marked
/// compacted, the trailer counts both tables and its archive size is the
/// length of the bytes.
pub proof fn lemma_sync_reopens(a: Archive, b: Archive)
    requires
        a.wf(),
        a.room_for_tables(),
        a.spec_rows().len() <= u32::MAX,
        a.spec_dirs().len() <= u32::MAX,
        a.synced_to(b),
    ensures
        open_outcome(b.spec_bytes(), true) == Ok::<_, BaleError>(
            (b.spec_trailer(), b.spec_rows(), b.spec_dirs()),
        ),
        b.spec_bytes().len() == b.spec_trailer().archive_size,
        b.spec_trailer().flags == FLAG_COMPACTED,
        sorted_by(b.spec_rows(), id_le()),
        sorted_by(b.spec_dirs(), path_le()),
        b.spec_trailer().entry_count == a.spec_rows().len(),
        b.spec_trailer().directory_entry_count == a.spec_dirs().len(),
        !b.spec_dirty(),
{
    lemma_open_after_sync(a, b, true);
    lemma_sync_layout(a, b);
    lemma_multiset_len(b.spec_rows(), a.spec_rows());
    lemma_multiset_len(b.spec_dirs(), a.spec_dirs());
}

/// What `sync` writes reads back: opening the bytes of a synced archive,
/// with or without CRC validation, gives back its trailer and both of its
/// tables.
pub proof fn lemma_open_after_sync(a: Archive, b: Archive, validate_crc: bool)
    requires
        a.wf(),
        a.room_for_tables(),
        a.spec_rows().len() <= u32::MAX,
        a.spec_dirs().len() <= u32::MAX,
        a.synced_to(b),
    ensures
        open_outcome(b.spec_bytes(), validate_crc) == Ok::<_, BaleError>(
            (b.spec_trailer(), b.spec_rows(), b.spec_dirs()),
        ),
{
    lemma_synced_layout(a, b);
    lemma_multiset_len(b.spec_rows(), a.spec_rows());
    lemma_multiset_len(b.spec_dirs(), a.spec_dirs());
    let t = b.spec_trailer();
    let wo = a.spec_write_offset();
    let ps = t.path_size as nat;
    let dt = wo + 64 * b.spec_rows().len();
    let t0 = Trailer {
        entry_table_offset: wo as u64,
        directory_table_offset: dt as u64,
        entry_count: b.spec_rows().len() as u32,
        directory_entry_count: b.spec_dirs().len() as u32,
        archive_size: (dt + b.spec_dirs().len() * (ps + 4) + 64) as u64,
        flags: FLAG_COMPACTED,
        metadata_crc32c: 0,
        ..a.spec_trailer()
    };
    lemma_stored_crc_matches(
        b.spec_bytes(),
        t,
        a.spec_bytes().take(FILE_HEADER_SIZE as int),
        rows_bytes(b.spec_rows()),
        dirs_bytes(b.spec_dirs()),
        t0,
    );
}

/// Reordering the directory table keeps a path that occurs once: the
/// first record with that path in the reordered table is the same record.
proof fn lemma_first_dir_reordered(
    d1: Seq<(Seq<u8>, u32)>,
    d2: Seq<(Seq<u8>, u32)>,
    key: Seq<u8>,
    i0: int,
)
    requires
        d1.to_multiset() == d2.to_multiset(),
        0 <= i0 < d1.len(),
        d1[i0].0 == key,
        forall|j: int| 0 <= j < d1.len() && #[trigger] d1[j].0 == key ==> j == i0,
    ensures
        first_dir_from(d2, key, 0) < d2.len(),
        d2[first_dir_from(d2, key, 0)] == d1[i0],
{
    d1.to_multiset_ensures();
    d2.to_multiset_ensures();
    let rec = d1[i0];
    assert(d1.contains(rec));
    assert(d1.to_multiset().count(rec) > 0);
    assert(d2.to_multiset().count(rec) > 0);
    assert(d2.contains(rec));
    let j = choose|j: int| 0 <= j < d2.len() && d2[j] == rec;
    lemma_first_dir_bounds(d2, key, 0);
    let f = first_dir_from(d2, key, 0);
    assert(f <= j);
    assert(d2.contains(d2[f]));
    assert(d2.to_multiset().count(d2[f]) > 0);
    assert(d1.to_multiset().count(d2[f]) > 0);
    assert(d1.contains(d2[f]));
    let i1 = choose|i1: int| 0 <= i1 < d1.len() && d1[i1] == d2[f];
    assert(d1[i1].0 == key);
}

/// Reordering the entry table keeps an ID that occurs once: the first row
/// with that ID in the reordered table is the same row.
proof fn lemma_first_row_reordered(r1: Seq<EntryRow>, r2: Seq<EntryRow>, id: u32, i0: int)
    requires
        r1.to_multiset() == r2.to_multiset(),
        0 <= i0 < r1.len(),
        r1[i0].entry_id == id,
        forall|j: int| 0 <= j < r1.len() && #[trigger] r1[j].entry_id == id ==> j == i0,
    ensures
        first_row_from(r2, id, 0) < r2.len(),
        r2[first_row_from(r2, id, 0)] == r1[i0],
{
    r1.to_multiset_ensures();
    r2.to_multiset_ensures();
    let row = r1[i0];
    assert(r1.contains(row));
    assert(r1.to_multiset().count(row) > 0);
    assert(r2.to_multiset().count(row) > 0);
    assert(r2.contains(row));
    let j = choose|j: int| 0 <= j < r2.len() && r2[j] == row;
    lemma_first_row_bounds(r2, id, 0);
    let f = first_row_from(r2, id, 0);
    assert(f <= j);
    assert(r2.contains(r2[f]));
    assert(r2.to_multiset().count(r2[f]) > 0);
    assert(r1.to_multiset().count(r2[f]) > 0);
    assert(r1.contains(r2[f]));
    let i1 = choose|i1: int| 0 <= i1 < r1.len() && r1[i1] == r2[f];
    assert(r1[i1].entry_id == id);
}

/// After an entry is added under a path no record holds, with an ID no
/// row holds, its record is the only one with that path and its row the
/// only one with that ID.
proof fn lemma_added_unique(
    a: Archive,
    b: Archive,
    key: Seq<u8>,
    data: Seq<u8>,
    mode: u32,
    created: Option<i64>,
    modified: Option<i64>,
)
    requires
        a.entry_added(b, key, data, mode, created, modified),
        first_dir_from(a.spec_dirs(), padded(key, a.spec_path_size()), 0) == a.spec_dirs().len(),
        first_row_from(a.spec_rows(), a.spec_trailer().next_id, 0) == a.spec_rows().len(),
    ensures
        ({
            let k = padded(key, a.spec_path_size());
            let n = a.spec_dirs().len() as int;
            &&& b.spec_dirs()[n].0 == k
            &&& forall|j: int| 0 <= j < b.spec_dirs().len() && #[trigger] b.spec_dirs()[j].0 == k ==> j == n
        }),
        ({
            let id = a.spec_trailer().next_id;
            let m = a.spec_rows().len() as int;
            &&& b.spec_rows()[m].entry_id == id
            &&& forall|j: int| 0 <= j < b.spec_rows().len() && #[trigger] b.spec_rows()[j].entry_id == id ==> j == m
        }),
{
    let k = padded(key, a.spec_path_size());
    let id = a.spec_trailer().next_id;
    let n = a.spec_dirs().len() as int;
    let m = a.spec_rows().len() as int;
    lemma_first_dir_bounds(a.spec_dirs(), k, 0);
    lemma_first_row_bounds(a.spec_rows(), id, 0);
    assert forall|j: int| 0 <= j < b.spec_dirs().len() && #[trigger] b.spec_dirs()[j].0 == k implies j == n by {
        if j < n {
            assert(a.spec_dirs()[j] == b.spec_dirs()[j]);
        }
    }
    assert(b.spec_rows() =~= a.spec_rows().push(b.spec_rows().last()));
    assert forall|j: int| 0 <= j < b.spec_rows().len() && #[trigger] b.spec_rows()[j].entry_id == id implies j == m by {
        if j < m {
            assert(a.spec_rows()[j] == b.spec_rows()[j]);
        }
    }
}

/// Syncing keeps the data region, so the new entry's block reads the same
/// in the synced archive.
proof fn lemma_synced_block(
    a: Archive,
    b: Archive,
    c: Archive,
    data: Seq<u8>,
    mode: u32,
    created: Option<i64>,
    modified: Option<i64>,
    key: Seq<u8>,
)
    requires
        a.wf(),
        a.entry_added(b, key, data, mode, created, modified),
        read_block(b.spec_bytes(), b.spec_rows().last()) == Some(data),
        b.synced_to(c),
        c.spec_bytes().len() >= b.spec_write_offset(),
    ensures
        read_block(c.spec_bytes(), b.spec_rows().last()) == Some(data),
{
    let row = b.spec_rows().last();
    if data.len() > 0 {
        a.lemma_alignment_bounds();
        let off = a.block_offset(data.len());
        let wo = b.spec_write_offset();
        assert(row.data_offset + row.block_size == wo);
        assert(c.spec_bytes().subrange(off as int, wo as int) =~= b.spec_bytes().subrange(
            off as int,
            wo as int,
        ));
    }
}

/// After deleting a path, no directory record holds it.
pub proof fn lemma_deleted_gone(a: Archive, b: Archive, path: Seq<u8>)
    requires
        a.deleted(b, path),
    ensures
        !has_key(b.spec_dirs(), b.key_of(path)),
{
    let key = a.key_of(path);
    if has_key(a.spec_dirs(), key) {
        let f = a.spec_dirs().filter(|d: (Seq<u8>, u32)| d.0 != key);
        assert(b.spec_path_size() == a.spec_path_size());
        a.spec_dirs().filter_lemma(|d: (Seq<u8>, u32)| d.0 != key);
        if has_key(f, key) {
            let k = choose|k: int| 0 <= k < f.len() && f[k].0 == key;
            assert(f[k].0 != key);
        }
    }
}

/// A saved write is read back: after an entry is added under a path that
/// no directory record holds, with an ID that no row holds, and the
/// archive is synced, opening the synced bytes gives back its tables, and
/// looking the path up there finds the new row, whose data block reads
/// back as the data that was written.
pub proof fn lemma_saved_entry_found(
    a: Archive,
    b: Archive,
    c: Archive,
    key: Seq<u8>,
    data: Seq<u8>,
    mode: u32,
    created: Option<i64>,
    modified: Option<i64>,
)
    requires
        a.wf(),
        b.wf(),
        key.len() <= a.spec_path_size(),
        a.entry_added(b, key, data, mode, created, modified),
        first_dir_from(a.spec_dirs(), padded(key, a.spec_path_size()), 0) == a.spec_dirs().len(),
        first_row_from(a.spec_rows(), a.spec_trailer().next_id, 0) == a.spec_rows().len(),
        b.room_for_tables(),
        b.spec_rows().len() <= u32::MAX,
        b.spec_dirs().len() <= u32::MAX,
        b.synced_to(c),
    ensures
        open_outcome(c.spec_bytes(), true) == Ok::<_, BaleError>(
            (c.spec_trailer(), c.spec_rows(), c.spec_dirs()),
        ),
        c.spec_lookup(key) == Some(
            (
                b.spec_rows().last(),
                trim_nul(padded(key, a.spec_path_size())),
                a.spec_trailer().next_id,
            ),
        ),
        read_block(c.spec_bytes(), b.spec_rows().last()) == Some(data),
{
    let ps = a.spec_path_size();
    let k = padded(key, ps);
    let id = a.spec_trailer().next_id;
    lemma_added_entry_found(a, b, key, data, mode, created, modified);
    lemma_open_after_sync(b, c, true);
    assert(search_key(key, ps) =~= k);
    lemma_added_unique(a, b, key, data, mode, created, modified);
    lemma_first_dir_reordered(b.spec_dirs(), c.spec_dirs(), k, a.spec_dirs().len() as int);
    lemma_first_row_reordered(b.spec_rows(), c.spec_rows(), id, a.spec_rows().len() as int);
    lemma_synced_block(a, b, c, data, mode, created, modified, key);
}

proof fn lemma_stored_crc_matches(
    bytes: Seq<u8>,
    t: Trailer,
    header: Seq<u8>,
    rb: Seq<u8>,
    db: Seq<u8>,
    t0: Trailer,
)
    requires
        bytes.take(FILE_HEADER_SIZE as int) == header,
        bytes.subrange(
            t.entry_table_offset as int,
            (t.entry_table_offset + 64 * t.entry_count) as int,
        ) == rb,
        bytes.subrange(
            t.directory_table_offset as int,
            (t.directory_table_offset + t.directory_entry_count * (t.path_size + 4)) as int,
        ) == db,
        (Trailer { metadata_crc32c: 0, ..t }) == t0,
        t.metadata_crc32c == spec_crc_of(header + rb + db + t0.spec_bytes().subrange(0, 60)),
    ensures
        computed_metadata_crc(bytes, t) == t.metadata_crc32c,
{
}

/// Each directory record of a reordering of `a`'s table has the path size.
proof fn lemma_dir_paths_len(a: Archive, dirs: Seq<(Seq<u8>, u32)>, i: int)
    requires
        a.wf(),
        dirs.to_multiset() == a.spec_dirs().to_multiset(),
        0 <= i < dirs.len(),
    ensures
        dirs[i].0.len() == a.spec_path_size(),
{
    dirs.to_multiset_ensures();
    a.spec_dirs().to_multiset_ensures();
    assert(dirs.contains(dirs[i]));
    assert(dirs.to_multiset().count(dirs[i]) > 0);
    assert(a.spec_dirs().to_multiset().count(dirs[i]) > 0);
    assert(a.spec_dirs().contains(dirs[i]));
    let k = choose|k: int| 0 <= k < a.spec_dirs().len() && a.spec_dirs()[k] == dirs[i];
    a.lemma_dir_len(k);
}

impl Archive {
    proof fn lemma_dir_len(&self, k: int)
        requires
            self.wf(),
            0 <= k < self.spec_dirs().len(),
        ensures
            self.spec_dirs()[k].0.len() == self.spec_path_size(),
    {
        assert(self.dir_entries@[k].path@.len() == self.trailer.path_size);
    }
}


/// The metadata CRC of the bytes `b` under trailer `t`: the CRC of the file
/// header, the entry and directory tables `t` locates, and the first 60
/// bytes of `t` with its CRC field zeroed.
pub open spec fn computed_metadata_crc(b: Seq<u8>, t: Trailer) -> u32 {
    let ps = t.path_size as nat;
    let et = t.entry_table_offset as nat;
    let dt = t.directory_table_offset as nat;
    let n = t.entry_count as nat;
    let m = t.directory_entry_count as nat;
    spec_crc_of(
        b.take(FILE_HEADER_SIZE as int) + b.subrange(et as int, (et + 64 * n) as int) + b.subrange(
            dt as int,
            (dt + m * (ps + 4)) as int,
        ) + (Trailer { metadata_crc32c: 0, ..t }).spec_bytes().subrange(0, 60),
    )
}

/// Whether both tables that `t` locates lie inside `b`.
pub open spec fn tables_in_bounds(b: Seq<u8>, t: Trailer) -> bool {
    &&& t.entry_table_offset + 64 * t.entry_count <= b.len()
    &&& t.directory_table_offset + t.directory_entry_count * (t.path_size + 4) <= b.len()
}

/// The entries as listed: for each directory record in order whose ID has
/// a row, that row and the record's padded path.
pub open spec fn listed(rows: Seq<EntryRow>, dirs: Seq<(Seq<u8>, u32)>) -> Seq<(EntryRow, Seq<u8>)>
    decreases dirs.len(),
{
    if dirs.len() == 0 {
        Seq::empty()
    } else {
        let rest = listed(rows, dirs.drop_last());
        let d = dirs.last();
        let j = first_row_from(rows, d.1, 0);
        if j < rows.len() {
            rest.push((rows[j], d.0))
        } else {
            rest
        }
    }
}

/// Whether record `i` repeats the path of record `i - 1`, for the first
/// time among such repeats of that path.
pub open spec fn first_repeat(dirs: Seq<(Seq<u8>, u32)>, i: int) -> bool {
    &&& 1 <= i < dirs.len()
    &&& dirs[i - 1].0 == dirs[i].0
    &&& forall|j: int| 1 <= j < i && dirs[j - 1].0 == #[trigger] dirs[j].0 ==> dirs[j].0 != dirs[i].0
}

/// Whether record `j` repeats the previous record's path, which is `p`.
pub open spec fn repeat_at(dirs: Seq<(Seq<u8>, u32)>, j: int, p: Seq<u8>) -> bool {
    1 <= j < dirs.len() && dirs[j - 1].0 == dirs[j].0 && dirs[j].0 == p
}

/// The duplicate paths among the first `i` records, each once, in order of
/// first repeat.
pub open spec fn duplicates_upto(dirs: Seq<(Seq<u8>, u32)>, i: int) -> Seq<Seq<u8>>
    decreases i,
{
    if i <= 1 {
        Seq::empty()
    } else if first_repeat(dirs, i - 1) {
        duplicates_upto(dirs, i - 1).push(trim_nul(dirs[i - 1].0))
    } else {
        duplicates_upto(dirs, i - 1)
    }
}

/// Walks the data region from `offset` in steps of blocks: true when an
/// aligned offset before `end` starts no entry's block.
pub open spec fn orphan_walk(rows: Seq<EntryRow>, a: int, end: int, offset: int) -> bool
    decreases max0(end - offset),
    when a > 0
{
    if offset >= end {
        false
    } else {
        let j = first_offset_from(rows, offset, 0);
        if j >= rows.len() {
            true
        } else {
            let bs = rows[j].block_size as int;
            let next = if bs > 0 {
                align_up(offset + bs, a)
            } else {
                offset + a
            };
            proof {
                assert(0 <= (a - (offset + bs) % a) % a) by (nonlinear_arith)
                    requires
                        a > 0,
                ;
            }
            orphan_walk(rows, a, end, next)
        }
    }
}

/// Whether row `r`'s data block starts at or covers offset `o` (an empty
/// block counts as covering its start).
pub open spec fn block_covers(r: EntryRow, o: int) -> bool {
    &&& r.data_offset != 0
    &&& r.data_offset <= o
    &&& o < r.data_offset + (if r.block_size > 0 {
        r.block_size as int
    } else {
        1
    })
}

/// Whether offset `o` is a gap in the data region of an archive with
/// alignment `a` whose data ends at `end`: an aligned offset at or after
/// the first aligned offset past the file header and before `end` that no
/// row's block starts at or covers.
pub open spec fn data_gap(rows: Seq<EntryRow>, a: int, end: int, o: int) -> bool {
    &&& o % a == 0
    &&& align_up(FILE_HEADER_SIZE as int, a) <= o < end
    &&& forall|k: int| 0 <= k < rows.len() ==> !block_covers(#[trigger] rows[k], o)
}

/// Whether no row's block starts at offset `o`.
pub open spec fn starts_no_block(rows: Seq<EntryRow>, o: int) -> bool {
    forall|k: int| 0 <= k < rows.len() ==> (#[trigger] rows[k]).data_offset != o
}

/// Rounding up to a multiple of `a` gives a multiple of `a` at or above
/// `x`, and no multiple of `a` at or above `x` lies below it.
proof fn lemma_align_up_least(x: int, a: int, m: int)
    requires
        a > 0,
        x >= 0,
    ensures
        align_up(x, a) % a == 0,
        align_up(x, a) >= x,
        m % a == 0 && m >= x ==> m >= align_up(x, a),
{
    let r = x % a;
    let q = x / a;
    assert(0 <= r < a && x == a * q + r) by (nonlinear_arith)
        requires
            a > 0,
            r == x % a,
            q == x / a,
    ;
    if r == 0 {
        assert((a - r) % a == 0) by (nonlinear_arith)
            requires
                a > 0,
                r == 0,
        ;
        assert(align_up(x, a) == x);
    } else {
        assert((a - r) % a == a - r) by (nonlinear_arith)
            requires
                a > 0,
                0 < r < a,
        ;
        assert(align_up(x, a) == a * (q + 1)) by (nonlinear_arith)
            requires
                x == a * q + r,
                align_up(x, a) == x + (a - r),
        ;
        assert((a * (q + 1)) % a == 0) by (nonlinear_arith)
            requires
                a > 0,
        ;
        if m % a == 0 && m >= x {
            let p = m / a;
            assert(m == a * p) by (nonlinear_arith)
                requires
                    a > 0,
                    m % a == 0,
                    p == m / a,
            ;
            assert(m >= a * (q + 1)) by (nonlinear_arith)
                requires
                    a > 0,
                    m == a * p,
                    m >= a * q + r,
                    0 < r < a,
            ;
        }
    }
}

/// Two distinct multiples of `a` lie at least `a` apart.
proof fn lemma_multiples_apart(x: int, y: int, a: int)
    requires
        a > 0,
        x % a == 0,
        y % a == 0,
        x < y,
    ensures
        y >= x + a,
{
    let p = x / a;
    let q = y / a;
    assert(x == a * p && y == a * q) by (nonlinear_arith)
        requires
            a > 0,
            x % a == 0,
            y % a == 0,
            p == x / a,
            q == y / a,
    ;
    assert(y >= x + a) by (nonlinear_arith)
        requires
            a > 0,
            x == a * p,
            y == a * q,
            x < y,
    ;
}

/// The walk from an aligned offset at or before gap `o` reports an orphan:
/// it either stops at `o` or at an earlier offset no block starts at, and
/// it cannot step over `o`, since every offset it steps over lies inside a
/// block.
proof fn lemma_walk_reaches_gap(rows: Seq<EntryRow>, a: int, end: int, off: int, o: int)
    requires
        a > 0,
        off >= 0,
        off % a == 0,
        o % a == 0,
        off <= o < end,
        forall|k: int| 0 <= k < rows.len() ==> !block_covers(#[trigger] rows[k], o),
    ensures
        orphan_walk(rows, a, end, off),
    decreases end - off,
{
    lemma_first_offset_bounds(rows, off, 0);
    let j = first_offset_from(rows, off, 0);
    if j < rows.len() {
        if off == o {
            assert(block_covers(rows[j], o));
        }
        let bs = rows[j].block_size as int;
        if bs > 0 {
            let next = align_up(off + bs, a);
            lemma_align_up_least(off + bs, a, o);
            if o < next {
                assert(o < off + bs);
                assert(block_covers(rows[j], o));
            }
            lemma_walk_reaches_gap(rows, a, end, next, o);
        } else {
            lemma_multiples_apart(off, o, a);
            assert((off + a) % a == 0) by (nonlinear_arith)
                requires
                    a > 0,
                    off % a == 0,
            ;
            lemma_walk_reaches_gap(rows, a, end, off + a, o);
        }
    }
}

/// A walk that reports an orphan from an aligned, positive offset stopped
/// at an aligned offset before `end` that no row's block starts at.
proof fn lemma_walk_finds_unstarted(rows: Seq<EntryRow>, a: int, end: int, off: int)
    requires
        a > 0,
        off > 0,
        off % a == 0,
        orphan_walk(rows, a, end, off),
    ensures
        exists|o: int| o % a == 0 && off <= o < end && #[trigger] starts_no_block(rows, o),
    decreases max0(end - off),
{
    assert(off < end);
    lemma_first_offset_bounds(rows, off, 0);
    let j = first_offset_from(rows, off, 0);
    if j >= rows.len() {
        assert(starts_no_block(rows, off));
    } else {
        let bs = rows[j].block_size as int;
        if bs > 0 {
            let next = align_up(off + bs, a);
            lemma_align_up_least(off + bs, a, next);
            lemma_walk_finds_unstarted(rows, a, end, next);
        } else {
            assert((off + a) % a == 0) by (nonlinear_arith)
                requires
                    a > 0,
                    off % a == 0,
            ;
            lemma_walk_finds_unstarted(rows, a, end, off + a);
        }
    }
}

/// Orphaned data, both ways: every aligned offset of the data region that
/// no entry's block starts at or covers makes the walk report orphaned
/// data; and when it reports orphaned data, some aligned offset of the data
/// region starts no entry's block. With no data region, nothing is
/// orphaned.
pub proof fn lemma_orphaned_data(rows: Seq<EntryRow>, a: int, end: int)
    requires
        a > 0,
    ensures
        forall|o: int| #[trigger] data_gap(rows, a, end, o) ==> orphan_walk(
            rows,
            a,
            end,
            align_up(FILE_HEADER_SIZE as int, a),
        ),
        orphan_walk(rows, a, end, align_up(FILE_HEADER_SIZE as int, a)) ==> exists|o: int|
            o % a == 0 && align_up(FILE_HEADER_SIZE as int, a) <= o < end && #[trigger] starts_no_block(
                rows,
                o,
            ),
        end <= align_up(FILE_HEADER_SIZE as int, a) ==> !orphan_walk(
            rows,
            a,
            end,
            align_up(FILE_HEADER_SIZE as int, a),
        ),
{
    let s = align_up(FILE_HEADER_SIZE as int, a);
    lemma_align_up_least(FILE_HEADER_SIZE as int, a, s);
    assert forall|o: int| #[trigger] data_gap(rows, a, end, o) implies orphan_walk(rows, a, end, s) by {
        lemma_walk_reaches_gap(rows, a, end, s, o);
    }
    if orphan_walk(rows, a, end, s) {
        lemma_walk_finds_unstarted(rows, a, end, s);
    }
}

/// `x`, or 0 when it is negative.
pub open spec fn max0(x: int) -> int {
    if x > 0 {
        x
    } else {
        0
    }
}

/// Index of the first row at or after `i` whose block starts at `offset`.
pub open spec fn first_offset_from(rows: Seq<EntryRow>, offset: int, i: int) -> int
    decreases rows.len() - i,
{
    if i >= rows.len() {
        rows.len() as int
    } else if rows[i].data_offset == offset && offset != 0 {
        i
    } else {
        first_offset_from(rows, offset, i + 1)
    }
}

/// What `make_entry` gives for a row: the stored content (data for a
/// file, target for a symlink, nothing for a directory), or an error for a
/// block out of bounds or an unknown kind.
pub open spec fn entry_content(bytes: Seq<u8>, row: EntryRow) -> Result<Seq<u8>, BaleError> {
    match spec_kind_of_mode(row.mode) {
        EntryKind::Directory => Ok(Seq::empty()),
        EntryKind::Other(_) => Err(BaleError::Corrupted(Corruption::UnknownEntryKind(row.mode))),
        _ => match read_block(bytes, row) {
            None => Err(BaleError::Corrupted(Corruption::DataOutOfBounds)),
            Some(d) => Ok(d),
        },
    }
}

/// Whether `e` is the entry of kind `spec_kind_of_mode(row.mode)` with the
/// given row, path, ID and content.
pub open spec fn entry_is(e: Entry, row: EntryRow, path: Seq<u8>, id: u32, content: Seq<u8>) -> bool {
    match e {
        Entry::File(f) => spec_kind_of_mode(row.mode) == EntryKind::File && *f.entry == row
            && f.path@ == path && f.id == id && f.data@ == content,
        Entry::Directory(d) => spec_kind_of_mode(row.mode) == EntryKind::Directory && *d.entry
            == row && d.path@ == path && d.id == id,
        Entry::Symlink(l) => spec_kind_of_mode(row.mode) == EntryKind::Symlink && *l.entry == row
            && l.path@ == path && l.id == id && l.target@ == content,
    }
}

proof fn lemma_first_offset_bounds(rows: Seq<EntryRow>, offset: int, i: int)
    requires
        0 <= i <= rows.len(),
    ensures
        i <= first_offset_from(rows, offset, i) <= rows.len(),
        first_offset_from(rows, offset, i) < rows.len() ==> rows[first_offset_from(
            rows,
            offset,
            i,
        )].data_offset == offset && offset != 0,
        forall|k: int|
            i <= k < first_offset_from(rows, offset, i) ==> !(rows[k].data_offset == offset
                && offset != 0),
    decreases rows.len() - i,
{
    if i < rows.len() && !(rows[i].data_offset == offset && offset != 0) {
        lemma_first_offset_bounds(rows, offset, i + 1);
    }
}

impl Archive {
    /// The number of entry rows.
    pub fn entry_count(&self) -> (n: usize)
        ensures
            n == self.spec_rows().len(),
    {
        self.entry_rows.len()
    }

    /// The archive's path size.
    pub fn path_size(&self) -> (n: usize)
        ensures
            n == self.spec_path_size(),
    {
        self.trailer.path_size as usize
    }

    /// The archive's data alignment in bytes.
    pub fn alignment(&self) -> (r: Result<u32, BaleError>)
        requires
            self.wf(),
        ensures
            r == Ok::<u32, BaleError>(self.spec_alignment() as u32),
    {
        self.trailer.alignment()
    }

    /// The archive's trailer.
    pub fn trailer(&self) -> (t: &Trailer)
        ensures
            *t == self.spec_trailer(),
    {
        &self.trailer
    }

    /// The path of directory record `index`, without padding.
    pub fn get_path(&self, index: usize) -> (r: Option<ArchivePath>)
        ensures
            index < self.spec_dirs().len() ==> (r matches Some(p) && p@ == trim_nul(
                self.spec_dirs()[index as int].0,
            )),
            index >= self.spec_dirs().len() ==> r is None,
    {
        if index >= self.dir_entries.len() {
            return None;
        }
        Some(ArchivePath::from_null_padded_bytes(self.dir_entries[index].path.as_slice()))
    }

    /// The entries in directory-table order: each record whose ID has a
    /// row, as that row and the record's padded path.
    pub fn entries(&self) -> (r: Vec<(&EntryRow, &[u8])>)
        ensures
            r@.len() == listed(self.spec_rows(), self.spec_dirs()).len(),
            forall|i: int|
                0 <= i < r@.len() ==> *(#[trigger] r@[i]).0 == listed(
                    self.spec_rows(),
                    self.spec_dirs(),
                )[i].0 && r@[i].1@ == listed(self.spec_rows(), self.spec_dirs())[i].1,
    {
        let ghost dv = self.spec_dirs();
        let mut out: Vec<(&EntryRow, &[u8])> = Vec::new();
        let mut i: usize = 0;
        while i < self.dir_entries.len()
            invariant
                i <= self.dir_entries@.len(),
                dv == dir_view(self.dir_entries@),
                out@.len() == listed(self.spec_rows(), dv.take(i as int)).len(),
                forall|k: int|
                    0 <= k < out@.len() ==> *(#[trigger] out@[k]).0 == listed(
                        self.spec_rows(),
                        dv.take(i as int),
                    )[k].0 && out@[k].1@ == listed(self.spec_rows(), dv.take(i as int))[k].1,
            decreases self.dir_entries@.len() - i,
        {
            let id = self.dir_entries[i].entry_id;
            let j = self.row_position(id);
            proof {
                lemma_first_row_bounds(self.spec_rows(), id, 0);
                assert(dv.take(i + 1).drop_last() =~= dv.take(i as int));
                assert(dv.take(i + 1).last() == dv[i as int]);
            }
            if j < self.entry_rows.len() {
                out.push((&self.entry_rows[j], self.dir_entries[i].path.as_slice()));
            }
            i = i + 1;
        }
        proof {
            assert(dv.take(i as int) =~= dv);
        }
        out
    }

    /// Checks an entry's data against its stored CRC-32C: no CRC stored is
    /// success; a block out of bounds or a different CRC is corruption.
    pub fn verify_crc(&self, entry: &EntryRow) -> (r: Result<(), BaleError>)
        ensures
            entry.crc32c == 0 ==> r is Ok,
            entry.crc32c != 0 ==> match read_block(self.spec_bytes(), *entry) {
                None => r == Err::<(), BaleError>(
                    BaleError::Corrupted(Corruption::DataOutOfBounds),
                ),
                Some(d) => if spec_crc_of(d) == entry.crc32c {
                    r is Ok
                } else {
                    r == Err::<(), BaleError>(
                        BaleError::Corrupted(
                            Corruption::EntryCrcMismatch {
                                stored: entry.crc32c,
                                computed: spec_crc_of(d),
                            },
                        ),
                    )
                },
            },
    {
        let stored = match entry.crc().get() {
            None => return Ok(()),
            Some(c) => c,
        };
        let data = match self.read_data(entry) {
            Ok(d) => d,
            Err(e) => return Err(e),
        };
        let computed = Crc::compute(data);
        if stored != computed.to_u32() {
            return Err(
                BaleError::Corrupted(
                    Corruption::EntryCrcMismatch { stored, computed: computed.to_u32() },
                ),
            );
        }
        Ok(())
    }

    /// Recomputes the metadata CRC-32C over the bytes and compares it with
    /// the trailer's.
    pub fn verify_metadata_crc(&self) -> (r: Result<(), BaleError>)
        requires
            self.wf(),
        ensures
            !tables_in_bounds(self.spec_bytes(), self.spec_trailer()) ==> r == Err::<
                (),
                BaleError,
            >(BaleError::Corrupted(Corruption::TableOutOfBounds)),
            tables_in_bounds(self.spec_bytes(), self.spec_trailer()) ==> if computed_metadata_crc(
                self.spec_bytes(),
                self.spec_trailer(),
            ) == self.spec_trailer().metadata_crc32c {
                r is Ok
            } else {
                r == Err::<(), BaleError>(
                    BaleError::Corrupted(
                        Corruption::MetadataCrcMismatch {
                            stored: self.spec_trailer().metadata_crc32c,
                            computed: computed_metadata_crc(
                                self.spec_bytes(),
                                self.spec_trailer(),
                            ),
                        },
                    ),
                )
            },
    {
        let t = &self.trailer;
        let len = self.data.len() as u64;
        let ps = t.path_size as u64;
        let et = t.entry_table_offset;
        let dt = t.directory_table_offset;
        let n = t.entry_count as u64;
        let m = t.directory_entry_count as u64;
        assert(m * (ps + 4) <= 0xffff_ffffu64 * 65540) by (nonlinear_arith)
            requires
                m <= 0xffff_ffffu64,
                ps <= 0xffffu64,
        ;
        if et > len || 64 * n > len - et || dt > len || m * (ps + 4) > len - dt {
            return Err(BaleError::Corrupted(Corruption::TableOutOfBounds));
        }
        let et = et as usize;
        let dt = dt as usize;
        let n = n as usize;
        let m = m as usize;
        let ps = ps as usize;
        let hdr_end = FILE_HEADER_SIZE;
        let mut zeroed = self.trailer;
        zeroed.set_metadata_crc(Crc::none());
        let computed = Trailer::compute_metadata_crc(
            &self.data.as_slice()[0..hdr_end],
            &self.data.as_slice()[et..et + 64 * n],
            &self.data.as_slice()[dt..dt + m * (ps + 4)],
            &zeroed,
        );
        proof {
            assert(self.data@.subrange(0, hdr_end as int) =~= self.data@.take(
                FILE_HEADER_SIZE as int,
            ));
        }
        if computed.0 != self.trailer.metadata_crc32c {
            return Err(
                BaleError::Corrupted(
                    Corruption::MetadataCrcMismatch {
                        stored: self.trailer.metadata_crc32c,
                        computed: computed.0,
                    },
                ),
            );
        }
        Ok(())
    }

    /// Whether the directory table is in path order, each record's path at
    /// or after the previous one's.
    pub fn is_sorted(&self) -> (b: bool)
        ensures
            b == adjacent_sorted(self.spec_dirs()),
    {
        let ghost dv = self.spec_dirs();
        let mut i: usize = 1;
        while i < self.dir_entries.len()
            invariant
                1 <= i,
                dv == dir_view(self.dir_entries@),
                forall|k: int| 1 <= k < i && k < dv.len() ==> lex_le(dv[k - 1].0, #[trigger] dv[k].0),
            decreases self.dir_entries@.len() - i,
        {
            if !bytes_le(self.dir_entries[i - 1].path.as_slice(), self.dir_entries[i].path.as_slice()) {
                proof {
                    assert(dv[i - 1].0 == self.dir_entries@[i - 1].path@);
                    assert(dv[i as int].0 == self.dir_entries@[i as int].path@);
                    assert(!lex_le(dv[i - 1].0, dv[i as int].0));
                    assert(!adjacent_sorted(dv));
                }
                return false;
            }
            i = i + 1;
        }
        true
    }

    /// The paths that occur in two consecutive directory records, each
    /// once, in order of first repeat.
    pub fn find_duplicates(&self) -> (r: Vec<ArchivePath>)
        ensures
            r@.len() == duplicates_upto(self.spec_dirs(), self.spec_dirs().len() as int).len(),
            forall|k: int|
                0 <= k < r@.len() ==> (#[trigger] r@[k])@ == duplicates_upto(
                    self.spec_dirs(),
                    self.spec_dirs().len() as int,
                )[k],
    {
        let ghost dv = self.spec_dirs();
        let mut out: Vec<ArchivePath> = Vec::new();
        let mut seen: Vec<&[u8]> = Vec::new();
        let mut i: usize = 1;
        if self.dir_entries.len() == 0 {
            return out;
        }
        while i < self.dir_entries.len()
            invariant
                1 <= i <= self.dir_entries@.len(),
                dv == dir_view(self.dir_entries@),
                out@.len() == duplicates_upto(dv, i as int).len(),
                forall|k: int|
                    0 <= k < out@.len() ==> (#[trigger] out@[k])@ == duplicates_upto(dv, i as int)[k],
                forall|p: Seq<u8>|
                    #![trigger in_seen(seen@, p)]
                    #![trigger repeated_before(dv, i as int, p)]
                    in_seen(seen@, p) == repeated_before(dv, i as int, p),
            decreases self.dir_entries@.len() - i,
        {
            let prev = self.dir_entries[i - 1].path.as_slice();
            let cur = self.dir_entries[i].path.as_slice();
            proof {
                assert(dv[i - 1].0 == prev@ && dv[i as int].0 == cur@);
            }
            if bytes_equal(prev, cur) {
                let mut found = false;
                let mut k: usize = 0;
                while k < seen.len()
                    invariant
                        k <= seen@.len(),
                        found == exists|x: int| 0 <= x < k && (#[trigger] seen@[x])@ == cur@,
                    decreases seen@.len() - k,
                {
                    if bytes_equal(seen[k], cur) {
                        found = true;
                    }
                    k = k + 1;
                }
                proof {
                    assert(found == in_seen(seen@, cur@));
                    assert(repeat_at(dv, i as int, cur@));
                    lemma_first_repeat_iff(dv, i as int);
                }
                if !found {
                    let ghost old_seen = seen@;
                    seen.push(cur);
                    out.push(ArchivePath::from_null_padded_bytes(cur));
                    proof {
                        assert forall|p: Seq<u8>|
                            #![trigger in_seen(seen@, p)]
                            #![trigger repeated_before(dv, i + 1, p)]
                            in_seen(seen@, p) == repeated_before(dv, i + 1, p) by {
                            lemma_repeated_step(dv, i as int, p);
                            if in_seen(seen@, p) {
                                let x = choose|x: int| 0 <= x < seen@.len() && (#[trigger] seen@[x])@ == p;
                                if x < old_seen.len() {
                                    assert(old_seen[x]@ == p);
                                    assert(in_seen(old_seen, p));
                                }
                            }
                            if in_seen(old_seen, p) {
                                let x = choose|x: int| 0 <= x < old_seen.len() && (#[trigger] old_seen[x])@ == p;
                                assert(seen@[x]@ == p);
                            }
                            assert(seen@[old_seen.len() as int]@ == cur@);
                        }
                    }
                } else {
                    proof {
                        assert forall|p: Seq<u8>|
                            #![trigger in_seen(seen@, p)]
                            #![trigger repeated_before(dv, i + 1, p)]
                            in_seen(seen@, p) == repeated_before(dv, i + 1, p) by {
                            lemma_repeated_step(dv, i as int, p);
                        }
                    }
                }
            } else {
                proof {
                    assert(!first_repeat(dv, i as int));
                    assert forall|p: Seq<u8>|
                        #![trigger in_seen(seen@, p)]
                        #![trigger repeated_before(dv, i + 1, p)]
                        in_seen(seen@, p) == repeated_before(dv, i + 1, p) by {
                        lemma_repeated_step(dv, i as int, p);
                    }
                }
            }
            i = i + 1;
        }
        out
    }
}

/// Whether each directory record's path sorts at or after the previous
/// one's.
pub open spec fn adjacent_sorted(dirs: Seq<(Seq<u8>, u32)>) -> bool {
    forall|i: int| 1 <= i < dirs.len() ==> lex_le(dirs[i - 1].0, #[trigger] dirs[i].0)
}

/// Whether some seen path is `p`.
pub open spec fn in_seen(seen: Seq<&[u8]>, p: Seq<u8>) -> bool {
    exists|x: int| 0 <= x < seen.len() && (#[trigger] seen[x])@ == p
}

/// Whether some record before `i` repeats its predecessor's path `p`.
pub open spec fn repeated_before(dirs: Seq<(Seq<u8>, u32)>, i: int, p: Seq<u8>) -> bool {
    exists|j: int| j < i && #[trigger] repeat_at(dirs, j, p)
}

proof fn lemma_repeated_step(dirs: Seq<(Seq<u8>, u32)>, i: int, p: Seq<u8>)
    requires
        1 <= i < dirs.len(),
    ensures
        repeated_before(dirs, i + 1, p) == (repeated_before(dirs, i, p) || repeat_at(dirs, i, p)),
{
    if repeated_before(dirs, i + 1, p) {
        let j = choose|j: int| j < i + 1 && #[trigger] repeat_at(dirs, j, p);
        if j < i {
            assert(repeated_before(dirs, i, p));
        }
    }
    if repeated_before(dirs, i, p) {
        let j = choose|j: int| j < i && #[trigger] repeat_at(dirs, j, p);
        assert(j < i + 1 && repeat_at(dirs, j, p));
    }
    if repeat_at(dirs, i, p) {
        assert(i < i + 1 && repeat_at(dirs, i, p));
    }
}

proof fn lemma_first_repeat_iff(dirs: Seq<(Seq<u8>, u32)>, i: int)
    requires
        1 <= i < dirs.len(),
        dirs[i - 1].0 == dirs[i].0,
    ensures
        first_repeat(dirs, i) == !repeated_before(dirs, i, dirs[i].0),
{
    if repeated_before(dirs, i, dirs[i].0) {
        let j = choose|j: int| j < i && #[trigger] repeat_at(dirs, j, dirs[i].0);
        assert(1 <= j < i && dirs[j - 1].0 == dirs[j].0);
    }
    if !first_repeat(dirs, i) {
        let j = choose|j: int|
            !(1 <= j < i && dirs[j - 1].0 == #[trigger] dirs[j].0 ==> dirs[j].0 != dirs[i].0);
        assert(repeat_at(dirs, j, dirs[i].0));
    }
}


/// The ID of the first directory record at or after `i` holding `id`, or
/// `dirs.len()`.
pub open spec fn first_dir_with_id(dirs: Seq<(Seq<u8>, u32)>, id: u32, i: int) -> int
    decreases dirs.len() - i,
{
    if i >= dirs.len() {
        dirs.len() as int
    } else if dirs[i].1 == id {
        i
    } else {
        first_dir_with_id(dirs, id, i + 1)
    }
}

proof fn lemma_first_dir_with_id_bounds(dirs: Seq<(Seq<u8>, u32)>, id: u32, i: int)
    requires
        0 <= i <= dirs.len(),
    ensures
        i <= first_dir_with_id(dirs, id, i) <= dirs.len(),
        first_dir_with_id(dirs, id, i) < dirs.len() ==> dirs[first_dir_with_id(dirs, id, i)].1
            == id,
    decreases dirs.len() - i,
{
    if i < dirs.len() && dirs[i].1 != id {
        lemma_first_dir_with_id_bounds(dirs, id, i + 1);
    }
}

impl Archive {
    /// Builds the typed entry for a row: files and symlinks carry their
    /// data block; an unknown kind is corruption.
    pub fn make_entry<'a>(&'a self, row: &'a EntryRow, path_bytes: &[u8], id: u32) -> (r: Result<
        Entry<'a>,
        BaleError,
    >)
        ensures
            match entry_content(self.spec_bytes(), *row) {
                Err(e) => r == Err::<Entry, BaleError>(e),
                Ok(c) => r matches Ok(e) && entry_is(e, *row, trim_nul(path_bytes@), id, c),
            },
    {
        let path = ArchivePath::from_null_padded_bytes(path_bytes);
        match row.kind() {
            EntryKind::File => {
                let data = match self.read_data(row) {
                    Ok(d) => d,
                    Err(e) => return Err(e),
                };
                Ok(Entry::File(FileEntry { entry: row, path, data, id }))
            },
            EntryKind::Directory => Ok(Entry::Directory(DirEntry { entry: row, path, id })),
            EntryKind::Symlink => {
                let target = match self.read_data(row) {
                    Ok(d) => d,
                    Err(e) => return Err(e),
                };
                Ok(Entry::Symlink(SymlinkEntry { entry: row, path, target, id }))
            },
            EntryKind::Other(_) => Err(
                BaleError::Corrupted(Corruption::UnknownEntryKind(row.mode)),
            ),
        }
    }

    /// What looking `path` up as an entry gives: not found, or the entry
    /// built from the found row (see [`entry_content`]).
    pub open spec fn entry_outcome(&self, path: Seq<u8>) -> Result<
        (EntryRow, Seq<u8>, u32, Seq<u8>),
        BaleError,
    > {
        match self.spec_lookup(path) {
            None => Err(BaleError::EntryNotFound),
            Some(t) => match entry_content(self.spec_bytes(), t.0) {
                Err(e) => Err(e),
                Ok(c) => Ok((t.0, t.1, t.2, c)),
            },
        }
    }

    /// Looks up any entry by path.
    pub fn entry(&self, path: &str) -> (r: Result<Entry<'_>, BaleError>)
        requires
            self.wf(),
        ensures
            match self.entry_outcome(path.spec_bytes()) {
                Err(e) => r == Err::<Entry, BaleError>(e),
                Ok(t) => r matches Ok(e) && entry_is(e, t.0, t.1, t.2, t.3),
            },
    {
        self.entry_bytes(path.as_bytes())
    }

    /// `entry` on path bytes.
    pub(crate) fn entry_bytes(&self, path: &[u8]) -> (r: Result<Entry<'_>, BaleError>)
        requires
            self.wf(),
        ensures
            match self.entry_outcome(path@) {
                Err(e) => r == Err::<Entry, BaleError>(e),
                Ok(t) => r matches Ok(e) && entry_is(e, t.0, t.1, t.2, t.3),
            },
    {
        match self.lookup_bytes(path) {
            None => Err(BaleError::EntryNotFound),
            Some((row, p, id)) => {
                self.make_entry(row, p, id)
            },
        }
    }

    /// Looks up a file entry by path: not found, not a file, or the file
    /// with its data.
    pub fn file(&self, path: &str) -> (r: Result<FileEntry<'_>, BaleError>)
        requires
            self.wf(),
        ensures
            match self.spec_lookup(path.spec_bytes()) {
                None => r == Err::<FileEntry, BaleError>(BaleError::EntryNotFound),
                Some(t) => if spec_kind_of_mode(t.0.mode) != EntryKind::File {
                    r == Err::<FileEntry, BaleError>(BaleError::NotAFile)
                } else {
                    match read_block(self.spec_bytes(), t.0) {
                        None => r == Err::<FileEntry, BaleError>(
                            BaleError::Corrupted(Corruption::DataOutOfBounds),
                        ),
                        Some(d) => r matches Ok(f) && *f.entry == t.0 && f.path@ == t.1 && f.id
                            == t.2 && f.data@ == d,
                    }
                },
            },
    {
        let (row, p, id) = match self.find_entry_with_path(path) {
            None => return Err(BaleError::EntryNotFound),
            Some(x) => x,
        };
        if row.kind() != EntryKind::File {
            return Err(BaleError::NotAFile);
        }
        let data = match self.read_data(row) {
            Ok(d) => d,
            Err(e) => return Err(e),
        };
        Ok(FileEntry { entry: row, path: ArchivePath::from_null_padded_bytes(p), data, id })
    }

    /// Looks up a directory entry by path: not found, not a directory, or
    /// the directory.
    pub fn folder(&self, path: &str) -> (r: Result<DirEntry<'_>, BaleError>)
        requires
            self.wf(),
        ensures
            match self.spec_lookup(path.spec_bytes()) {
                None => r == Err::<DirEntry, BaleError>(BaleError::EntryNotFound),
                Some(t) => if spec_kind_of_mode(t.0.mode) != EntryKind::Directory {
                    r == Err::<DirEntry, BaleError>(BaleError::NotADirectory)
                } else {
                    r matches Ok(d) && *d.entry == t.0 && d.path@ == t.1 && d.id == t.2
                },
            },
    {
        let (row, p, id) = match self.find_entry_with_path(path) {
            None => return Err(BaleError::EntryNotFound),
            Some(x) => x,
        };
        if row.kind() != EntryKind::Directory {
            return Err(BaleError::NotADirectory);
        }
        Ok(DirEntry { entry: row, path: ArchivePath::from_null_padded_bytes(p), id })
    }

    /// Looks up a symlink entry by path: not found, not a symlink, or the
    /// symlink with its target.
    pub fn symlink(&self, path: &str) -> (r: Result<SymlinkEntry<'_>, BaleError>)
        requires
            self.wf(),
        ensures
            match self.spec_lookup(path.spec_bytes()) {
                None => r == Err::<SymlinkEntry, BaleError>(BaleError::EntryNotFound),
                Some(t) => if spec_kind_of_mode(t.0.mode) != EntryKind::Symlink {
                    r == Err::<SymlinkEntry, BaleError>(BaleError::NotASymlink)
                } else {
                    match read_block(self.spec_bytes(), t.0) {
                        None => r == Err::<SymlinkEntry, BaleError>(
                            BaleError::Corrupted(Corruption::DataOutOfBounds),
                        ),
                        Some(d) => r matches Ok(l) && *l.entry == t.0 && l.path@ == t.1 && l.id
                            == t.2 && l.target@ == d,
                    }
                },
            },
    {
        let (row, p, id) = match self.find_entry_with_path(path) {
            None => return Err(BaleError::EntryNotFound),
            Some(x) => x,
        };
        if row.kind() != EntryKind::Symlink {
            return Err(BaleError::NotASymlink);
        }
        let target = match self.read_data(row) {
            Ok(d) => d,
            Err(e) => return Err(e),
        };
        Ok(SymlinkEntry { entry: row, path: ArchivePath::from_null_padded_bytes(p), target, id })
    }

    /// Finds an entry by ID: the first row with that ID and the first
    /// directory record naming it; `None` when either is missing or the
    /// entry cannot be built.
    pub fn find_by_id(&self, id: u32) -> (r: Option<Entry<'_>>)
        ensures
            ({
                let j = first_row_from(self.spec_rows(), id, 0);
                let k = first_dir_with_id(self.spec_dirs(), id, 0);
                if j >= self.spec_rows().len() || k >= self.spec_dirs().len() {
                    r is None
                } else {
                    match entry_content(self.spec_bytes(), self.spec_rows()[j]) {
                        Err(_) => r is None,
                        Ok(c) => r matches Some(e) && entry_is(
                            e,
                            self.spec_rows()[j],
                            trim_nul(self.spec_dirs()[k].0),
                            id,
                            c,
                        ),
                    }
                }
            }),
    {
        let j = self.row_position(id);
        proof {
            lemma_first_row_bounds(self.spec_rows(), id, 0);
            lemma_first_dir_with_id_bounds(self.spec_dirs(), id, 0);
        }
        if j >= self.entry_rows.len() {
            return None;
        }
        let mut k: usize = 0;
        while k < self.dir_entries.len()
            invariant
                k <= self.dir_entries@.len(),
                j == first_row_from(self.spec_rows(), id, 0),
                j < self.entry_rows@.len(),
                first_dir_with_id(self.spec_dirs(), id, 0) == first_dir_with_id(
                    self.spec_dirs(),
                    id,
                    k as int,
                ),
            decreases self.dir_entries@.len() - k,
        {
            if self.dir_entries[k].entry_id == id {
                return match self.make_entry(&self.entry_rows[j], self.dir_entries[k].path.as_slice(), id) {
                    Ok(e) => Some(e),
                    Err(_) => None,
                };
            }
            k = k + 1;
        }
        None
    }

    /// Whether the data region holds an orphaned block: walking aligned
    /// offsets from just after the file header, block by block, some
    /// offset before the write offset starts no entry's block.
    pub fn has_orphaned_data(&self) -> (r: Result<bool, BaleError>)
        requires
            self.wf(),
        ensures
            r == Ok::<bool, BaleError>(
                orphan_walk(
                    self.spec_rows(),
                    self.spec_alignment() as int,
                    self.spec_write_offset() as int,
                    align_up(FILE_HEADER_SIZE as int, self.spec_alignment() as int),
                ),
            ),
            forall|o: int|
                #[trigger] data_gap(
                    self.spec_rows(),
                    self.spec_alignment() as int,
                    self.spec_write_offset() as int,
                    o,
                ) ==> r == Ok::<bool, BaleError>(true),
            r == Ok::<bool, BaleError>(true) ==> exists|o: int|
                o % (self.spec_alignment() as int) == 0 && align_up(
                    FILE_HEADER_SIZE as int,
                    self.spec_alignment() as int,
                ) <= o < self.spec_write_offset() && #[trigger] starts_no_block(self.spec_rows(), o),
    {
        proof {
            self.lemma_alignment_bounds();
            lemma_orphaned_data(
                self.spec_rows(),
                self.spec_alignment() as int,
                self.spec_write_offset() as int,
            );
        }
        let a: u128 = match self.trailer.alignment() {
            Ok(x) => x as u128,
            Err(_) => 1,
        };
        let end = self.write_offset as u128;
        let start = FILE_HEADER_SIZE as u128;
        let mut offset: u128 = start + (a - start % a) % a;
        let ghost ai = a as int;
        while offset < end
            invariant
                0 < a <= 65536,
                ai == a as int,
                ai == self.spec_alignment() as int,
                end == self.write_offset as u128,
                end <= 0xffff_ffff_ffff_ffffu128,
                offset <= 0x1_0000_0000_0000_0000_0000u128,
                orphan_walk(self.spec_rows(), ai, end as int, align_up(FILE_HEADER_SIZE as int, ai))
                    == orphan_walk(self.spec_rows(), ai, end as int, offset as int),
            decreases max0(end - offset),
        {
            let mut j: usize = 0;
            let off64 = offset as u64;
            while j < self.entry_rows.len() && !(self.entry_rows[j].data_offset == off64 && off64
                != 0)
                invariant
                    j <= self.entry_rows@.len(),
                    off64 == offset,
                    offset < end,
                    first_offset_from(self.spec_rows(), offset as int, 0) == first_offset_from(
                        self.spec_rows(),
                        offset as int,
                        j as int,
                    ),
                decreases self.entry_rows@.len() - j,
            {
                j = j + 1;
            }
            proof {
                lemma_first_offset_bounds(self.spec_rows(), offset as int, 0);
            }
            if j >= self.entry_rows.len() {
                proof {
                    assert(first_offset_from(self.spec_rows(), offset as int, 0) >= self.spec_rows().len());
                    assert(orphan_walk(self.spec_rows(), ai, end as int, offset as int));
                    assert(ai == self.spec_alignment() as int);
                    assert(end as int == self.spec_write_offset() as int);
                    lemma_orphaned_data(self.spec_rows(), ai, end as int);
                }
                return Ok(true);
            }
            let bs = self.entry_rows[j].block_size as u128;
            let next = if bs > 0 {
                let n = offset + bs;
                n + (a - n % a) % a
            } else {
                offset + a
            };
            proof {
                assert(0 <= (ai - ((offset + bs) as int) % ai) % ai < ai) by (nonlinear_arith)
                    requires
                        ai > 0,
                ;
                let jj = first_offset_from(self.spec_rows(), offset as int, 0);
                assert(jj == j);
                assert(self.spec_rows()[jj].block_size == bs);
                if bs > 0 {
                    assert(next == align_up(offset + bs, ai));
                }
            }
            offset = next;
        }
        Ok(false)
    }
}



impl Archive {
    /// The error that adding a symlink at `path` to `target` gives, if
    /// any: an invalid path, a target that does not resolve, or an error of
    /// adding the entry.
    pub open spec fn symlink_error(&self, path: Seq<char>, target: Seq<u8>) -> Option<BaleError> {
        match normalize_chars(path) {
            None => Some(BaleError::InvalidPath),
            Some(c) => match resolved_target(encode_utf8(c), target) {
                Err(e) => Some(e),
                Ok(_) => self.add_error(path),
            },
        }
    }

    /// Adds a symlink entry whose data is the target as given; the target
    /// must resolve inside the archive (see [`resolve_target`]), and the
    /// symlink type bits are set when `mode` has none.
    pub fn add_symlink(&mut self, path: &str, target: &str, mode: u32) -> (r: Result<(), BaleError>)
        requires
            old(self).wf(),
            old(self).room_for(target.spec_bytes().len()),
        ensures
            match old(self).symlink_error(path@, target.spec_bytes()) {
                Some(e) => r == Err::<(), BaleError>(e) && *final(self) == *old(self),
                None => r is Ok && final(self).wf() && old(self).entry_added(
                    *final(self),
                    encode_utf8(normalize_chars(path@)->0),
                    target.spec_bytes(),
                    symlink_mode(mode),
                    None,
                    None,
                ),
            },
    {
        let symlink_path = match ArchivePath::from_str_normalized(path) {
            Ok(p) => p,
            Err(e) => return Err(e),
        };
        match resolve_target(&symlink_path, target) {
            Ok(_) => {},
            Err(e) => return Err(e),
        }
        let mode = if mode & S_IFMT == 0 {
            mode | S_IFLNK
        } else {
            mode
        };
        self.add_entry(path, target.as_bytes(), mode)
    }
}


impl Archive {
    /// Whether a data block of `len` bytes still fits (see [`room_for`]).
    pub fn has_room_for(&self, len: usize) -> (b: bool)
        ensures
            b == self.room_for(len as nat),
    {
        (self.write_offset as u128) + 65536 + (len as u128) <= isize::MAX as u128
    }

    /// Whether the tables and trailer still fit (see [`room_for_tables`]).
    pub fn has_room_for_tables(&self) -> (b: bool)
        requires
            self.wf(),
        ensures
            b == self.room_for_tables(),
    {
        let n = self.entry_rows.len() as u128;
        let m = self.dir_entries.len() as u128;
        let ps = self.trailer.path_size as u128;
        assert(m * (ps + 4) <= 0xffff_ffff_ffff_ffffu128 * 65540) by (nonlinear_arith)
            requires
                m <= 0xffff_ffff_ffff_ffffu128,
                ps <= 0xffffu128,
        ;
        (self.write_offset as u128) + 64 * n + m * (ps + 4) + 64 <= isize::MAX as u128
    }

    /// The archive's bytes.
    pub fn as_bytes(&self) -> (b: &[u8])
        ensures
            b@ == self.spec_bytes(),
    {
        self.data.as_slice()
    }

    /// Consumes the archive, returning its bytes.
    pub fn into_bytes(self) -> (b: Vec<u8>)
        ensures
            b@ == self.spec_bytes(),
    {
        self.data
    }
}

} // verus!
