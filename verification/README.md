# bale

A library and command-line tool for bale archives: an archive format with
fixed-stride entry and directory tables for random access, file data aligned
to block boundaries, a trailer with CRC-32C checksums, and a filesystem view
of an archive.

The library is written in Verus. Its functions carry `requires` / `ensures`
contracts over mathematical models of the archive (its bytes, trailer, entry
rows and directory records), and Verus proves that the code meets them.

## Layout

- `src/` — the verified library:
  - `format/` — the on-disk records (file header, entry row, directory row,
    trailer) and their byte codecs; CRC-32C.
  - `archive/` — the in-memory archive: opening bytes, adding, linking,
    deleting and renaming entries, syncing the tables, path resolution
    through symbolic links.
  - `archive_path.rs`, `dos_time.rs`, `text.rs`, `le.rs`, `chars.rs` — path
    normalization, DOS timestamps, UTF-8 text and little-endian helpers.
  - `check.rs`, `compact.rs`, `add.rs`, `delete.rs`, `extract.rs`,
    `listing.rs` — the operations behind the commands.
  - `fuse/` — the filesystem view: inode tables, the directory tree built
    from an archive, and the operations a mount answers.
  - `clock.rs` — the system clock.
- `tests/` — tests of the library.
- `app/` — the command-line program: argument handling, file I/O and the
  mount loop, calling the library.

Calls into outside crates (CRC-32C, calendar conversion, file-name
validation) and the clock go through small trusted wrappers whose contracts
are stated in their doc comments.
