//! Adding files to an archive under a prefix.

use vstd::prelude::*;
use crate::archive::model::{Archive, has_key, padded};
use crate::archive::options::AddEntryOptions;
use crate::archive_path::{ArchivePath, normalize_chars};
use crate::error::BaleError;
use vstd::utf8::encode_utf8;

verus! {

/// A file to add: its name (the last component of its source path), its
/// data, its Unix mode and its modification time (Unix epoch
/// milliseconds; `None` for the current time).
pub struct AddFile {
    /// The file's name.
    pub name: String,
    /// The file's contents.
    pub data: Vec<u8>,
    /// The file's Unix mode.
    pub mode: u32,
    /// The file's modification time.
    pub modified_time: Option<i64>,
}

/// The archive path of a file named `name` under `prefix`, before
/// normalization: the name alone under an empty prefix, else the prefix,
/// a `/` and the name.
pub open spec fn joined_path(prefix: Seq<char>, name: Seq<char>) -> Seq<char> {
    if prefix.len() == 0 {
        name
    } else {
        prefix + seq!['/'] + name
    }
}

/// The normalized archive path of file `f` under `prefix`, if it has one.
pub open spec fn add_target(prefix: Seq<char>, f: AddFile) -> Option<Seq<char>> {
    normalize_chars(joined_path(prefix, f.name@))
}

/// Why adding file `f` under `prefix` to archive `s` fails, if it does:
/// its path does not normalize, the archive has no room for its data, or
/// the archive refuses the entry.
pub open spec fn add_file_error(s: Archive, prefix: Seq<char>, f: AddFile) -> Option<BaleError> {
    match add_target(prefix, f) {
        None => Some(BaleError::InvalidPath),
        Some(t) => if !s.room_for(f.data@.len()) {
            Some(BaleError::Io)
        } else {
            s.add_error(t)
        },
    }
}

/// `t` is archive `s` with file `f` added under `prefix`: its normalized
/// path, its data, its mode and its modification time.
pub open spec fn file_added(s: Archive, t: Archive, prefix: Seq<char>, f: AddFile) -> bool {
    &&& add_file_error(s, prefix, f) is None
    &&& s.entry_added(
        t,
        encode_utf8(normalize_chars(add_target(prefix, f)->0)->0),
        f.data@,
        f.mode,
        None,
        f.modified_time,
    )
}

/// One run of [`add`] from archive `a` to archive `b` returning `r`, through
/// the archive states `states`: the files are added in order while they
/// can be; the first that cannot is the error, leaving the archive as it
/// was after the ones before; when all were added, the archive is synced
/// (or `Io` when it has no room for its tables) and the result holds each
/// file's archive path.
pub open spec fn add_run(
    a: Archive,
    b: Archive,
    prefix: Seq<char>,
    files: Seq<AddFile>,
    r: Result<Vec<String>, BaleError>,
    states: Seq<Archive>,
) -> bool {
    let k = states.len() - 1;
    &&& 1 <= states.len() <= files.len() + 1
    &&& states[0] == a
    &&& forall|i: int|
        0 <= i < k ==> file_added(#[trigger] states[i], states[i + 1], prefix, files[i])
    &&& if k < files.len() {
        add_file_error(states[k], prefix, files[k]) matches Some(e) && r == Err::<Vec<String>, BaleError>(e)
            && b == states[k]
    } else if !states[k].room_for_tables() {
        r == Err::<Vec<String>, BaleError>(BaleError::Io) && b == states[k]
    } else {
        &&& r matches Ok(paths) && paths@.len() == files.len() && forall|i: int|
            0 <= i < files.len() ==> add_target(prefix, #[trigger] files[i]) == Some(paths@[i]@)
        &&& states[k].spec_dirty() ==> states[k].synced_to(b)
        &&& !states[k].spec_dirty() ==> b == states[k]
    }
}

/// Adds each file under `prefix` (its path normalized), keeping its mode
/// and modification time, then syncs the archive. Returns the archive
/// paths added, in order; fails at the first file that cannot be added
/// (see [`add_file_error`]), or with `Io` when the tables do not fit.
pub fn add(archive: &mut Archive, prefix: &str, files: &Vec<AddFile>) -> (r: Result<
    Vec<String>,
    BaleError,
>)
    requires
        old(archive).wf(),
    ensures
        final(archive).wf(),
        exists|states: Seq<Archive>|
            add_run(*old(archive), *final(archive), prefix@, files@, r, states),
{
    let mut added: Vec<String> = Vec::new();
    let ghost a0 = *archive;
    let ghost mut states: Seq<Archive> = seq![a0];
    let mut i: usize = 0;
    while i < files.len()
        invariant
            i <= files@.len(),
            archive.wf(),
            added@.len() == i,
            states.len() == i + 1,
            states[0] == a0,
            a0 == *old(archive),
            states.last() == *archive,
            forall|k: int|
                0 <= k < i ==> file_added(#[trigger] states[k], states[k + 1], prefix@, files@[k]),
            forall|k: int|
                0 <= k < i ==> normalize_chars(joined_path(prefix@, (#[trigger] files@[k]).name@))
                    == Some(added@[k]@),
        decreases files@.len() - i,
    {
        let f = &files[i];
        let mut dest = String::new();
        let prefix_chars = crate::chars::chars_of(prefix);
        if prefix_chars.len() > 0 {
            dest.append(prefix);
            dest.append("/");
        }
        dest.append(f.name.as_str());
        proof {
            reveal_strlit("/");
            vstd::string::axiom_str_literal_len("/");
            assert(dest@ =~= joined_path(prefix@, f.name@));
        }
        let entry_path = match ArchivePath::from_str_normalized(dest.as_str()) {
            Ok(p) => p,
            Err(e) => {
                proof {
                    assert(add_run(a0, *archive, prefix@, files@, Err(e), states));
                }
                return Err(e);
            },
        };
        proof {
            vstd::utf8::encode_utf8_valid_utf8(normalize_chars(dest@)->0);
            vstd::utf8::encode_utf8_decode_utf8(normalize_chars(dest@)->0);
        }
        let entry_str = match entry_path.to_str_checked() {
            Ok(s) => s,
            Err(_) => return Err(BaleError::InvalidPath),
        };
        if !archive.has_room_for(f.data.len()) {
            proof {
                assert(add_run(a0, *archive, prefix@, files@, Err(BaleError::Io), states));
            }
            return Err(BaleError::Io);
        }
        let options = AddEntryOptions { created_time: None, modified_time: f.modified_time };
        let ghost before = *archive;
        match archive.add_entry_with_options(entry_str, f.data.as_slice(), f.mode, options) {
            Ok(()) => {},
            Err(e) => {
                proof {
                    assert(add_run(a0, *archive, prefix@, files@, Err(e), states));
                }
                return Err(e);
            },
        }
        proof {
            assert(file_added(before, *archive, prefix@, files@[i as int]));
            states = states.push(*archive);
        }
        let s = String::from_str(entry_str);
        proof {
            vstd::utf8::encode_utf8_decode_utf8(normalize_chars(dest@)->0);
        }
        added.push(s);
        i = i + 1;
    }
    if !archive.has_room_for_tables() {
        proof {
            assert(add_run(a0, *archive, prefix@, files@, Err(BaleError::Io), states));
        }
        return Err(BaleError::Io);
    }
    let ghost unsynced = *archive;
    match archive.sync() {
        Ok(()) => {},
        Err(e) => return Err(e),
    }
    proof {
        assert(add_run(a0, *archive, prefix@, files@, Ok(added), states));
    }
    Ok(added)
}

} // verus!
