//! Deleting a list of entries from an archive and saving the result.

use vstd::prelude::*;
use crate::archive::model::{Archive, has_key, key_holds_id, lemma_multiset_len};
use crate::error::BaleError;
use crate::format::entry_row::EntryRow;
use vstd::utf8::encode_utf8;

verus! {

/// The rows and directory records left after deleting, in turn, the
/// entries with search keys `keys` (a key that matches nothing changes
/// nothing).
pub open spec fn after_deletes(
    rows: Seq<EntryRow>,
    dirs: Seq<(Seq<u8>, u32)>,
    keys: Seq<Seq<u8>>,
) -> (Seq<EntryRow>, Seq<(Seq<u8>, u32)>)
    decreases keys.len(),
{
    if keys.len() == 0 {
        (rows, dirs)
    } else {
        let prev = after_deletes(rows, dirs, keys.drop_last());
        let key = keys.last();
        if has_key(prev.1, key) {
            (
                prev.0.filter(|row: EntryRow| !key_holds_id(prev.1, key, row.entry_id)),
                prev.1.filter(|d: (Seq<u8>, u32)| d.0 != key),
            )
        } else {
            prev
        }
    }
}

/// The search keys of `names` in archive `a`.
pub open spec fn keys_of(a: Archive, names: Seq<String>) -> Seq<Seq<u8>> {
    Seq::new(names.len(), |i: int| a.key_of(encode_utf8(names[i]@)))
}

/// Whether the `i`-th delete of `names` finds an entry.
pub open spec fn delete_found(a: Archive, names: Seq<String>, i: int) -> bool {
    let keys = keys_of(a, names);
    has_key(after_deletes(a.spec_rows(), a.spec_dirs(), keys.take(i)).1, keys[i])
}

/// Deletes each entry of `entries` in turn, then saves the archive.
/// Returns, per name, whether an entry was deleted, and the outcome:
/// `Io` when the archive has no room left to write its tables (it is then
/// not saved); `EntryNotFound` when no name matched and `ignore_missing`
/// is false.
pub fn delete_entries(archive: &mut Archive, entries: &Vec<String>, ignore_missing: bool) -> (r: (
    Vec<bool>,
    Result<(), BaleError>,
))
    requires
        old(archive).wf(),
    ensures
        final(archive).wf(),
        r.0@.len() == entries@.len(),
        forall|i: int| 0 <= i < entries@.len() ==> r.0@[i] == delete_found(*old(archive), entries@, i),
        ({
            let after = after_deletes(
                old(archive).spec_rows(),
                old(archive).spec_dirs(),
                keys_of(*old(archive), entries@),
            );
            &&& final(archive).spec_rows().to_multiset() == after.0.to_multiset()
            &&& final(archive).spec_dirs().to_multiset() == after.1.to_multiset()
        }),
        final(archive).spec_path_size() == old(archive).spec_path_size(),
        !final(archive).room_for_tables() ==> r.1 == Err::<(), BaleError>(BaleError::Io),
        final(archive).room_for_tables() ==> !final(archive).spec_dirty() && if !ignore_missing && (
        forall|i: int| 0 <= i < entries@.len() ==> !delete_found(*old(archive), entries@, i)) {
            r.1 == Err::<(), BaleError>(BaleError::EntryNotFound)
        } else {
            r.1 == Ok::<(), BaleError>(())
        },
{
    let ghost a0 = *archive;
    let ghost keys = keys_of(a0, entries@);
    let mut flags: Vec<bool> = Vec::new();
    let mut any = false;
    let mut i: usize = 0;
    proof {
        assert(keys.take(0) =~= Seq::<Seq<u8>>::empty());
    }
    while i < entries.len()
        invariant
            i <= entries@.len(),
            keys == keys_of(a0, entries@),
            archive.wf(),
            archive.spec_path_size() == a0.spec_path_size(),
            (archive.spec_rows(), archive.spec_dirs()) == after_deletes(
                a0.spec_rows(),
                a0.spec_dirs(),
                keys.take(i as int),
            ),
            flags@.len() == i,
            forall|k: int| 0 <= k < i ==> flags@[k] == delete_found(a0, entries@, k),
            any == exists|k: int| 0 <= k < i && flags@[k],
        decreases entries@.len() - i,
    {
        let ghost before = *archive;
        let found = archive.delete(entries[i].as_str());
        proof {
            assert(keys.take(i + 1).drop_last() =~= keys.take(i as int));
            assert(keys[i as int] == before.key_of(encode_utf8(entries@[i as int]@)));
        }
        let ghost prev_flags = flags@;
        flags.push(found);
        proof {
            assert(forall|k: int| 0 <= k < i ==> flags@[k] == prev_flags[k]);
            if found {
                assert(flags@[i as int]);
            }
        }
        if found {
            any = true;
        }
        i = i + 1;
    }
    proof {
        assert(keys.take(entries@.len() as int) =~= keys);
    }
    let ghost deleted = *archive;
    if !archive.has_room_for_tables() {
        return (flags, Err(BaleError::Io));
    }
    let _ = archive.sync();
    proof {
        if deleted.spec_dirty() {
            lemma_multiset_len(archive.spec_rows(), deleted.spec_rows());
            lemma_multiset_len(archive.spec_dirs(), deleted.spec_dirs());
        }
    }
    if !any && !ignore_missing {
        proof {
            assert forall|k: int| 0 <= k < entries@.len() implies !delete_found(a0, entries@, k) by {
                assert(!flags@[k]);
            }
        }
        return (flags, Err(BaleError::EntryNotFound));
    }
    (flags, Ok(()))
}

} // verus!
