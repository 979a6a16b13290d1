//! Extraction: choosing which entries an extraction writes, where each one
//! goes and what it holds. Writing the files is left to the caller.

use vstd::prelude::*;
use crate::archive::model::{Archive, listed, read_block};
use crate::archive_path::{ArchivePath, normalize_chars, trim_nul};
use crate::error::BaleError;
use crate::format::entry_row::EntryRow;
use crate::text::string_from_utf8;
use vstd::utf8::{valid_utf8, decode_utf8, encode_utf8};

verus! {

/// The name stored for a listed entry, when its path is valid UTF-8.
pub open spec fn stored_name(e: (EntryRow, Seq<u8>)) -> Option<Seq<char>> {
    let p = trim_nul(e.1);
    if valid_utf8(p) {
        Some(decode_utf8(p))
    } else {
        None
    }
}

/// The set of names in `names`.
pub open spec fn name_set(names: Seq<String>) -> Set<Seq<char>> {
    Set::new(|x: Seq<char>| exists|j: int| 0 <= j < names.len() && names[j]@ == x)
}

/// The names of `names` whose flag in `taken` is not set.
pub open spec fn untaken(names: Seq<String>, taken: Seq<bool>) -> Set<Seq<char>> {
    Set::new(|x: Seq<char>| exists|j: int| 0 <= j < names.len() && names[j]@ == x && !taken[j])
}

/// Walking the entries of `l` in order, each name of `wanted` takes the
/// first entry that carries it: the positions taken, and the names left
/// unmatched.
pub open spec fn selection(l: Seq<(EntryRow, Seq<u8>)>, wanted: Set<Seq<char>>) -> (
    Seq<int>,
    Set<Seq<char>>,
)
    decreases l.len(),
{
    if l.len() == 0 {
        (Seq::empty(), wanted)
    } else {
        let prev = selection(l.drop_last(), wanted);
        let n = stored_name(l.last());
        if n is Some && prev.1.contains(n->0) {
            (prev.0.push(l.len() - 1), prev.1.remove(n->0))
        } else {
            prev
        }
    }
}

/// The positions of `l` that an extraction of `names` writes: all of
/// them when no name is given.
pub open spec fn chosen(l: Seq<(EntryRow, Seq<u8>)>, names: Seq<String>) -> Seq<int> {
    if names.len() == 0 {
        Seq::new(l.len(), |i: int| i)
    } else {
        selection(l, name_set(names)).0
    }
}

/// The names asked for that no entry carries.
pub open spec fn unmatched(l: Seq<(EntryRow, Seq<u8>)>, names: Seq<String>) -> Set<Seq<char>> {
    if names.len() == 0 {
        Set::empty()
    } else {
        selection(l, name_set(names)).1
    }
}

/// The relative path an entry is written to: its stored path, normalized.
pub open spec fn target_path(e: (EntryRow, Seq<u8>)) -> Option<Seq<char>> {
    match stored_name(e) {
        Some(n) => normalize_chars(n),
        None => None,
    }
}

/// Whether an entry of an archive with bytes `bytes` can be written out:
/// its path normalizes and its data block lies within the archive.
pub open spec fn extractable(bytes: Seq<u8>, e: (EntryRow, Seq<u8>)) -> bool {
    target_path(e) is Some && read_block(bytes, e.0) is Some
}

/// Why an entry cannot be written out.
pub open spec fn extract_error(e: (EntryRow, Seq<u8>)) -> BaleError {
    if target_path(e) is None {
        BaleError::InvalidPath
    } else {
        BaleError::Corrupted(crate::error::Corruption::DataOutOfBounds)
    }
}

/// Positions taken by a selection stay taken, in order, as the walk goes on;
/// every position lies within the walked prefix.
proof fn lemma_selection_prefix(l: Seq<(EntryRow, Seq<u8>)>, w: Set<Seq<char>>, i: int, j: int)
    requires
        0 <= i <= j <= l.len(),
    ensures
        selection(l.take(i), w).0.len() <= selection(l.take(j), w).0.len(),
        forall|k: int|
            0 <= k < selection(l.take(i), w).0.len() ==> #[trigger] selection(l.take(j), w).0[k]
                == selection(l.take(i), w).0[k],
        forall|k: int|
            0 <= k < selection(l.take(j), w).0.len() ==> 0 <= #[trigger] selection(l.take(j), w).0[k]
                < j,
    decreases j,
{
    if i < j {
        lemma_selection_prefix(l, w, i, j - 1);
        assert(l.take(j).drop_last() =~= l.take(j - 1));
    } else if j > 0 {
        lemma_selection_prefix(l, w, 0, j - 1);
        assert(l.take(j).drop_last() =~= l.take(j - 1));
    }
}

/// Marks every name equal to `name` as taken; returns whether one of them
/// was not taken yet.
fn take_name(taken: &mut Vec<bool>, names: &Vec<String>, name: &String) -> (r: bool)
    requires
        old(taken)@.len() == names@.len(),
    ensures
        final(taken)@.len() == names@.len(),
        r == untaken(names@, old(taken)@).contains(name@),
        untaken(names@, final(taken)@) == untaken(names@, old(taken)@).remove(name@),
{
    let ghost before = taken@;
    let mut found = false;
    let mut j: usize = 0;
    while j < names.len()
        invariant
            j <= names@.len(),
            taken@.len() == names@.len(),
            forall|k: int|
                0 <= k < names@.len() ==> #[trigger] taken@[k] == if k < j && names@[k]@ == name@ {
                    true
                } else {
                    before[k]
                },
            found == exists|k: int| 0 <= k < j && names@[k]@ == name@ && !before[k],
        decreases names@.len() - j,
    {
        if names[j] == *name {
            if !taken[j] {
                found = true;
            }
            taken.set(j, true);
        }
        j = j + 1;
    }
    proof {
        let a = untaken(names@, before);
        let b = untaken(names@, taken@);
        assert forall|x: Seq<char>| b.contains(x) <==> a.remove(name@).contains(x) by {
            if b.contains(x) {
                let k = choose|k: int| 0 <= k < names@.len() && names@[k]@ == x && !taken@[k];
                assert(a.contains(x));
            }
            if a.remove(name@).contains(x) {
                let k = choose|k: int| 0 <= k < names@.len() && names@[k]@ == x && !before[k];
                assert(!taken@[k]);
            }
        }
        assert(b =~= a.remove(name@));
        if found {
            let k = choose|k: int| 0 <= k < names@.len() && names@[k]@ == name@ && !before[k];
            assert(a.contains(name@));
        }
    }
    found
}

/// Whether any flag of `taken` is unset.
fn any_untaken(taken: &Vec<bool>) -> (r: bool)
    ensures
        r == exists|j: int| 0 <= j < taken@.len() && !taken@[j],
{
    let mut j: usize = 0;
    while j < taken.len()
        invariant
            j <= taken@.len(),
            forall|k: int| 0 <= k < j ==> taken@[k],
        decreases taken@.len() - j,
    {
        if !taken[j] {
            return true;
        }
        j = j + 1;
    }
    false
}

/// The path an entry is written to and its data, or why it cannot be.
fn extract_one<'a>(archive: &'a Archive, row: &'a EntryRow, padded: &[u8]) -> (r: Result<
    (String, &'a [u8]),
    BaleError,
>)
    ensures
        extractable(archive.spec_bytes(), (*row, padded@)) ==> (r matches Ok(v) && v.0@ == target_path(
            (*row, padded@),
        )->0 && v.1@ == read_block(archive.spec_bytes(), *row)->0),
        !extractable(archive.spec_bytes(), (*row, padded@)) ==> r == Err::<(String, &'a [u8]), BaleError>(
            extract_error((*row, padded@)),
        ),
{
    let path = ArchivePath::from_null_padded_bytes(padded);
    let norm = match path.normalize() {
        Ok(p) => p,
        Err(_) => return Err(BaleError::InvalidPath),
    };
    let ghost c = normalize_chars(decode_utf8(trim_nul(padded@)))->0;
    proof {
        vstd::utf8::encode_utf8_valid_utf8(c);
        vstd::utf8::encode_utf8_decode_utf8(c);
    }
    let s = match string_from_utf8(norm.into_vec()) {
        Some(s) => s,
        None => return Err(BaleError::InvalidPath),
    };
    let data = match archive.read_data(row) {
        Ok(d) => d,
        Err(e) => return Err(e),
    };
    Ok((s, data))
}

/// Chooses what extracting `entries` from `archive` writes, in archive
/// order: every entry when `entries` is empty, else for each name the
/// first entry whose path is that name. For each, the normalized relative
/// path, the entry's row and its data. Fails at the first chosen entry
/// whose path does not normalize (`InvalidPath`) or whose data lies
/// outside the archive; then with `EntryNotFound` when a name matched no
/// entry.
pub fn extract<'a>(archive: &'a Archive, entries: &Vec<String>) -> (r: Result<
    Vec<(String, &'a EntryRow, &'a [u8])>,
    BaleError,
>)
    ensures
        ({
            let l = listed(archive.spec_rows(), archive.spec_dirs());
            let c = chosen(l, entries@);
            let bytes = archive.spec_bytes();
            &&& forall|k: int|
                0 <= k < c.len() && !extractable(bytes, l[c[k]]) && (forall|m: int|
                    0 <= m < k ==> extractable(bytes, #[trigger] l[c[m]])) ==> r == Err::<
                    Vec<(String, &'a EntryRow, &'a [u8])>,
                    BaleError,
                >(extract_error(l[c[k]]))
            &&& (forall|k: int| 0 <= k < c.len() ==> extractable(bytes, #[trigger] l[c[k]])) ==> {
                if exists|x: Seq<char>| unmatched(l, entries@).contains(x) {
                    r == Err::<Vec<(String, &'a EntryRow, &'a [u8])>, BaleError>(
                        BaleError::EntryNotFound,
                    )
                } else {
                    r matches Ok(v) && v@.len() == c.len() && forall|k: int|
                        0 <= k < c.len() ==> {
                            &&& (#[trigger] v@[k]).0@ == target_path(l[c[k]])->0
                            &&& *v@[k].1 == l[c[k]].0
                            &&& v@[k].2@ == read_block(bytes, l[c[k]].0)->0
                        }
                }
            }
        }),
{
    let all = archive.entries();
    let ghost l = listed(archive.spec_rows(), archive.spec_dirs());
    let ghost bytes = archive.spec_bytes();
    let mut out: Vec<(String, &'a EntryRow, &'a [u8])> = Vec::new();
    if entries.len() == 0 {
        let ghost c = chosen(l, entries@);
        let mut i: usize = 0;
        while i < all.len()
            invariant
                all@.len() == l.len(),
                l == listed(archive.spec_rows(), archive.spec_dirs()),
                c == chosen(l, entries@),
                entries@.len() == 0,
                c == Seq::new(l.len(), |q: int| q),
                forall|q: int|
                    0 <= q < all@.len() ==> *(#[trigger] all@[q]).0 == l[q].0 && all@[q].1@ == l[q].1,
                i <= all@.len(),
                out@.len() == i,
                forall|k: int| 0 <= k < i ==> extractable(bytes, #[trigger] l[c[k]]),
                forall|k: int|
                    0 <= k < i ==> {
                        &&& (#[trigger] out@[k]).0@ == target_path(l[c[k]])->0
                        &&& *out@[k].1 == l[c[k]].0
                        &&& out@[k].2@ == read_block(bytes, l[c[k]].0)->0
                    },
                bytes == archive.spec_bytes(),
            decreases all@.len() - i,
        {
            let (row, padded) = all[i];
            match extract_one(archive, row, padded) {
                Ok((s, d)) => out.push((s, row, d)),
                Err(e) => {
                    proof {
                        assert(c[i as int] == i);
                        assert((*row, padded@) == l[i as int]);
                        assert(!extractable(bytes, l[c[i as int]]));
                        assert forall|k: int|
                            0 <= k < c.len() && !extractable(bytes, l[c[k]]) && (forall|m: int|
                                0 <= m < k ==> extractable(bytes, #[trigger] l[c[m]])) implies e
                            == extract_error(l[c[k]]) by {
                            if k > i {
                                assert(extractable(bytes, l[c[i as int]]));
                            }
                        }
                    }
                    return Err(e);
                },
            }
            i = i + 1;
        }
        return Ok(out);
    }
    let ghost w = name_set(entries@);
    let mut taken: Vec<bool> = Vec::new();
    let mut j: usize = 0;
    while j < entries.len()
        invariant
            j <= entries@.len(),
            taken@.len() == j,
            forall|k: int| 0 <= k < j ==> !taken@[k],
        decreases entries@.len() - j,
    {
        taken.push(false);
        j = j + 1;
    }
    proof {
        assert forall|x: Seq<char>| w.contains(x) implies untaken(entries@, taken@).contains(x) by {
            let k = choose|k: int| 0 <= k < entries@.len() && entries@[k]@ == x;
            assert(!taken@[k]);
        }
        assert(untaken(entries@, taken@) =~= w);
        assert(l.take(0) =~= Seq::<(EntryRow, Seq<u8>)>::empty());
    }
    let mut i: usize = 0;
    while i < all.len()
        invariant
            entries@.len() > 0,
            w == name_set(entries@),
            l == listed(archive.spec_rows(), archive.spec_dirs()),
            all@.len() == l.len(),
            forall|q: int|
                0 <= q < all@.len() ==> *(#[trigger] all@[q]).0 == l[q].0 && all@[q].1@ == l[q].1,
            i <= all@.len(),
            taken@.len() == entries@.len(),
            untaken(entries@, taken@) == selection(l.take(i as int), w).1,
            out@.len() == selection(l.take(i as int), w).0.len(),
            forall|k: int|
                0 <= k < out@.len() ==> extractable(
                    bytes,
                    #[trigger] l[selection(l.take(i as int), w).0[k]],
                ),
            forall|k: int|
                0 <= k < out@.len() ==> {
                    let p = selection(l.take(i as int), w).0[k];
                    &&& (#[trigger] out@[k]).0@ == target_path(l[p])->0
                    &&& *out@[k].1 == l[p].0
                    &&& out@[k].2@ == read_block(bytes, l[p].0)->0
                },
            bytes == archive.spec_bytes(),
        decreases all@.len() - i,
    {
        let (row, padded) = all[i];
        let ghost prev = selection(l.take(i as int), w);
        proof {
            assert(l.take(i + 1).drop_last() =~= l.take(i as int));
            assert(l.take(i + 1).last() == l[i as int]);
            lemma_selection_prefix(l, w, i as int, i as int);
        }
        let path = ArchivePath::from_null_padded_bytes(padded);
        match path.as_str() {
            Some(s) => {
                let name = s.to_owned();
                if take_name(&mut taken, entries, &name) {
                    match extract_one(archive, row, padded) {
                        Ok((t, d)) => out.push((t, row, d)),
                        Err(e) => {
                            proof {
                                let k = prev.0.len() as int;
                                let c = chosen(l, entries@);
                                lemma_selection_prefix(l, w, i + 1, l.len() as int);
                                assert(l.take(l.len() as int) =~= l);
                                assert(c == selection(l.take(l.len() as int), w).0);
                                assert(c[k] == i);
                                assert((*row, padded@) == l[i as int]);
                                assert(!extractable(bytes, l[c[k]]));
                                assert forall|m: int| 0 <= m < k implies extractable(
                                    bytes,
                                    #[trigger] l[c[m]],
                                ) by {
                                    assert(c[m] == prev.0[m]);
                                }
                                assert forall|k2: int|
                                    0 <= k2 < c.len() && !extractable(bytes, l[c[k2]]) && (forall|m: int|
                                        0 <= m < k2 ==> extractable(bytes, #[trigger] l[c[m]])) implies e
                                    == extract_error(l[c[k2]]) by {
                                    if k2 > k {
                                        assert(extractable(bytes, l[c[k]]));
                                    }
                                }
                            }
                            return Err(e);
                        },
                    }
                }
            },
            None => {},
        }
        i = i + 1;
    }
    proof {
        assert(l.take(l.len() as int) =~= l);
        let c = chosen(l, entries@);
        assert(c == selection(l.take(l.len() as int), w).0);
        assert(unmatched(l, entries@) == untaken(entries@, taken@));
        assert forall|k: int| 0 <= k < c.len() implies extractable(bytes, #[trigger] l[c[k]]) by {
            assert(c[k] == selection(l.take(i as int), w).0[k]);
        }
    }
    if any_untaken(&taken) {
        proof {
            let j = choose|j: int| 0 <= j < taken@.len() && !taken@[j];
            assert(untaken(entries@, taken@).contains(entries@[j]@));
            assert(unmatched(l, entries@).contains(entries@[j]@));
        }
        return Err(BaleError::EntryNotFound);
    }
    proof {
        assert forall|x: Seq<char>| !unmatched(l, entries@).contains(x) by {
            if untaken(entries@, taken@).contains(x) {
                let j = choose|j: int| 0 <= j < entries@.len() && entries@[j]@ == x && !taken@[j];
            }
        }
    }
    Ok(out)
}

} // verus!
