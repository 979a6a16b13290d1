//! Compaction: rewriting an archive without shadowed entries, and renaming
//! duplicate paths.

use vstd::prelude::*;
use crate::archive::model::{Archive, listed, has_key, padded, dir_view, open_outcome, read_block, directory_mode};
use crate::archive::order::path_le;
use vstd::relations::sorted_by;
use crate::archive::options::AddEntryOptions;
use crate::archive::order::{bytes_le, lex_le, bytes_order, lemma_insert_sorted};
use crate::archive_path::{ArchivePath, normalize_chars, trim_nul, spec_with_suffix};
use crate::entry_kind::{EntryKind, S_IFDIR, spec_kind_of_mode};
use crate::error::BaleError;
use crate::format::entry_row::EntryRow;
use crate::text::{str_from_utf8, lossy_text};
use vstd::utf8::{encode_utf8, decode_utf8, valid_utf8};

verus! {

/// Default permission bits for directories that compaction adds
/// (rwxr-xr-x).
pub const DEFAULT_DIR_PERM: u32 = 0o755;

/// Statistics from [`compact`].
#[derive(Debug, Clone, Copy)]
pub struct CompactStats {
    /// Size of the original archive in bytes.
    pub original_size: u64,
    /// Size of the compacted archive in bytes.
    pub compacted_size: u64,
    /// Number of shadowed entries removed.
    pub entries_removed: usize,
    /// Bytes reclaimed (never negative).
    pub bytes_reclaimed: u64,
}

/// Statistics from [`rename_duplicates`].
#[derive(Debug, Clone)]
pub struct RenameStats {
    /// Number of entries renamed.
    pub entries_renamed: usize,
    /// Each rename, old path then new path, in order.
    pub renames: Vec<(String, String)>,
}

/// Whether listed entry `k` is the last one with its path (the one that
/// shadows the others).
pub open spec fn is_last_occurrence(l: Seq<(EntryRow, Seq<u8>)>, k: int) -> bool {
    forall|j: int| k < j < l.len() ==> trim_nul(#[trigger] l[j].1) != trim_nul(l[k].1)
}

/// How many of the first `n` listed entries are last occurrences.
pub open spec fn kept_count(l: Seq<(EntryRow, Seq<u8>)>, n: int) -> nat
    decreases n,
{
    if n <= 0 {
        0
    } else {
        kept_count(l, n - 1) + if is_last_occurrence(l, n - 1) {
            1nat
        } else {
            0nat
        }
    }
}

proof fn lemma_kept_count_bound(l: Seq<(EntryRow, Seq<u8>)>, n: int)
    ensures
        kept_count(l, n) <= (if n < 0 {
            0
        } else {
            n
        }),
    decreases n,
{
    if n > 0 {
        lemma_kept_count_bound(l, n - 1);
    }
}

/// A record present in one table is present in any reordering of it.
proof fn lemma_has_key_permuted(d1: Seq<(Seq<u8>, u32)>, d2: Seq<(Seq<u8>, u32)>, j: int)
    requires
        d1.to_multiset() == d2.to_multiset(),
        0 <= j < d1.len(),
    ensures
        has_key(d2, d1[j].0),
{
    d1.to_multiset_ensures();
    d2.to_multiset_ensures();
    assert(d1.contains(d1[j]));
    assert(d1.to_multiset().count(d1[j]) > 0);
    assert(d2.contains(d1[j]));
    let k = choose|k: int| 0 <= k < d2.len() && d2[k] == d1[j];
}

/// The key under which a stored path is written back: its normalized form,
/// null-padded.
pub open spec fn rewritten_key(p: Seq<u8>, ps: nat) -> Seq<u8> {
    padded(encode_utf8(normalize_chars(decode_utf8(trim_nul(p)))->0), ps)
}

/// Whether `ids` is strictly ascending.
pub open spec fn ascending(ids: Seq<usize>) -> bool {
    forall|a: int, b: int| 0 <= a < b < ids.len() ==> ids[a] < ids[b]
}

/// Whether the last occurrence at `k` has no later entry with its path.
fn last_occurrence(entries: &Vec<(&EntryRow, &[u8])>, k: usize) -> (b: bool)
    requires
        k < entries@.len(),
    ensures
        b == forall|j: int|
            k < j < entries@.len() ==> trim_nul((#[trigger] entries@[j]).1@) != trim_nul(
                entries@[k as int].1@,
            ),
{
    let p = entries[k].1;
    let n = crate::archive_path::nul_trimmed_len(p);
    let tp = &p[0..n];
    assert(entries@.len() == entries.len());
    let mut j = k + 1;
    while j < entries.len()
        invariant
            k < j <= entries@.len(),
            tp@ == trim_nul(entries@[k as int].1@),
            forall|x: int|
                k < x < j ==> trim_nul((#[trigger] entries@[x]).1@) != trim_nul(
                    entries@[k as int].1@,
                ),
        decreases entries@.len() - j,
    {
        let q = entries[j].1;
        let m = crate::archive_path::nul_trimmed_len(q);
        if crate::archive::model::bytes_equal(&q[0..m], tp) {
            return false;
        }
        j = j + 1;
    }
    true
}

/// Whether `v` holds a byte string equal to `x`.
fn contains_bytes(v: &Vec<Vec<u8>>, x: &[u8]) -> (b: bool)
    ensures
        b == exists|k: int| 0 <= k < v@.len() && (#[trigger] v@[k])@ == x@,
{
    let mut k: usize = 0;
    while k < v.len()
        invariant
            k <= v@.len(),
            forall|y: int| 0 <= y < k ==> (#[trigger] v@[y])@ != x@,
        decreases v@.len() - k,
    {
        if crate::archive::model::bytes_equal(v[k].as_slice(), x) {
            return true;
        }
        k = k + 1;
    }
    false
}

/// The byte strings of `v`, by value.
pub open spec fn byte_views(v: Seq<Vec<u8>>) -> Seq<Seq<u8>> {
    Seq::new(v.len(), |k: int| v[k]@)
}

/// One insertion step of a sort keeps the multiset: removing the element at
/// `i` and inserting it at `pos`.
proof fn lemma_reinsert_multiset<A>(before: Seq<A>, i: int, pos: int)
    requires
        0 <= i < before.len(),
        0 <= pos <= i,
    ensures
        before.remove(i).insert(pos, before[i]).to_multiset() == before.to_multiset(),
{
    broadcast use vstd::seq_lib::group_to_multiset_ensures;
    broadcast use vstd::multiset::group_multiset_axioms;

    let x = before[i];
    let mid = before.remove(i);
    assert(before.contains(x));
    before.to_multiset_ensures();
    assert(before.to_multiset().count(x) > 0);
    vstd::seq_lib::to_multiset_remove(before, i);
    vstd::seq_lib::to_multiset_insert(mid, pos, x);
    assert(mid.insert(pos, x).to_multiset() =~= before.to_multiset());
}

/// Sorts byte strings in ascending order.
fn sort_byte_strings(v: &mut Vec<Vec<u8>>)
    ensures
        byte_views(final(v)@).to_multiset() == byte_views(old(v)@).to_multiset(),
        sorted_by(byte_views(final(v)@), bytes_order()),
{
    let n = v.len();
    if n == 0 {
        return;
    }
    let mut i: usize = 1;
    while i < n
        invariant
            1 <= i <= n,
            v@.len() == n,
            byte_views(v@).to_multiset() == byte_views(old(v)@).to_multiset(),
            sorted_by(byte_views(v@).take(i as int), bytes_order()),
        decreases n - i,
    {
        let ghost before = v@;
        let x = v.remove(i);
        let mut pos: usize = i;
        while pos > 0 && !bytes_le(v[pos - 1].as_slice(), x.as_slice())
            invariant
                pos <= i < n,
                before.len() == n,
                v@ == before.remove(i as int),
                forall|k: int| pos <= k < i ==> !lex_le((#[trigger] v@[k])@, x@),
            decreases pos,
        {
            pos = pos - 1;
        }
        let ghost xv = x@;
        let ghost mid = v@;
        v.insert(pos, x);
        proof {
            lemma_reinsert_multiset(byte_views(before), i as int, pos as int);
            assert(byte_views(v@) =~= byte_views(before).remove(i as int).insert(pos as int, xv));
            let t = byte_views(before).take(i as int);
            assert(t =~= byte_views(mid).take(i as int));
            if pos > 0 {
                assert(lex_le(t[pos - 1], xv));
            }
            assert forall|k: int| pos <= k < t.len() implies !lex_le(#[trigger] t[k], xv) by {
                assert(t[k] == mid[k]@);
            }
            lemma_insert_sorted(t, xv, pos as int);
            assert(byte_views(v@).take(i + 1) =~= t.insert(pos as int, xv));
        }
        i = i + 1;
    }
    proof {
        assert(byte_views(v@).take(n as int) =~= byte_views(v@));
    }
}

/// The padded paths of the entries at positions `idx`, in order.
pub open spec fn paths_at(idx: Seq<usize>, entries: Seq<(&EntryRow, &[u8])>) -> Seq<Seq<u8>> {
    Seq::new(idx.len(), |k: int| entries[idx[k] as int].1@)
}

/// Sorts entry indices by the entries' padded paths (a reordering).
fn sort_by_path(idx: &mut Vec<usize>, entries: &Vec<(&EntryRow, &[u8])>)
    requires
        forall|x: int| 0 <= x < old(idx)@.len() ==> (#[trigger] old(idx)@[x]) < entries@.len(),
    ensures
        final(idx)@.to_multiset() == old(idx)@.to_multiset(),
        forall|x: int| 0 <= x < final(idx)@.len() ==> (#[trigger] final(idx)@[x]) < entries@.len(),
        sorted_by(paths_at(final(idx)@, entries@), bytes_order()),
{
    let n = idx.len();
    if n == 0 {
        return;
    }
    let mut i: usize = 1;
    while i < n
        invariant
            1 <= i <= n,
            idx@.len() == n,
            idx@.to_multiset() == old(idx)@.to_multiset(),
            forall|x: int| 0 <= x < idx@.len() ==> (#[trigger] idx@[x]) < entries@.len(),
            sorted_by(paths_at(idx@, entries@).take(i as int), bytes_order()),
        decreases n - i,
    {
        let ghost before = idx@;
        let x = idx.remove(i);
        let mut pos: usize = i;
        while pos > 0 && !bytes_le(entries[idx[pos - 1]].1, entries[x].1)
            invariant
                pos <= i < n,
                before.len() == n,
                idx@ == before.remove(i as int),
                x == before[i as int],
                x < entries@.len(),
                forall|y: int| 0 <= y < idx@.len() ==> (#[trigger] idx@[y]) < entries@.len(),
                forall|k: int|
                    pos <= k < i ==> !lex_le(entries@[(#[trigger] idx@[k]) as int].1@, entries@[x as int].1@),
            decreases pos,
        {
            pos = pos - 1;
        }
        let ghost mid = idx@;
        let ghost xv = entries@[x as int].1@;
        idx.insert(pos, x);
        proof {
            lemma_reinsert_multiset(before, i as int, pos as int);
            assert forall|y: int| 0 <= y < idx@.len() implies (#[trigger] idx@[y]) < entries@.len() by {
                if y < pos {
                    assert(idx@[y] == mid[y]);
                } else if y > pos {
                    assert(idx@[y] == mid[y - 1]);
                }
            }
            let t = paths_at(before, entries@).take(i as int);
            assert(t =~= paths_at(mid, entries@).take(i as int));
            if pos > 0 {
                assert(lex_le(t[pos - 1], xv));
            }
            assert forall|k: int| pos <= k < t.len() implies !lex_le(#[trigger] t[k], xv) by {
                assert(t[k] == entries@[mid[k] as int].1@);
            }
            lemma_insert_sorted(t, xv, pos as int);
            assert(paths_at(idx@, entries@).take(i + 1) =~= t.insert(pos as int, xv));
        }
        i = i + 1;
    }
    proof {
        assert(paths_at(idx@, entries@).take(n as int) =~= paths_at(idx@, entries@));
    }
}

/// The indices of the listed entries that are last occurrences of their
/// path, ascending.
fn kept_indices(entries: &Vec<(&EntryRow, &[u8])>, l: Ghost<Seq<(EntryRow, Seq<u8>)>>) -> (kept:
    Vec<usize>)
    requires
        entries@.len() == l@.len(),
        forall|k: int|
            0 <= k < entries@.len() ==> *(#[trigger] entries@[k]).0 == l@[k].0 && entries@[k].1@
                == l@[k].1,
    ensures
        kept@.len() == kept_count(l@, l@.len() as int),
        forall|x: int|
            0 <= x < kept@.len() ==> (#[trigger] kept@[x]) < l@.len() && is_last_occurrence(
                l@,
                kept@[x] as int,
            ),
        forall|k: int| 0 <= k < l@.len() && is_last_occurrence(l@, k) ==> kept@.contains(k as usize),
        kept@.no_duplicates(),
{
    let ghost l = l@;
    let total = entries.len();
    let mut kept: Vec<usize> = Vec::new();
    let mut i: usize = 0;
    while i < total
        invariant
            i <= total == entries@.len() == l.len(),
            forall|k: int|
                0 <= k < entries@.len() ==> *(#[trigger] entries@[k]).0 == l[k].0 && entries@[k].1@
                    == l[k].1,
            kept@.len() == kept_count(l, i as int),
            kept@.len() <= i,
            forall|x: int|
                0 <= x < kept@.len() ==> (#[trigger] kept@[x]) < i && is_last_occurrence(
                    l,
                    kept@[x] as int,
                ),
            forall|k: int| 0 <= k < i && is_last_occurrence(l, k) ==> kept@.contains(k as usize),
            kept@.no_duplicates(),
        decreases total - i,
    {
        let last = last_occurrence(entries, i);
        proof {
            assert(last == is_last_occurrence(l, i as int)) by {
                if last {
                    assert forall|j: int| i < j < l.len() implies trim_nul(#[trigger] l[j].1)
                        != trim_nul(l[i as int].1) by {
                        assert(trim_nul(entries@[j].1@) != trim_nul(entries@[i as int].1@));
                    }
                } else {
                    let j = choose|j: int|
                        i < j < entries@.len() && !(trim_nul((#[trigger] entries@[j]).1@)
                            != trim_nul(entries@[i as int].1@));
                    assert(l[j].1 == entries@[j].1@);
                }
            }
        }
        if last {
            let ghost before = kept@;
            kept.push(i);
            proof {
                assert forall|k: int| 0 <= k < i + 1 && is_last_occurrence(l, k) implies kept@.contains(
                    k as usize,
                ) by {
                    if k < i {
                        let x = choose|x: int| 0 <= x < before.len() && before[x] == k as usize;
                        assert(kept@[x] == k as usize);
                    } else {
                        assert(kept@[before.len() as int] == i);
                    }
                }
            }
        } else {
            proof {
                assert forall|k: int| 0 <= k < i + 1 && is_last_occurrence(l, k) implies kept@.contains(
                    k as usize,
                ) by {
                    if k == i {
                        assert(false);
                    }
                }
            }
        }
        i = i + 1;
    }
    kept
}

/// Whether some byte string of `v` equals `d`.
pub open spec fn holds(v: Seq<Vec<u8>>, d: Seq<u8>) -> bool {
    exists|k: int| 0 <= k < v.len() && (#[trigger] v[k])@ == d
}

/// The name a directory entry gives its directory: its stored path
/// without a trailing slash.
pub open spec fn dir_name(p: Seq<u8>) -> Seq<u8> {
    let t = trim_nul(p);
    if t.len() > 0 && t[t.len() - 1] == 0x2F {
        t.drop_last()
    } else {
        t
    }
}

/// Whether a kept directory entry among the first `x` names directory `d`.
pub open spec fn named_dir_upto(
    entries: Seq<(&EntryRow, &[u8])>,
    kept: Seq<usize>,
    x: int,
    d: Seq<u8>,
) -> bool {
    exists|y: int|
        0 <= y < x && spec_kind_of_mode(entries[kept[y] as int].0.mode) == EntryKind::Directory
            && dir_name(#[trigger] entries[kept[y] as int].1@) == d
}

/// Whether `d` is the part of stored path `p` before its slash at `j`
/// (a slash other than a leading one).
pub open spec fn parent_at(p: Seq<u8>, j: int, d: Seq<u8>) -> bool {
    let t = trim_nul(p);
    1 <= j < t.len() && t[j] == 0x2F && d == t.take(j)
}

/// Whether `d` is a parent directory of a kept entry's path.
pub open spec fn parent_of_kept(entries: Seq<(&EntryRow, &[u8])>, kept: Seq<usize>, d: Seq<u8>) -> bool {
    exists|y: int, j: int|
        0 <= y < kept.len() && #[trigger] parent_at(entries[kept[y] as int].1@, j, d)
}

/// Whether `d` is a directory that compaction must add: a parent of a
/// kept entry's path that no kept directory entry names.
pub open spec fn missing_dir(entries: Seq<(&EntryRow, &[u8])>, kept: Seq<usize>, d: Seq<u8>) -> bool {
    parent_of_kept(entries, kept, d) && !named_dir_upto(entries, kept, kept.len() as int, d)
}

/// The parent directories of the kept entries' paths that no kept
/// directory entry names, each once, sorted.
fn missing_parent_dirs(entries: &Vec<(&EntryRow, &[u8])>, kept: &Vec<usize>) -> (missing: Vec<
    Vec<u8>,
>)
    requires
        forall|y: int| 0 <= y < kept@.len() ==> (#[trigger] kept@[y]) < entries@.len(),
    ensures
        forall|k: int| 0 <= k < missing@.len() ==> missing_dir(entries@, kept@, (#[trigger] missing@[k])@),
        forall|d: Seq<u8>| missing_dir(entries@, kept@, d) ==> holds(missing@, d),
        byte_views(missing@).no_duplicates(),
        sorted_by(byte_views(missing@), bytes_order()),
{
    let mut explicit_dirs: Vec<Vec<u8>> = Vec::new();
    let mut x: usize = 0;
    while x < kept.len()
        invariant
            x <= kept@.len(),
            forall|y: int| 0 <= y < kept@.len() ==> (#[trigger] kept@[y]) < entries@.len(),
            forall|d: Seq<u8>| holds(explicit_dirs@, d) <==> named_dir_upto(entries@, kept@, x as int, d),
        decreases kept@.len() - x,
    {
        let (row, p) = entries[kept[x]];
        if row.kind() == EntryKind::Directory {
            let n = crate::archive_path::nul_trimmed_len(p);
            let end = if n > 0 && p[n - 1] == 0x2F {
                n - 1
            } else {
                n
            };
            let mut d: Vec<u8> = Vec::new();
            crate::text::extend_bytes(&mut d, &p[0..end]);
            let ghost before = explicit_dirs@;
            explicit_dirs.push(d);
            proof {
                let nd = dir_name(p@);
                assert(d@ =~= nd);
                assert forall|e: Seq<u8>| holds(explicit_dirs@, e) <==> named_dir_upto(
                    entries@,
                    kept@,
                    x + 1,
                    e,
                ) by {
                    if holds(explicit_dirs@, e) {
                        let k = choose|k: int| 0 <= k < explicit_dirs@.len() && (#[trigger] explicit_dirs@[k])@ == e;
                        if k < before.len() {
                            assert(before[k] == explicit_dirs@[k]);
                            assert(holds(before, e));
                        } else {
                            assert(entries@[kept@[x as int] as int].1@ == p@);
                        }
                    }
                    if named_dir_upto(entries@, kept@, x + 1, e) {
                        let y = choose|y: int|
                            0 <= y < x + 1 && spec_kind_of_mode(entries@[kept@[y] as int].0.mode)
                                == EntryKind::Directory && dir_name(#[trigger] entries@[kept@[y] as int].1@) == e;
                        if y < x {
                            assert(named_dir_upto(entries@, kept@, x as int, e));
                            assert(holds(before, e));
                            let k = choose|k: int| 0 <= k < before.len() && (#[trigger] before[k])@ == e;
                            assert(explicit_dirs@[k] == before[k]);
                        } else {
                            assert(explicit_dirs@[before.len() as int]@ == e);
                        }
                    }
                }
            }
        } else {
            proof {
                assert forall|e: Seq<u8>| holds(explicit_dirs@, e) <==> named_dir_upto(
                    entries@,
                    kept@,
                    x + 1,
                    e,
                ) by {
                    if named_dir_upto(entries@, kept@, x + 1, e) {
                        let y = choose|y: int|
                            0 <= y < x + 1 && spec_kind_of_mode(entries@[kept@[y] as int].0.mode)
                                == EntryKind::Directory && dir_name(#[trigger] entries@[kept@[y] as int].1@) == e;
                        assert(y < x);
                        assert(named_dir_upto(entries@, kept@, x as int, e));
                    }
                }
            }
        }
        x = x + 1;
    }
    let mut missing: Vec<Vec<u8>> = Vec::new();
    let mut x: usize = 0;
    while x < kept.len()
        invariant
            x <= kept@.len(),
            forall|y: int| 0 <= y < kept@.len() ==> (#[trigger] kept@[y]) < entries@.len(),
            forall|d: Seq<u8>| holds(explicit_dirs@, d) <==> named_dir_upto(entries@, kept@, kept@.len() as int, d),
            forall|k: int| 0 <= k < missing@.len() ==> missing_dir(entries@, kept@, (#[trigger] missing@[k])@),
            byte_views(missing@).no_duplicates(),
            forall|y: int, j: int, d: Seq<u8>|
                0 <= y < x && #[trigger] parent_at(entries@[kept@[y] as int].1@, j, d) ==> holds(explicit_dirs@, d)
                    || holds(missing@, d),
        decreases kept@.len() - x,
    {
        let p = entries[kept[x]].1;
        let ghost pv = p@;
        let n = crate::archive_path::nul_trimmed_len(p);
        let ghost t = trim_nul(pv);
        let mut end = n;
        while end > 0
            invariant
                end <= n <= p@.len(),
                pv == p@,
                t == trim_nul(pv),
                t == pv.subrange(0, n as int),
                x < kept@.len(),
                pv == entries@[kept@[x as int] as int].1@,
                forall|y: int| 0 <= y < kept@.len() ==> (#[trigger] kept@[y]) < entries@.len(),
                forall|d: Seq<u8>| holds(explicit_dirs@, d) <==> named_dir_upto(entries@, kept@, kept@.len() as int, d),
                forall|k: int| 0 <= k < missing@.len() ==> missing_dir(entries@, kept@, (#[trigger] missing@[k])@),
                byte_views(missing@).no_duplicates(),
                forall|y: int, j: int, d: Seq<u8>|
                    0 <= y < x && #[trigger] parent_at(entries@[kept@[y] as int].1@, j, d) ==> holds(explicit_dirs@, d)
                        || holds(missing@, d),
                forall|j: int, d: Seq<u8>|
                    end <= j && parent_at(pv, j, d) ==> holds(explicit_dirs@, d) || holds(missing@, d),
            decreases end,
        {
            let ghost old_end = end;
            let mut pos = end;
            while pos > 0 && p[pos - 1] != 0x2F
                invariant
                    pos <= end <= p@.len(),
                    forall|q: int| pos <= q < end ==> p@[q] != 0x2F,
                decreases pos,
            {
                pos = pos - 1;
            }
            if pos == 0 {
                end = 0;
                proof {
                    assert forall|j2: int, d: Seq<u8>| end <= j2 && parent_at(pv, j2, d) implies holds(
                        explicit_dirs@,
                        d,
                    ) || holds(missing@, d) by {
                        if j2 < old_end {
                            assert(pv[j2] == p@[j2]);
                        }
                    }
                }
            } else {
                let parent = &p[0..pos - 1];
                if parent.len() == 0 {
                    end = 0;
                    proof {
                        assert forall|j2: int, d: Seq<u8>| end <= j2 && parent_at(pv, j2, d) implies holds(
                            explicit_dirs@,
                            d,
                        ) || holds(missing@, d) by {
                            if j2 < old_end {
                                assert(pv[j2] == p@[j2]);
                            }
                        }
                    }
                } else {
                    let ghost j = pos - 1;
                    proof {
                        assert(parent@ =~= t.take(j as int));
                        assert(t[j as int] == p@[j as int]);
                        assert(parent_at(pv, j as int, parent@));
                        assert(parent_of_kept(entries@, kept@, parent@));
                    }
                    if !contains_bytes(&explicit_dirs, parent) && !contains_bytes(&missing, parent) {
                        let mut d: Vec<u8> = Vec::new();
                        crate::text::extend_bytes(&mut d, parent);
                        let ghost before = missing@;
                        missing.push(d);
                        proof {
                            assert(byte_views(missing@) =~= byte_views(before).push(parent@));
                            assert(!byte_views(before).contains(parent@)) by {
                                if byte_views(before).contains(parent@) {
                                    let k = choose|k: int|
                                        0 <= k < byte_views(before).len() && byte_views(before)[k] == parent@;
                                    assert(before[k]@ == parent@);
                                }
                            }
                            assert(missing@[before.len() as int]@ == parent@);
                            assert(!holds(explicit_dirs@, parent@));
                            assert(!named_dir_upto(entries@, kept@, kept@.len() as int, parent@));
                            assert forall|k: int| 0 <= k < missing@.len() implies missing_dir(
                                entries@,
                                kept@,
                                (#[trigger] missing@[k])@,
                            ) by {
                                if k < before.len() {
                                    assert(missing@[k] == before[k]);
                                }
                            }
                            assert forall|e: Seq<u8>| holds(before, e) implies holds(missing@, e) by {
                                let k = choose|k: int| 0 <= k < before.len() && (#[trigger] before[k])@ == e;
                                assert(missing@[k] == before[k]);
                            }
                            assert(holds(missing@, parent@));
                        }
                    }
                    end = pos - 1;
                    proof {
                        assert(holds(explicit_dirs@, parent@) || holds(missing@, parent@));
                        assert forall|j2: int, d: Seq<u8>| end <= j2 && parent_at(pv, j2, d) implies holds(
                            explicit_dirs@,
                            d,
                        ) || holds(missing@, d) by {
                            if j2 == j {
                                assert(d =~= parent@);
                            } else if j2 < old_end {
                                assert(pv[j2] == p@[j2]);
                            }
                        }
                    }
                }
            }
        }
        x = x + 1;
    }
    let ghost unsorted = missing@;
    sort_byte_strings(&mut missing);
    proof {
        let u = byte_views(unsorted);
        let m = byte_views(missing@);
        u.to_multiset_ensures();
        m.to_multiset_ensures();
        u.lemma_multiset_has_no_duplicates();
        m.lemma_multiset_has_no_duplicates_conv();
        assert forall|k: int| 0 <= k < missing@.len() implies missing_dir(
            entries@,
            kept@,
            (#[trigger] missing@[k])@,
        ) by {
            assert(m[k] == missing@[k]@);
            assert(m.contains(m[k]));
            assert(m.to_multiset().count(m[k]) > 0);
            assert(u.to_multiset().count(m[k]) > 0);
            assert(u.contains(m[k]));
            let i = choose|i: int| 0 <= i < u.len() && u[i] == m[k];
            assert(unsorted[i]@ == u[i]);
        }
        assert forall|d: Seq<u8>| missing_dir(entries@, kept@, d) implies holds(missing@, d) by {
            let (y, j) = choose|y: int, j: int|
                0 <= y < kept@.len() && #[trigger] parent_at(entries@[kept@[y] as int].1@, j, d);
            assert(holds(explicit_dirs@, d) || holds(unsorted, d));
            let i = choose|i: int| 0 <= i < unsorted.len() && (#[trigger] unsorted[i])@ == d;
            assert(u[i] == d);
            assert(u.contains(d));
            assert(u.to_multiset().count(d) > 0);
            assert(m.to_multiset().count(d) > 0);
            assert(m.contains(d));
            let k = choose|k: int| 0 <= k < m.len() && m[k] == d;
            assert(missing@[k]@ == d);
        }
    }
    missing
}

/// Whether no two listed entries share an entry ID (no hard links).
pub open spec fn distinct_ids(l: Seq<(EntryRow, Seq<u8>)>) -> bool {
    forall|x: int, y: int| 0 <= x < y < l.len() ==> (#[trigger] l[x]).0.entry_id != (#[trigger] l[y]).0.entry_id
}

/// Whether `d` is the part before a slash of a kept entry's path: a
/// directory above a kept entry.
pub open spec fn ancestor_of_kept(l: Seq<(EntryRow, Seq<u8>)>, d: Seq<u8>) -> bool {
    exists|k: int, j: int| 0 <= k < l.len() && is_last_occurrence(l, k) && #[trigger] parent_at(l[k].1, j, d)
}

/// Whether a kept directory entry names `d`.
pub open spec fn named_in(l: Seq<(EntryRow, Seq<u8>)>, d: Seq<u8>) -> bool {
    exists|k: int|
        0 <= k < l.len() && is_last_occurrence(l, k) && spec_kind_of_mode(l[k].0.mode)
            == EntryKind::Directory && #[trigger] dir_name(l[k].1) == d
}

/// The directory record key of directory path `d` in an archive with path
/// size `ps`.
pub open spec fn dir_key(d: Seq<u8>, ps: nat) -> Seq<u8> {
    padded(encode_utf8(normalize_chars(decode_utf8(d))->0), ps)
}

/// Whether archive `b` has a record with key `key` pointing at a row that
/// carries entry `e`'s mode and times, whose data block reads back as
/// `data`.
pub open spec fn carries(b: Archive, key: Seq<u8>, e: EntryRow, data: Option<Seq<u8>>) -> bool {
    exists|x: int, y: int|
        #![trigger b.spec_dirs()[x], b.spec_rows()[y]]
        0 <= x < b.spec_dirs().len() && 0 <= y < b.spec_rows().len() && b.spec_dirs()[x].0 == key
            && b.spec_dirs()[x].1 == b.spec_rows()[y].entry_id && b.spec_rows()[y].mode == e.mode
            && b.spec_rows()[y].created_time == e.created_time && b.spec_rows()[y].modified_time
            == e.modified_time && read_block(b.spec_bytes(), b.spec_rows()[y]) == data
}

/// Adding an entry keeps every record and row that carried an entry
/// carrying it, when the archive's bytes end at its write offset.
proof fn lemma_carries_after_add(
    before: Archive,
    after: Archive,
    key: Seq<u8>,
    e: EntryRow,
    d: Option<Seq<u8>>,
    nkey: Seq<u8>,
    data: Seq<u8>,
    mode: u32,
    ct: Option<i64>,
    mt: Option<i64>,
)
    requires
        before.wf(),
        before.spec_bytes().len() == before.spec_write_offset(),
        before.entry_added(after, nkey, data, mode, ct, mt),
        carries(before, key, e, d),
        d is Some,
    ensures
        carries(after, key, e, d),
{
    let (x, y) = choose|x: int, y: int|
        #![trigger before.spec_dirs()[x], before.spec_rows()[y]]
        0 <= x < before.spec_dirs().len() && 0 <= y < before.spec_rows().len() && before.spec_dirs()[x].0
            == key && before.spec_dirs()[x].1 == before.spec_rows()[y].entry_id && before.spec_rows()[y].mode
            == e.mode && before.spec_rows()[y].created_time == e.created_time
            && before.spec_rows()[y].modified_time == e.modified_time && read_block(
            before.spec_bytes(),
            before.spec_rows()[y],
        ) == d;
    let r = before.spec_rows()[y];
    before.lemma_blocks_after_write(data, r, after.spec_rows().last());
    assert(after.spec_dirs()[x] == before.spec_dirs()[x]);
    assert(after.spec_rows()[y] == after.spec_rows().drop_last()[y]);
    assert(after.spec_rows()[y] == r);
}

/// Syncing keeps every record and row that carried an entry carrying it,
/// when the archive's bytes end at its write offset.
proof fn lemma_carries_after_sync(pre: Archive, post: Archive, key: Seq<u8>, e: EntryRow, d: Option<Seq<u8>>)
    requires
        pre.synced_to(post),
        pre.spec_bytes().len() == pre.spec_write_offset(),
        carries(pre, key, e, d),
        d is Some,
    ensures
        carries(post, key, e, d),
{
    let (x, y) = choose|x: int, y: int|
        #![trigger pre.spec_dirs()[x], pre.spec_rows()[y]]
        0 <= x < pre.spec_dirs().len() && 0 <= y < pre.spec_rows().len() && pre.spec_dirs()[x].0 == key
            && pre.spec_dirs()[x].1 == pre.spec_rows()[y].entry_id && pre.spec_rows()[y].mode == e.mode
            && pre.spec_rows()[y].created_time == e.created_time && pre.spec_rows()[y].modified_time
            == e.modified_time && read_block(pre.spec_bytes(), pre.spec_rows()[y]) == d;
    let xj = lemma_in_permuted(pre.spec_dirs(), post.spec_dirs(), x);
    let yj = lemma_in_permuted(pre.spec_rows(), post.spec_rows(), y);
    pre.lemma_blocks_after_sync(post, pre.spec_rows()[y]);
    assert(post.spec_dirs()[xj] == pre.spec_dirs()[x]);
    assert(post.spec_rows()[yj] == pre.spec_rows()[y]);
}

/// The directories that compacting adds: those above a kept entry that
/// no kept directory entry names.
pub open spec fn missing_set(l: Seq<(EntryRow, Seq<u8>)>) -> Set<Seq<u8>> {
    Set::new(|d: Seq<u8>| ancestor_of_kept(l, d) && !named_in(l, d))
}

/// Whether archive `b` has a record with key `key` pointing at a row with
/// mode `mode`.
pub open spec fn recorded_with_mode(b: Archive, key: Seq<u8>, mode: u32) -> bool {
    exists|x: int, y: int|
        #![trigger b.spec_dirs()[x], b.spec_rows()[y]]
        0 <= x < b.spec_dirs().len() && 0 <= y < b.spec_rows().len() && b.spec_dirs()[x].0 == key
            && b.spec_dirs()[x].1 == b.spec_rows()[y].entry_id && b.spec_rows()[y].mode == mode
}

/// A record and its row survive pushing a record, and pushing a row or not.
proof fn lemma_recorded_push(before: Archive, after: Archive, key: Seq<u8>, mode: u32)
    requires
        recorded_with_mode(before, key, mode),
        after.spec_dirs().len() == before.spec_dirs().len() + 1,
        after.spec_dirs().drop_last() == before.spec_dirs(),
        after.spec_rows() == before.spec_rows() || (after.spec_rows().len() == before.spec_rows().len() + 1
            && after.spec_rows().drop_last() == before.spec_rows()),
    ensures
        recorded_with_mode(after, key, mode),
{
    let (x, y) = choose|x: int, y: int|
        #![trigger before.spec_dirs()[x], before.spec_rows()[y]]
        0 <= x < before.spec_dirs().len() && 0 <= y < before.spec_rows().len() && before.spec_dirs()[x].0
            == key && before.spec_dirs()[x].1 == before.spec_rows()[y].entry_id && before.spec_rows()[y].mode
            == mode;
    assert(after.spec_dirs()[x] == after.spec_dirs().drop_last()[x]);
    if after.spec_rows() != before.spec_rows() {
        assert(after.spec_rows()[y] == after.spec_rows().drop_last()[y]);
    }
}

/// A record and its row survive a reordering of both tables.
proof fn lemma_recorded_permuted(pre: Archive, post: Archive, key: Seq<u8>, mode: u32)
    requires
        recorded_with_mode(pre, key, mode),
        pre.spec_dirs().to_multiset() == post.spec_dirs().to_multiset(),
        pre.spec_rows().to_multiset() == post.spec_rows().to_multiset(),
    ensures
        recorded_with_mode(post, key, mode),
{
    let (x, y) = choose|x: int, y: int|
        #![trigger pre.spec_dirs()[x], pre.spec_rows()[y]]
        0 <= x < pre.spec_dirs().len() && 0 <= y < pre.spec_rows().len() && pre.spec_dirs()[x].0
            == key && pre.spec_dirs()[x].1 == pre.spec_rows()[y].entry_id && pre.spec_rows()[y].mode
            == mode;
    let xj = lemma_in_permuted(pre.spec_dirs(), post.spec_dirs(), x);
    let yj = lemma_in_permuted(pre.spec_rows(), post.spec_rows(), y);
    assert(post.spec_dirs()[xj] == pre.spec_dirs()[x]);
    assert(post.spec_rows()[yj] == pre.spec_rows()[y]);
}

/// The distinct trimmed paths listed in `l`.
pub open spec fn distinct_paths(l: Seq<(EntryRow, Seq<u8>)>) -> Set<Seq<u8>> {
    Set::new(|p: Seq<u8>| exists|k: int| 0 <= k < l.len() && #[trigger] tpath(l, k) == p)
}

/// The indices of the last occurrences among the first `n` entries.
pub open spec fn lasts(l: Seq<(EntryRow, Seq<u8>)>, n: int) -> Seq<int>
    decreases n,
{
    if n <= 0 {
        Seq::empty()
    } else {
        lasts(l, n - 1) + if is_last_occurrence(l, n - 1) {
            seq![n - 1]
        } else {
            Seq::<int>::empty()
        }
    }
}

proof fn lemma_lasts(l: Seq<(EntryRow, Seq<u8>)>, n: int)
    requires
        0 <= n <= l.len(),
    ensures
        lasts(l, n).len() == kept_count(l, n),
        forall|i: int| 0 <= i < lasts(l, n).len() ==> 0 <= #[trigger] lasts(l, n)[i] < n && is_last_occurrence(l, lasts(l, n)[i]),
        forall|i: int, j: int| 0 <= i < j < lasts(l, n).len() ==> #[trigger] lasts(l, n)[i] < #[trigger] lasts(l, n)[j],
        forall|k: int| 0 <= k < n && is_last_occurrence(l, k) ==> lasts(l, n).contains(k),
    decreases n,
{
    if n > 0 {
        lemma_lasts(l, n - 1);
        let prev = lasts(l, n - 1);
        if is_last_occurrence(l, n - 1) {
            assert(lasts(l, n) =~= prev.push(n - 1));
            assert(lasts(l, n)[prev.len() as int] == n - 1);
        } else {
            assert(lasts(l, n) =~= prev);
        }
        assert forall|k: int| 0 <= k < n && is_last_occurrence(l, k) implies lasts(l, n).contains(k) by {
            if k < n - 1 {
                assert(prev.contains(k));
                let i = choose|i: int| 0 <= i < prev.len() && prev[i] == k;
                assert(lasts(l, n)[i] == k);
            } else {
                assert(lasts(l, n)[prev.len() as int] == k);
            }
        }
    }
}

/// Every listed path has a last occurrence at or after any occurrence.
proof fn lemma_last_of(l: Seq<(EntryRow, Seq<u8>)>, k: int) -> (k2: int)
    requires
        0 <= k < l.len(),
    ensures
        k <= k2 < l.len(),
        is_last_occurrence(l, k2),
        tpath(l, k2) == tpath(l, k),
    decreases l.len() - k,
{
    if is_last_occurrence(l, k) {
        k
    } else {
        let j = choose|j: int| k < j < l.len() && trim_nul(#[trigger] l[j].1) == trim_nul(l[k].1);
        lemma_last_of(l, j)
    }
}

/// Compacting keeps one entry per distinct path: the last occurrences are
/// as many as the distinct paths.
pub proof fn lemma_kept_count_is_distinct(l: Seq<(EntryRow, Seq<u8>)>)
    ensures
        distinct_paths(l).finite(),
        kept_count(l, l.len() as int) == distinct_paths(l).len(),
{
    let n = l.len() as int;
    lemma_lasts(l, n);
    let ix = lasts(l, n);
    let ps = Seq::new(ix.len(), |i: int| tpath(l, ix[i]));
    assert forall|a: int, b: int| 0 <= a < ps.len() && 0 <= b < ps.len() && a != b implies #[trigger] ps[a]
        != #[trigger] ps[b] by {
        if a < b {
            assert(ix[a] < ix[b]);
            assert(is_last_occurrence(l, ix[a]));
            assert(trim_nul(l[ix[b]].1) != trim_nul(l[ix[a]].1));
        } else {
            assert(ix[b] < ix[a]);
            assert(is_last_occurrence(l, ix[b]));
            assert(trim_nul(l[ix[a]].1) != trim_nul(l[ix[b]].1));
        }
    }
    assert(ps.no_duplicates());
    assert forall|p: Seq<u8>| #[trigger] distinct_paths(l).contains(p) <==> ps.to_set().contains(p) by {
        if distinct_paths(l).contains(p) {
            let k = choose|k: int| 0 <= k < l.len() && #[trigger] tpath(l, k) == p;
            let k2 = lemma_last_of(l, k);
            assert(ix.contains(k2));
            let i = choose|i: int| 0 <= i < ix.len() && ix[i] == k2;
            assert(ps[i] == p);
        }
        if ps.to_set().contains(p) {
            let i = choose|i: int| 0 <= i < ps.len() && ps[i] == p;
            assert(tpath(l, ix[i]) == p);
        }
    }
    assert(distinct_paths(l) =~= ps.to_set());
    ps.unique_seq_to_set();
}

/// An element of a sequence is in any reordering of it.
proof fn lemma_in_permuted<A>(a: Seq<A>, b: Seq<A>, i: int) -> (j: int)
    requires
        a.to_multiset() == b.to_multiset(),
        0 <= i < a.len(),
    ensures
        0 <= j < b.len(),
        b[j] == a[i],
{
    a.to_multiset_ensures();
    b.to_multiset_ensures();
    assert(a.contains(a[i]));
    assert(a.to_multiset().count(a[i]) > 0);
    assert(b.contains(a[i]));
    choose|j: int| 0 <= j < b.len() && b[j] == a[i]
}

/// The total length of the first `n` trimmed paths listed in `l`.
pub open spec fn path_total(l: Seq<(EntryRow, Seq<u8>)>, n: int) -> nat
    decreases n,
{
    if n <= 0 {
        0
    } else {
        path_total(l, n - 1) + tpath(l, n - 1).len()
    }
}

/// Whether compacting the archive held in `b` is owed success: it opens;
/// every entry's path is valid UTF-8, normalizes and fits the path size,
/// and so does every directory above a kept entry; no two entries share an
/// ID (no hard links); every data block lies inside the bytes; and the new
/// archive (each block with its padding, a record for each entry and each
/// missing directory, whose number the total path length bounds) fits in
/// memory.
pub open spec fn compact_ready(b: Seq<u8>) -> bool {
    match open_outcome(b, true) {
        Err(_) => false,
        Ok(o) => {
            let l = listed(o.1, o.2);
            let len = l.len();
            let a = path_total(l, len as int);
            &&& forall|k: int|
                0 <= k < len ==> {
                    let t = #[trigger] tpath(l, k);
                    &&& valid_utf8(t)
                    &&& normalize_chars(decode_utf8(t)) is Some
                    &&& encode_utf8(normalize_chars(decode_utf8(t))->0).len() <= o.0.path_size
                    &&& read_block(b, l[k].0) is Some
                }
            &&& forall|d: Seq<u8>|
                #[trigger] ancestor_of_kept(l, d) ==> {
                    &&& valid_utf8(d)
                    &&& normalize_chars(decode_utf8(d)) is Some
                    &&& encode_utf8(normalize_chars(decode_utf8(d))->0).len() <= o.0.path_size
                }
            &&& distinct_ids(l)
            &&& len + a + 1 < u32::MAX
            &&& 8 + len * (65536 + b.len()) + 65536 + b.len() + 64 * (len + a) + (len + a) * (
            o.0.path_size + 4) + 64 <= isize::MAX
        },
    }
}

/// Path lengths add up: the paths before `k` end at or before where `k2`'s
/// begin.
proof fn lemma_path_total_mono(l: Seq<(EntryRow, Seq<u8>)>, k: int, k2: int)
    requires
        0 <= k < k2,
    ensures
        path_total(l, k) + tpath(l, k).len() <= path_total(l, k2),
    decreases k2 - k,
{
    if k + 1 < k2 {
        lemma_path_total_mono(l, k, k2 - 1);
    }
}

/// Whether `d` is the start of some listed path.
pub open spec fn prefix_of_some(l: Seq<(EntryRow, Seq<u8>)>, d: Seq<u8>) -> bool {
    exists|k: int, j: int| 0 <= k < l.len() && 0 <= j < tpath(l, k).len() && d == #[trigger] tpath(l, k).take(j)
}

/// The missing directories are directories above kept entries, and there
/// are at most as many as the kept paths' total length.
proof fn lemma_missing_bound(
    l: Seq<(EntryRow, Seq<u8>)>,
    entries: Seq<(&EntryRow, &[u8])>,
    kept: Seq<usize>,
    ds: Seq<Seq<u8>>,
)
    requires
        entries.len() == l.len(),
        forall|k: int| 0 <= k < entries.len() ==> *(#[trigger] entries[k]).0 == l[k].0 && entries[k].1@ == l[k].1,
        forall|y: int| 0 <= y < kept.len() ==> (#[trigger] kept[y]) < l.len() && is_last_occurrence(l, kept[y] as int),
        ds.no_duplicates(),
        forall|i: int| 0 <= i < ds.len() ==> missing_dir(entries, kept, #[trigger] ds[i]),
    ensures
        ds.len() <= path_total(l, l.len() as int),
        forall|i: int| 0 <= i < ds.len() ==> #[trigger] ancestor_of_kept(l, ds[i]),
{
    assert forall|i: int| 0 <= i < ds.len() implies #[trigger] prefix_of_some(l, ds[i]) by {
        let d = ds[i];
        assert(missing_dir(entries, kept, d));
        let (y, j) = choose|y: int, j: int|
            0 <= y < kept.len() && #[trigger] parent_at(entries[kept[y] as int].1@, j, d);
        let kk = kept[y] as int;
        assert(parent_at(l[kk].1, j, d));
        assert(tpath(l, kk) == trim_nul(l[kk].1));
        assert(0 <= kk < l.len() && 0 <= j < tpath(l, kk).len() && d == tpath(l, kk).take(j));
    }
    assert forall|i: int| 0 <= i < ds.len() implies #[trigger] ancestor_of_kept(l, ds[i]) by {
        let d = ds[i];
        assert(missing_dir(entries, kept, d));
        let (y, j) = choose|y: int, j: int|
            0 <= y < kept.len() && #[trigger] parent_at(entries[kept[y] as int].1@, j, d);
        let kk = kept[y] as int;
        assert(parent_at(l[kk].1, j, d));
        assert(tpath(l, kk) == trim_nul(l[kk].1));
        assert(0 <= kk < l.len() && 0 <= j < tpath(l, kk).len() && d == tpath(l, kk).take(j));
    }
    lemma_prefix_count(l, ds);
}

/// The missing directories are exactly the directories that compacting
/// adds, once each.
proof fn lemma_missing_set(
    l: Seq<(EntryRow, Seq<u8>)>,
    entries: Seq<(&EntryRow, &[u8])>,
    kept: Seq<usize>,
    ds: Seq<Seq<u8>>,
)
    requires
        entries.len() == l.len(),
        l.len() <= usize::MAX,
        forall|k: int| 0 <= k < entries.len() ==> *(#[trigger] entries[k]).0 == l[k].0 && entries[k].1@ == l[k].1,
        forall|y: int| 0 <= y < kept.len() ==> (#[trigger] kept[y]) < l.len() && is_last_occurrence(l, kept[y] as int),
        forall|k: int| 0 <= k < l.len() && is_last_occurrence(l, k) ==> kept.contains(k as usize),
        ds.no_duplicates(),
        forall|i: int| 0 <= i < ds.len() ==> missing_dir(entries, kept, #[trigger] ds[i]),
        forall|d: Seq<u8>| missing_dir(entries, kept, d) ==> ds.contains(d),
    ensures
        ds.len() == missing_set(l).len(),
        missing_set(l).finite(),
{
    assert forall|d: Seq<u8>| #[trigger] missing_set(l).contains(d) <==> ds.to_set().contains(d) by {
        if missing_set(l).contains(d) {
            let (k, j) = choose|k: int, j: int|
                0 <= k < l.len() && is_last_occurrence(l, k) && #[trigger] parent_at(l[k].1, j, d);
            assert(kept.contains(k as usize));
            let y = choose|y: int| 0 <= y < kept.len() && kept[y] == k as usize;
            assert(kept[y] as int == k);
            assert(entries[k].1@ == l[k].1);
            assert(parent_at(entries[kept[y] as int].1@, j, d));
            assert(parent_of_kept(entries, kept, d));
            if named_dir_upto(entries, kept, kept.len() as int, d) {
                let y2 = choose|y2: int|
                    0 <= y2 < kept.len() && spec_kind_of_mode(entries[kept[y2] as int].0.mode)
                        == EntryKind::Directory && dir_name(#[trigger] entries[kept[y2] as int].1@) == d;
                let k2 = kept[y2] as int;
                assert(entries[k2].1@ == l[k2].1);
                assert(dir_name(l[k2].1) == d);
            }
            assert(missing_dir(entries, kept, d));
        }
        if ds.to_set().contains(d) {
            let i = choose|i: int| 0 <= i < ds.len() && ds[i] == d;
            assert(missing_dir(entries, kept, ds[i]));
            let (y, j) = choose|y: int, j: int|
                0 <= y < kept.len() && #[trigger] parent_at(entries[kept[y] as int].1@, j, d);
            let kk = kept[y] as int;
            assert(parent_at(l[kk].1, j, d));
            assert(ancestor_of_kept(l, d));
            if named_in(l, d) {
                let k2 = choose|k2: int|
                    0 <= k2 < l.len() && is_last_occurrence(l, k2) && spec_kind_of_mode(l[k2].0.mode)
                        == EntryKind::Directory && #[trigger] dir_name(l[k2].1) == d;
                assert(kept.contains(k2 as usize));
                let y2 = choose|y2: int| 0 <= y2 < kept.len() && kept[y2] == k2 as usize;
                assert(kept[y2] as int == k2);
                assert(entries[k2].1@ == l[k2].1);
                assert(dir_name(entries[kept[y2] as int].1@) == d);
                assert(named_dir_upto(entries, kept, kept.len() as int, d));
            }
        }
    }
    assert(missing_set(l) =~= ds.to_set());
    ds.unique_seq_to_set();
}

/// Distinct parts of paths before a slash number at most the total path
/// length.
proof fn lemma_prefix_count(l: Seq<(EntryRow, Seq<u8>)>, ds: Seq<Seq<u8>>)
    requires
        ds.no_duplicates(),
        forall|i: int| 0 <= i < ds.len() ==> #[trigger] prefix_of_some(l, ds[i]),
    ensures
        ds.len() <= path_total(l, l.len() as int),
{
    let pick = |i: int|
        choose|k: int, j: int| 0 <= k < l.len() && 0 <= j < tpath(l, k).len() && ds[i] == tpath(l, k).take(j);
    let codes = Seq::new(ds.len(), |i: int| path_total(l, pick(i).0) + pick(i).1);
    let total = path_total(l, l.len() as int);
    assert forall|i: int| 0 <= i < ds.len() implies {
        let (k, j) = #[trigger] pick(i);
        0 <= k < l.len() && 0 <= j < tpath(l, k).len() && ds[i] == tpath(l, k).take(j)
    } by {
        assert(prefix_of_some(l, ds[i]));
    }
    assert forall|i: int| 0 <= i < ds.len() implies 0 <= #[trigger] codes[i] < total by {
        let (k, j) = pick(i);
        lemma_path_total_mono(l, k, l.len() as int);
    }
    assert forall|a: int, b: int| 0 <= a < ds.len() && 0 <= b < ds.len() && a != b implies #[trigger] codes[a]
        != #[trigger] codes[b] by {
        let (ka, ja) = pick(a);
        let (kb, jb) = pick(b);
        assert(ds[a] != ds[b]);
        if ka < kb {
            lemma_path_total_mono(l, ka, kb);
        } else if kb < ka {
            lemma_path_total_mono(l, kb, ka);
        }
    }
    assert(codes.no_duplicates());
    codes.unique_seq_to_set();
    vstd::set_lib::lemma_int_range(0, total as int);
    assert(codes.to_set().subset_of(vstd::set_lib::set_int_range(0, total as int)));
    vstd::set_lib::lemma_len_subset(codes.to_set(), vstd::set_lib::set_int_range(0, total as int));
}

/// Compacts an archive held in `bytes`: keeps only the last entry of each
/// path, adds any missing parent directories, writes the kept entries
/// sorted by path into a new archive with the same alignment and path
/// size (preserving timestamps, and hard links as hard links), and syncs
/// it.
///
/// On success, the new archive is the synced form of an archive whose
/// directory table holds, for every kept entry, its normalized path.
#[verifier::rlimit(50)]
pub fn compact(bytes: Vec<u8>) -> (r: Result<(Archive, CompactStats), BaleError>)
    ensures
        open_outcome(bytes@, true) matches Err(e) ==> r == Err::<(Archive, CompactStats), BaleError>(e),
        compact_ready(bytes@) ==> r is Ok,
        compact_ready(bytes@) && (open_outcome(bytes@, true) matches Ok(o) && forall|d: Seq<u8>|
            !ancestor_of_kept(listed(o.1, o.2), d)) ==> (r matches Ok((b, st)) && open_outcome(
            bytes@,
            true,
        ) matches Ok(o) && {
            let l = listed(o.1, o.2);
            &&& b.spec_rows().len() == kept_count(l, l.len() as int)
            &&& b.spec_dirs().len() == kept_count(l, l.len() as int)
        }),
        r matches Ok((b, st)) ==> (open_outcome(bytes@, true) matches Ok(o) && {
            let l = listed(o.1, o.2);
            &&& forall|d: Seq<u8>|
                ancestor_of_kept(l, d) && !named_in(l, d) ==> recorded_with_mode(
                    b,
                    dir_key(d, o.0.path_size as nat),
                    S_IFDIR | DEFAULT_DIR_PERM,
                )
            &&& b.spec_dirs().len() == kept_count(l, l.len() as int) + missing_set(l).len()
            &&& distinct_ids(l) ==> b.spec_rows().len() == kept_count(l, l.len() as int)
                + missing_set(l).len()
            &&& distinct_ids(l) ==> forall|k: int|
                0 <= k < l.len() && is_last_occurrence(l, k) ==> carries(
                    b,
                    rewritten_key(l[k].1, o.0.path_size as nat),
                    l[k].0,
                    read_block(bytes@, l[k].0),
                )
        }),
        r matches Ok((b, st)) ==> st.original_size == bytes@.len(),
        r matches Ok((b, st)) ==> st.compacted_size == b.spec_bytes().len(),
        r matches Ok((b, st)) ==> st.bytes_reclaimed == (if st.original_size >= st.compacted_size {
            st.original_size - st.compacted_size
        } else {
            0
        }),
        r matches Ok((b, st)) ==> b.wf() && !b.spec_dirty() && sorted_by(
            b.spec_dirs(),
            path_le(),
        ),
        r matches Ok((b, st)) ==> (open_outcome(bytes@, true) matches Ok(o) && {
            let l = listed(o.1, o.2);
            &&& st.entries_removed == l.len() - kept_count(l, l.len() as int)
            &&& st.entries_removed == l.len() - distinct_paths(l).len()
            &&& forall|k: int|
                0 <= k < l.len() && is_last_occurrence(l, k) ==> has_key(
                    b.spec_dirs(),
                    rewritten_key(l[k].1, o.0.path_size as nat),
                )
        }),
{
    let original_size = bytes.len() as u64;
    let ghost orig = bytes@;
    let reader = match Archive::open(bytes) {
        Ok(a) => a,
        Err(e) => return Err(e),
    };
    let alignment = match reader.alignment() {
        Ok(x) => x,
        Err(e) => return Err(e),
    };
    let ps = reader.path_size() as u16;
    let entries = reader.entries();
    let ghost l = listed(reader.spec_rows(), reader.spec_dirs());
    let total = entries.len();
    let mut kept = kept_indices(&entries, Ghost(l));
    let missing = missing_parent_dirs(&entries, &kept);
    let ghost unsorted = kept@;
    sort_by_path(&mut kept, &entries);
    proof {
        broadcast use vstd::seq_lib::group_to_multiset_ensures;

        vstd::seq_lib::to_multiset_len(kept@);
        vstd::seq_lib::to_multiset_len(unsorted);
        assert(kept@.len() == unsorted.len());
        assert forall|k: int| 0 <= k < l.len() && is_last_occurrence(l, k) implies kept@.contains(
            k as usize,
        ) by {
            assert(unsorted.contains(k as usize));
            assert(unsorted.to_multiset().count(k as usize) > 0);
            assert(kept@.to_multiset().count(k as usize) > 0);
        }
    }
    proof {
        lemma_kept_count_bound(l, l.len() as int);
    }
    let ghost ready = compact_ready(orig);
    let ghost dist = distinct_ids(l);
    proof {
        broadcast use vstd::seq_lib::group_to_multiset_ensures;

        unsorted.lemma_multiset_has_no_duplicates();
        assert forall|v: usize| kept@.to_multiset().contains(v) implies kept@.to_multiset().count(v)
            == 1 by {
            assert(unsorted.to_multiset().count(v) == kept@.to_multiset().count(v));
        }
        kept@.lemma_multiset_has_no_duplicates_conv();
        if ready {
            assert forall|i: int| 0 <= i < byte_views(missing@).len() implies missing_dir(
                entries@,
                unsorted,
                #[trigger] byte_views(missing@)[i],
            ) by {
                assert(byte_views(missing@)[i] == missing@[i]@);
            }
            lemma_missing_bound(l, entries@, unsorted, byte_views(missing@));
            assert forall|i: int| 0 <= i < missing@.len() implies #[trigger] ancestor_of_kept(l, missing@[i]@) by {
                assert(byte_views(missing@)[i] == missing@[i]@);
            }
            reader.lemma_wf_options();
        }
    }
    let entries_removed = total - kept.len();
    let mut writer = match Archive::create_with_options(alignment, ps) {
        Ok(w) => w,
        Err(e) => return Err(e),
    };
    let ghost wc = writer;
    let mut m: usize = 0;
    while m < missing.len()
        invariant
            orig == bytes@,
            open_outcome(orig, true) is Ok,
            m <= missing@.len(),
            ready == compact_ready(orig),
            ready ==> {
                &&& missing@.len() <= path_total(l, l.len() as int)
                &&& writer.spec_trailer().next_id == 1 + m
                &&& writer.spec_rows().len() == m
                &&& writer.spec_dirs().len() == m
                &&& writer.spec_write_offset() == 8
                &&& forall|i: int|
                    0 <= i < missing@.len() ==> #[trigger] ancestor_of_kept(l, missing@[i]@)
                &&& l == listed(open_outcome(orig, true)->Ok_0.1, open_outcome(orig, true)->Ok_0.2)
                &&& reader.spec_path_size() == open_outcome(orig, true)->Ok_0.0.path_size
            },
            writer.wf(),
            writer.spec_dirty(),
            writer.spec_path_size() == reader.spec_path_size(),
            writer.spec_bytes().len() == writer.spec_write_offset(),
            forall|m2: int|
                0 <= m2 < m ==> has_key(
                    writer.spec_dirs(),
                    dir_key(#[trigger] missing@[m2]@, reader.spec_path_size()),
                ),
            writer.spec_dirs().len() == m,
            writer.spec_rows().len() == m,
            forall|m2: int|
                0 <= m2 < m ==> recorded_with_mode(
                    writer,
                    dir_key(#[trigger] missing@[m2]@, reader.spec_path_size()),
                    S_IFDIR | DEFAULT_DIR_PERM,
                ),
        decreases missing@.len() - m,
    {
        proof {
            if ready {
                let d = missing@[m as int]@;
                assert(ancestor_of_kept(l, d));
                assert(m + 1 < u32::MAX);
            }
        }
        let dir_str = match str_from_utf8(missing[m].as_slice()) {
            Some(s) => s,
            None => return Err(BaleError::InvalidUtf8),
        };
        if !writer.has_room_for(0) {
            return Err(BaleError::Io);
        }
        let ghost wb = writer;
        match writer.add_directory(dir_str, S_IFDIR | DEFAULT_DIR_PERM) {
            Ok(()) => {},
            Err(e) => return Err(e),
        }
        proof {
            let ps0 = reader.spec_path_size();
            assert(writer.spec_dirs().last().0 == dir_key(missing@[m as int]@, ps0));
            assert forall|m2: int|
                0 <= m2 < m + 1 implies has_key(
                writer.spec_dirs(),
                dir_key(#[trigger] missing@[m2]@, ps0),
            ) by {
                if m2 < m {
                    let key = dir_key(missing@[m2]@, ps0);
                    let j = choose|j: int| 0 <= j < wb.spec_dirs().len() && wb.spec_dirs()[j].0 == key;
                    assert(writer.spec_dirs()[j] == wb.spec_dirs()[j]);
                } else {
                    assert(writer.spec_dirs()[writer.spec_dirs().len() - 1].0 == dir_key(
                        missing@[m2]@,
                        ps0,
                    ));
                }
            }
            assert(directory_mode(S_IFDIR | DEFAULT_DIR_PERM) == S_IFDIR | DEFAULT_DIR_PERM) by (bit_vector);
            assert(writer.spec_dirs().drop_last() =~= wb.spec_dirs());
            assert forall|m2: int|
                0 <= m2 < m + 1 implies recorded_with_mode(
                writer,
                dir_key(#[trigger] missing@[m2]@, ps0),
                S_IFDIR | DEFAULT_DIR_PERM,
            ) by {
                if m2 < m {
                    lemma_recorded_push(wb, writer, dir_key(missing@[m2]@, ps0), S_IFDIR | DEFAULT_DIR_PERM);
                } else {
                    let xi = writer.spec_dirs().len() - 1;
                    let yi = writer.spec_rows().len() - 1;
                    assert(writer.spec_dirs()[xi].1 == writer.spec_rows()[yi].entry_id);
                }
            }
        }
        m = m + 1;
    }
    let ghost w0 = writer;
    let mut written: Vec<(u32, String)> = Vec::new();
    let mut x: usize = 0;
    while x < kept.len()
        invariant
            orig == bytes@,
            open_outcome(orig, true) is Ok,
            x <= kept@.len(),
            forall|y: int| 0 <= y < kept@.len() ==> (#[trigger] kept@[y]) < entries@.len(),
            forall|k: int|
                0 <= k < entries@.len() ==> *(#[trigger] entries@[k]).0 == l[k].0 && entries@[k].1@
                    == l[k].1,
            entries@.len() == l.len(),
            writer.wf(),
            writer.spec_dirty(),
            writer.spec_path_size() == reader.spec_path_size(),
            reader.wf(),
            forall|y: int|
                0 <= y < x ==> has_key(
                    writer.spec_dirs(),
                    rewritten_key(l[kept@[y] as int].1, reader.spec_path_size()),
                ),
            kept@.len() <= l.len(),
            ready == compact_ready(orig),
            dist == distinct_ids(l),
            ready ==> dist,
            kept@.no_duplicates(),
            l == listed(open_outcome(orig, true)->Ok_0.1, open_outcome(orig, true)->Ok_0.2),
            reader.spec_path_size() == open_outcome(orig, true)->Ok_0.0.path_size,
            reader.spec_bytes() == orig,
            writer.spec_bytes().len() == writer.spec_write_offset(),
            forall|m2: int|
                0 <= m2 < missing@.len() ==> has_key(
                    writer.spec_dirs(),
                    dir_key(#[trigger] missing@[m2]@, reader.spec_path_size()),
                ),
            forall|m2: int|
                0 <= m2 < missing@.len() ==> recorded_with_mode(
                    writer,
                    dir_key(#[trigger] missing@[m2]@, reader.spec_path_size()),
                    S_IFDIR | DEFAULT_DIR_PERM,
                ),
            writer.spec_dirs().len() == missing@.len() + x,
            dist ==> writer.spec_rows().len() == missing@.len() + x,
            ready ==> {
                &&& missing@.len() <= path_total(l, l.len() as int)
                &&& writer.spec_trailer().next_id == 1 + missing@.len() + x
                &&& writer.spec_rows().len() == missing@.len() + x
                &&& writer.spec_dirs().len() == missing@.len() + x
                &&& writer.spec_write_offset() <= 8 + x * (65536 + orig.len())
            },
            dist ==> {
                &&& written@.len() == x
                &&& forall|v: int|
                    0 <= v < x ==> (#[trigger] written@[v]).0 == l[kept@[v] as int].0.entry_id
                &&& forall|y: int|
                    0 <= y < x ==> read_block(orig, l[#[trigger] kept@[y] as int].0) is Some && carries(
                        writer,
                        rewritten_key(l[kept@[y] as int].1, reader.spec_path_size()),
                        l[kept@[y] as int].0,
                        read_block(orig, l[kept@[y] as int].0),
                    )
            },
        decreases kept@.len() - x,
    {
        let (row, p) = entries[kept[x]];
        let ap = ArchivePath::from_null_padded_bytes(p);
        proof {
            if ready {
                let k0 = kept@[x as int] as int;
                assert(tpath(l, k0) == trim_nul(entries@[k0].1@));
                assert(valid_utf8(tpath(l, k0)));
            }
        }
        let path_str = match ap.to_str_checked() {
            Ok(s) => s,
            Err(e) => return Err(e),
        };
        let id = row.entry_id;
        let mut w: usize = 0;
        while w < written.len() && written[w].0 != id
            invariant
                orig == bytes@,
                open_outcome(orig, true) is Ok,
                w <= written@.len(),
            decreases written@.len() - w,
        {
            w = w + 1;
        }
        let ghost kx = kept@[x as int] as int;
        proof {
            if dist {
                assert(tpath(l, kx) == trim_nul(entries@[kx].1@));
                if w < written.len() {
                    let a = kept@[w as int] as int;
                    assert(written@[w as int].0 == l[a].0.entry_id);
                    assert(a != kx);
                    if a < kx {
                        assert(l[a].0.entry_id != l[kx].0.entry_id);
                    } else {
                        assert(l[kx].0.entry_id != l[a].0.entry_id);
                    }
                }
            }
        }
        let ghost before = writer;
        if w < written.len() {
            match writer.hard_link(written[w].1.as_str(), path_str) {
                Ok(()) => {},
                Err(e) => return Err(e),
            }
        } else {
            let data = match reader.read_data(row) {
                Ok(d) => d,
                Err(e) => return Err(e),
            };
            proof {
                if ready {
                    let n = orig.len();
                    let ln = l.len();
                    assert(x * (65536 + n) <= ln * (65536 + n)) by (nonlinear_arith)
                        requires
                            x < ln,
                    ;
                    assert(data@.len() <= n);
                    assert(writer.room_for(data@.len()));
                    assert(path_str@ == decode_utf8(tpath(l, kx)));
                    assert(writer.add_error(path_str@) is None);
                }
            }
            if !writer.has_room_for(data.len()) {
                return Err(BaleError::Io);
            }
            let options = AddEntryOptions {
                created_time: Some(row.created_time),
                modified_time: Some(row.modified_time),
            };
            match writer.add_entry_with_options(path_str, data, row.mode, options) {
                Ok(()) => {},
                Err(e) => return Err(e),
            }
            written.push((id, String::from_str(path_str)));
            proof {
                let ps0 = reader.spec_path_size();
                let rlast = writer.spec_rows().last();
                before.lemma_blocks_after_write(data@, rlast, rlast);
                if dist {
                    assert(data@ == read_block(orig, l[kx].0)->0);
                    assert forall|y: int|
                        0 <= y < x + 1 implies read_block(orig, l[#[trigger] kept@[y] as int].0) is Some
                        && carries(
                        writer,
                        rewritten_key(l[kept@[y] as int].1, ps0),
                        l[kept@[y] as int].0,
                        read_block(orig, l[kept@[y] as int].0),
                    ) by {
                        if y < x {
                            lemma_carries_after_add(
                                before,
                                writer,
                                rewritten_key(l[kept@[y] as int].1, ps0),
                                l[kept@[y] as int].0,
                                read_block(orig, l[kept@[y] as int].0),
                                encode_utf8(normalize_chars(path_str@)->0),
                                data@,
                                row.mode,
                                options.created_time,
                                options.modified_time,
                            );
                        } else {
                            let xi = writer.spec_dirs().len() - 1;
                            let yi = writer.spec_rows().len() - 1;
                            assert(writer.spec_dirs()[xi].0 == rewritten_key(l[kx].1, ps0));
                            assert(writer.spec_dirs()[xi].1 == writer.spec_rows()[yi].entry_id);
                        }
                    }
                }
            }
            proof {
                if ready {
                    let n = orig.len();
                    before.lemma_block_growth(data@);
                    assert((x + 1) * (65536 + n) == x * (65536 + n) + 65536 + n) by (nonlinear_arith);
                }
            }
        }
        proof {
            let key = rewritten_key(l[kept@[x as int] as int].1, reader.spec_path_size());
            assert(path_str@ == decode_utf8(trim_nul(l[kept@[x as int] as int].1)));
            assert forall|y: int|
                0 <= y < x + 1 implies has_key(
                writer.spec_dirs(),
                rewritten_key(l[kept@[y] as int].1, reader.spec_path_size()),
            ) by {
                let ky = rewritten_key(l[kept@[y] as int].1, reader.spec_path_size());
                assert(writer.spec_dirs().len() == before.spec_dirs().len() + 1);
                assert(writer.spec_dirs().drop_last() == before.spec_dirs());
                if y < x {
                    let k = choose|k: int|
                        0 <= k < before.spec_dirs().len() && before.spec_dirs()[k].0 == ky;
                    assert(writer.spec_dirs()[k] == before.spec_dirs()[k]);
                } else {
                    assert(writer.spec_dirs().last().0 == key);
                }
            }
            assert forall|m2: int|
                0 <= m2 < missing@.len() implies has_key(
                writer.spec_dirs(),
                dir_key(#[trigger] missing@[m2]@, reader.spec_path_size()),
            ) by {
                let mk = dir_key(missing@[m2]@, reader.spec_path_size());
                let k = choose|k: int| 0 <= k < before.spec_dirs().len() && before.spec_dirs()[k].0 == mk;
                assert(writer.spec_dirs()[k] == before.spec_dirs()[k]);
            }
            assert(writer.spec_dirs().drop_last() =~= before.spec_dirs());
            assert forall|m2: int|
                0 <= m2 < missing@.len() implies recorded_with_mode(
                writer,
                dir_key(#[trigger] missing@[m2]@, reader.spec_path_size()),
                S_IFDIR | DEFAULT_DIR_PERM,
            ) by {
                lemma_recorded_push(
                    before,
                    writer,
                    dir_key(missing@[m2]@, reader.spec_path_size()),
                    S_IFDIR | DEFAULT_DIR_PERM,
                );
            }
        }
        x = x + 1;
    }
    proof {
        if ready {
            let n = orig.len();
            let ln = l.len();
            let kn = kept@.len();
            let ps0 = reader.spec_path_size();
            assert(kn * (65536 + n) <= ln * (65536 + n)) by (nonlinear_arith)
                requires
                    kn <= ln,
            ;
            let mn = missing@.len();
            let a = path_total(l, ln as int);
            assert((mn + kn) * (ps0 + 4) <= (ln + a) * (ps0 + 4)) by (nonlinear_arith)
                requires
                    kn <= ln,
                    mn <= a,
            ;
            assert(writer.room_for_tables());
        }
    }
    if !writer.has_room_for_tables() {
        return Err(BaleError::Io);
    }
    let ghost pre = writer;
    match writer.sync() {
        Ok(()) => {},
        Err(e) => return Err(e),
    }
    proof {
        assert forall|k: int|
            0 <= k < l.len() && is_last_occurrence(l, k) implies has_key(
            pre.spec_dirs(),
            rewritten_key(l[k].1, reader.spec_path_size()),
        ) by {
            let y = choose|y: int| 0 <= y < kept@.len() && kept@[y] == k as usize;
        }
        assert(pre.spec_dirty());
    }
    proof {
        if ready {
            broadcast use vstd::seq_lib::group_to_multiset_ensures;

            vstd::seq_lib::to_multiset_len(pre.spec_rows());
            vstd::seq_lib::to_multiset_len(writer.spec_rows());
            vstd::seq_lib::to_multiset_len(pre.spec_dirs());
            vstd::seq_lib::to_multiset_len(writer.spec_dirs());
            if forall|d: Seq<u8>| !ancestor_of_kept(l, d) {
                if missing@.len() > 0 {
                    assert(ancestor_of_kept(l, missing@[0]@));
                }
                assert(writer.spec_rows().len() == kept@.len());
                assert(writer.spec_dirs().len() == kept@.len());
            }
        }
    }
    let compacted_size = writer.as_bytes().len() as u64;
    let bytes_reclaimed = if original_size >= compacted_size {
        original_size - compacted_size
    } else {
        0
    };
    proof {
        assert(reader.wf() && pre.wf() && pre.synced_to(writer));
        assert(reader.spec_bytes() == orig);
        assert(original_size == orig.len());
        assert(compacted_size == writer.spec_bytes().len());
    }
    let stats = CompactStats { original_size, compacted_size, entries_removed, bytes_reclaimed };
    proof {
        assert forall|k: int|
            0 <= k < l.len() && is_last_occurrence(l, k) implies has_key(
            writer.spec_dirs(),
            rewritten_key(l[k].1, reader.spec_path_size()),
        ) by {
            let key = rewritten_key(l[k].1, reader.spec_path_size());
            let j = choose|j: int| 0 <= j < pre.spec_dirs().len() && pre.spec_dirs()[j].0 == key;
            lemma_has_key_permuted(pre.spec_dirs(), writer.spec_dirs(), j);
        }
    }
    proof {
        let ps0 = reader.spec_path_size();
        assert(pre.synced_to(writer));
        assert forall|d: Seq<u8>| ancestor_of_kept(l, d) && !named_in(l, d) implies recorded_with_mode(
            writer,
            dir_key(d, ps0),
            S_IFDIR | DEFAULT_DIR_PERM,
        ) by {
            let (k, j) = choose|k: int, j: int|
                0 <= k < l.len() && is_last_occurrence(l, k) && #[trigger] parent_at(l[k].1, j, d);
            assert(unsorted.contains(k as usize));
            let y = choose|y: int| 0 <= y < unsorted.len() && unsorted[y] == k as usize;
            assert(parent_at(entries@[unsorted[y] as int].1@, j, d));
            assert(parent_of_kept(entries@, unsorted, d));
            if named_dir_upto(entries@, unsorted, unsorted.len() as int, d) {
                let y2 = choose|y2: int|
                    0 <= y2 < unsorted.len() && spec_kind_of_mode(entries@[unsorted[y2] as int].0.mode)
                        == EntryKind::Directory && dir_name(#[trigger] entries@[unsorted[y2] as int].1@)
                        == d;
                let k2 = unsorted[y2] as int;
                assert(dir_name(l[k2].1) == d);
                assert(named_in(l, d));
            }
            assert(missing_dir(entries@, unsorted, d));
            assert(holds(missing@, d));
            let m2 = choose|m2: int| 0 <= m2 < missing@.len() && (#[trigger] missing@[m2])@ == d;
            assert(has_key(pre.spec_dirs(), dir_key(missing@[m2]@, ps0)));
            lemma_recorded_permuted(pre, writer, dir_key(d, ps0), S_IFDIR | DEFAULT_DIR_PERM);
        }
        assert forall|d: Seq<u8>| missing_dir(entries@, unsorted, d) implies byte_views(missing@).contains(d) by {
            assert(holds(missing@, d));
            let m2 = choose|m2: int| 0 <= m2 < missing@.len() && (#[trigger] missing@[m2])@ == d;
            assert(byte_views(missing@)[m2] == d);
        }
        assert forall|i: int| 0 <= i < byte_views(missing@).len() implies missing_dir(
            entries@,
            unsorted,
            #[trigger] byte_views(missing@)[i],
        ) by {
            assert(byte_views(missing@)[i] == missing@[i]@);
        }
        lemma_missing_set(l, entries@, unsorted, byte_views(missing@));
        lemma_kept_count_is_distinct(l);
        {
            broadcast use vstd::seq_lib::group_to_multiset_ensures;

            vstd::seq_lib::to_multiset_len(pre.spec_rows());
            vstd::seq_lib::to_multiset_len(writer.spec_rows());
            vstd::seq_lib::to_multiset_len(pre.spec_dirs());
            vstd::seq_lib::to_multiset_len(writer.spec_dirs());
        }
        assert(byte_views(missing@).len() == missing@.len());
        if dist {
            assert forall|k: int| 0 <= k < l.len() && is_last_occurrence(l, k) implies carries(
                writer,
                rewritten_key(l[k].1, ps0),
                l[k].0,
                read_block(orig, l[k].0),
            ) by {
                assert(kept@.contains(k as usize));
                let y = choose|y: int| 0 <= y < kept@.len() && kept@[y] == k as usize;
                assert(read_block(orig, l[kept@[y] as int].0) is Some);
                lemma_carries_after_sync(
                    pre,
                    writer,
                    rewritten_key(l[k].1, ps0),
                    l[k].0,
                    read_block(orig, l[k].0),
                );
            }
        }
    }
    Ok((writer, stats))
}


/// The trimmed path of listed entry `k`.
pub open spec fn tpath(l: Seq<(EntryRow, Seq<u8>)>, k: int) -> Seq<u8> {
    trim_nul(l[k].1)
}

/// How many of the first `n` listed entries have trimmed path `p`.
pub open spec fn count_in(l: Seq<(EntryRow, Seq<u8>)>, p: Seq<u8>, n: int) -> nat
    decreases n,
{
    if n <= 0 {
        0
    } else {
        count_in(l, p, n - 1) + if tpath(l, n - 1) == p {
            1nat
        } else {
            0nat
        }
    }
}

/// Whether listed entry `k` is renamed: its path occurs more than once and
/// it is not the last occurrence.
pub open spec fn is_renamed(l: Seq<(EntryRow, Seq<u8>)>, k: int) -> bool {
    let c = count_in(l, tpath(l, k), l.len() as int);
    c > 1 && count_in(l, tpath(l, k), k + 1) < c
}

/// The path listed entry `k` gets: with its occurrence number as suffix
/// when renamed, else unchanged.
pub open spec fn new_path(l: Seq<(EntryRow, Seq<u8>)>, k: int) -> Seq<u8> {
    if is_renamed(l, k) {
        spec_with_suffix(tpath(l, k), count_in(l, tpath(l, k), k + 1))
    } else {
        tpath(l, k)
    }
}

/// The renames among the first `n` listed entries, in order: old path,
/// new path.
pub open spec fn renames_upto(l: Seq<(EntryRow, Seq<u8>)>, n: int) -> Seq<(Seq<u8>, Seq<u8>)>
    decreases n,
{
    if n <= 0 {
        Seq::empty()
    } else if is_renamed(l, n - 1) {
        renames_upto(l, n - 1).push((tpath(l, n - 1), new_path(l, n - 1)))
    } else {
        renames_upto(l, n - 1)
    }
}

/// Counting occurrences of `p` up to `n` counts no fewer than up to `m`,
/// and strictly more when an entry in between has path `p`.
proof fn lemma_count_in_grows(l: Seq<(EntryRow, Seq<u8>)>, p: Seq<u8>, m: int, n: int)
    requires
        0 <= m <= n,
    ensures
        count_in(l, p, m) <= count_in(l, p, n),
        (exists|j: int| m <= j < n && tpath(l, j) == p) ==> count_in(l, p, m) < count_in(l, p, n),
        (forall|j: int| m <= j < n ==> tpath(l, j) != p) ==> count_in(l, p, m) == count_in(l, p, n),
    decreases n - m,
{
    if m < n {
        lemma_count_in_grows(l, p, m, n - 1);
        if exists|j: int| m <= j < n && tpath(l, j) == p {
            let j = choose|j: int| m <= j < n && tpath(l, j) == p;
            if j < n - 1 {
                assert(m <= j < n - 1 && tpath(l, j) == p);
            }
        }
    }
}

/// An entry is renamed exactly when it is not the last with its path.
proof fn lemma_renamed_iff_shadowed(l: Seq<(EntryRow, Seq<u8>)>, k: int)
    requires
        0 <= k < l.len(),
    ensures
        is_renamed(l, k) == !is_last_occurrence(l, k),
{
    let p = tpath(l, k);
    let n = l.len() as int;
    lemma_count_in_grows(l, p, k + 1, n);
    lemma_count_in_grows(l, p, 0, k);
    assert(count_in(l, p, k + 1) == count_in(l, p, k) + 1);
    if !is_last_occurrence(l, k) {
        let j = choose|j: int| k < j < n && trim_nul(#[trigger] l[j].1) == trim_nul(l[k].1);
        assert(k + 1 <= j < n && tpath(l, j) == p);
    } else {
        assert forall|j: int| k + 1 <= j < n implies tpath(l, j) != p by {
            assert(trim_nul(l[j].1) != trim_nul(l[k].1));
        }
    }
}

/// Among the first `n` entries, each is either renamed or kept as the last
/// with its path.
proof fn lemma_renames_and_kept(l: Seq<(EntryRow, Seq<u8>)>, n: int)
    requires
        0 <= n <= l.len(),
    ensures
        renames_upto(l, n).len() + kept_count(l, n) == n,
    decreases n,
{
    if n > 0 {
        lemma_renames_and_kept(l, n - 1);
        lemma_renamed_iff_shadowed(l, n - 1);
    }
}

/// Renaming duplicates renames every entry but one per distinct path: as
/// many as the entries, less the distinct paths.
pub proof fn lemma_rename_count(l: Seq<(EntryRow, Seq<u8>)>)
    ensures
        renames_upto(l, l.len() as int).len() == l.len() - distinct_paths(l).len(),
{
    lemma_renames_and_kept(l, l.len() as int);
    lemma_kept_count_is_distinct(l);
}

/// Whether `s` holds the index `k`.
pub open spec fn has_index(s: Seq<usize>, k: int) -> bool {
    s.contains(k as usize)
}

/// Whether some path occurs more than once.
pub open spec fn has_duplicate_paths(l: Seq<(EntryRow, Seq<u8>)>) -> bool {
    exists|k: int| 0 <= k < l.len() && count_in(l, tpath(l, k), l.len() as int) > 1
}

/// `count_in` computed.
fn count_path(entries: &Vec<(&EntryRow, &[u8])>, p: &[u8], n: usize, l: Ghost<Seq<(EntryRow, Seq<u8>)>>) -> (c: usize)
    requires
        n <= entries@.len() == l@.len(),
        forall|k: int| 0 <= k < entries@.len() ==> (#[trigger] entries@[k]).1@ == l@[k].1,
    ensures
        c == count_in(l@, p@, n as int),
{
    let mut c: usize = 0;
    let mut j: usize = 0;
    while j < n
        invariant
            j <= n <= entries@.len() == l@.len(),
            forall|k: int| 0 <= k < entries@.len() ==> (#[trigger] entries@[k]).1@ == l@[k].1,
            c == count_in(l@, p@, j as int),
            c <= j,
        decreases n - j,
    {
        let q = entries[j].1;
        let m = crate::archive_path::nul_trimmed_len(q);
        if crate::archive::model::bytes_equal(&q[0..m], p) {
            c = c + 1;
        }
        j = j + 1;
    }
    c
}

/// Whether renaming the duplicates in the archive held in `b` is owed
/// success: it opens; every entry's path is valid UTF-8; every new path
/// (the path itself, or with its suffix) is valid UTF-8, fits the path
/// size, and normalizes to a path that fits it too; every data block lies
/// inside the bytes; and the new archive (each block with its padding, and
/// the tables) fits in memory.
pub open spec fn rename_ready(b: Seq<u8>) -> bool {
    match open_outcome(b, true) {
        Err(_) => false,
        Ok(o) => {
            let l = listed(o.1, o.2);
            let len = l.len();
            &&& forall|k: int|
                0 <= k < len ==> {
                    let t = #[trigger] new_path(l, k);
                    &&& valid_utf8(tpath(l, k))
                    &&& valid_utf8(t)
                    &&& t.len() <= o.0.path_size
                    &&& normalize_chars(decode_utf8(t)) is Some
                    &&& encode_utf8(normalize_chars(decode_utf8(t))->0).len() <= o.0.path_size
                    &&& read_block(b, l[k].0) is Some
                }
            &&& len + 1 < u32::MAX
            &&& 8 + len * (65536 + b.len()) + 65536 + b.len() + 64 * len + len * (o.0.path_size + 4)
                + 64 <= isize::MAX
        },
    }
}

/// Renames duplicate paths in an archive held in `bytes`: every
/// occurrence of a repeated path but the last gets its occurrence number
/// as a suffix (`file.txt` three times gives `file(1).txt`, `file(2).txt`,
/// `file.txt`), and the entries are written, sorted by new path, into a new
/// archive with the same alignment and path size, keeping timestamps.
/// When no path repeats, the archive is returned as opened and nothing is
/// renamed.
#[verifier::rlimit(50)]
pub fn rename_duplicates(bytes: Vec<u8>) -> (r: Result<(Archive, RenameStats), BaleError>)
    ensures
        open_outcome(bytes@, true) matches Err(e) ==> r == Err::<(Archive, RenameStats), BaleError>(e),
        rename_ready(bytes@) ==> r is Ok,
        open_outcome(bytes@, true) matches Ok(o) ==> {
            let l = listed(o.1, o.2);
            &&& (exists|k: int| 0 <= k < l.len() && !valid_utf8(#[trigger] tpath(l, k))) ==> r
                == Err::<(Archive, RenameStats), BaleError>(BaleError::InvalidUtf8)
            &&& (forall|k: int| 0 <= k < l.len() ==> valid_utf8(#[trigger] tpath(l, k)))
                && !has_duplicate_paths(l) ==> r is Ok
            &&& (forall|k: int| 0 <= k < l.len() ==> valid_utf8(#[trigger] tpath(l, k))) && (exists|
                k: int,
            |
                0 <= k < l.len() && is_renamed(l, k) && #[trigger] new_path(l, k).len()
                    > o.0.path_size) ==> (r matches Err(BaleError::PathTooLong { len, max }) && max
                == o.0.path_size && exists|k: int|
                0 <= k < l.len() && is_renamed(l, k) && #[trigger] new_path(l, k).len() == len)
        },
        r matches Ok((b, st)) ==> (open_outcome(bytes@, true) matches Ok(o) && {
            let l = listed(o.1, o.2);
            let rn = renames_upto(l, l.len() as int);
            &&& forall|k: int| 0 <= k < l.len() ==> valid_utf8(#[trigger] tpath(l, k))
            &&& st.entries_renamed == st.renames@.len()
            &&& st.renames@.len() == rn.len()
            &&& st.entries_renamed == l.len() - distinct_paths(l).len()
            &&& forall|i: int|
                0 <= i < rn.len() ==> (#[trigger] st.renames@[i]).0@ == decode_utf8(rn[i].0)
                    && st.renames@[i].1@ == lossy_text(rn[i].1)
            &&& !has_duplicate_paths(l) ==> b.spec_bytes() == bytes@ && rn.len() == 0
            &&& has_duplicate_paths(l) ==> b.wf() && forall|k: int|
                0 <= k < l.len() ==> has_key(
                    b.spec_dirs(),
                    padded(
                        encode_utf8(normalize_chars(decode_utf8(new_path(l, k)))->0),
                        o.0.path_size as nat,
                    ),
                )
            &&& has_duplicate_paths(l) ==> b.spec_rows().len() == l.len()
            &&& has_duplicate_paths(l) ==> forall|k: int|
                0 <= k < l.len() ==> carries(
                    b,
                    padded(
                        encode_utf8(normalize_chars(decode_utf8(new_path(l, k)))->0),
                        o.0.path_size as nat,
                    ),
                    l[k].0,
                    read_block(bytes@, l[k].0),
                )
        }),
{
    let ghost orig = bytes@;
    let reader = match Archive::open(bytes) {
        Ok(a) => a,
        Err(e) => return Err(e),
    };
    let alignment = match reader.alignment() {
        Ok(x) => x,
        Err(e) => return Err(e),
    };
    let ps = reader.path_size() as u16;
    let entries = reader.entries();
    let ghost l = listed(reader.spec_rows(), reader.spec_dirs());
    let n = entries.len();
    let ghost ready = rename_ready(orig);
    let mut i: usize = 0;
    let mut dup = false;
    while i < n
        invariant
            orig == bytes@,
            open_outcome(orig, true) is Ok,
            i <= n == entries@.len() == l.len(),
            forall|k: int|
                0 <= k < entries@.len() ==> *(#[trigger] entries@[k]).0 == l[k].0 && entries@[k].1@
                    == l[k].1,
            forall|k: int| 0 <= k < i ==> valid_utf8(#[trigger] tpath(l, k)),
            dup == exists|k: int| 0 <= k < i && count_in(l, tpath(l, k), l.len() as int) > 1,
            l == listed(open_outcome(orig, true)->Ok_0.1, open_outcome(orig, true)->Ok_0.2),
            ready == rename_ready(orig),
        decreases n - i,
    {
        let p = entries[i].1;
        proof {
            if ready {
                let t = new_path(l, i as int);
                assert(valid_utf8(tpath(l, i as int)));
            }
        }
        let m = crate::archive_path::nul_trimmed_len(p);
        let tp = &p[0..m];
        if str_from_utf8(tp).is_none() {
            proof {
                assert(tp@ == tpath(l, i as int));
                assert(!valid_utf8(tpath(l, i as int)));
            }
            return Err(BaleError::InvalidUtf8);
        }
        if count_path(&entries, tp, n, Ghost(l)) > 1 {
            dup = true;
        }
        proof {
            assert(tp@ == tpath(l, i as int));
        }
        i = i + 1;
    }
    if !dup {
        proof {
            assert(renames_upto(l, l.len() as int).len() == 0) by {
                lemma_no_renames(l, l.len() as int);
            }
            lemma_rename_count(l);
        }
        return Ok((reader, RenameStats { entries_renamed: 0, renames: Vec::new() }));
    }
    let mut items: Vec<(usize, Vec<u8>)> = Vec::new();
    let mut renames: Vec<(String, String)> = Vec::new();
    let mut i: usize = 0;
    while i < n
        invariant
            orig == bytes@,
            open_outcome(orig, true) is Ok,
            i <= n == entries@.len() == l.len(),
            forall|k: int|
                0 <= k < entries@.len() ==> *(#[trigger] entries@[k]).0 == l[k].0 && entries@[k].1@
                    == l[k].1,
            forall|k: int| 0 <= k < n ==> valid_utf8(#[trigger] tpath(l, k)),
            items@.len() == i,
            forall|k: int| 0 <= k < i ==> (#[trigger] items@[k]).0 == k && items@[k].1@ == new_path(l, k),
            has_duplicate_paths(l),
            forall|k: int|
                0 <= k < i ==> !(is_renamed(l, k) && #[trigger] new_path(l, k).len()
                    > reader.spec_path_size()),
            ps == reader.spec_path_size(),
            l == listed(open_outcome(orig, true)->Ok_0.1, open_outcome(orig, true)->Ok_0.2),
            reader.spec_path_size() == open_outcome(orig, true)->Ok_0.0.path_size,
            ready == rename_ready(orig),
            renames@.len() == renames_upto(l, i as int).len(),
            forall|x: int|
                0 <= x < renames@.len() ==> (#[trigger] renames@[x]).0@ == decode_utf8(
                    renames_upto(l, i as int)[x].0,
                ) && renames@[x].1@ == lossy_text(renames_upto(l, i as int)[x].1),
            reader.wf(),
        decreases n - i,
    {
        let p = entries[i].1;
        let ap = ArchivePath::from_null_padded_bytes(p);
        let tp = ap.as_bytes();
        let total = count_path(&entries, tp, n, Ghost(l));
        let occ = count_path(&entries, tp, i + 1, Ghost(l));
        proof {
            assert(tp@ == tpath(l, i as int));
        }
        let ghost before = renames@;
        if total > 1 && occ < total {
            let renamed = match ap.with_suffix(occ) {
                Ok(x) => x,
                Err(e) => return Err(e),
            };
            if renamed.len() > ps as usize {
                proof {
                    assert(is_renamed(l, i as int));
                    assert(renamed@ == new_path(l, i as int));
                    assert(new_path(l, i as int).len() == renamed@.len());
                }
                return Err(BaleError::PathTooLong { len: renamed.len(), max: ps as usize });
            }
            let old_s = ap.to_string();
            let new_s = renamed.to_string();
            renames.push((old_s, new_s));
            items.push((i, renamed.into_vec()));
            proof {
                assert(renames_upto(l, i + 1) == renames_upto(l, i as int).push(
                    (tpath(l, i as int), new_path(l, i as int)),
                ));
                assert forall|x: int| 0 <= x < renames@.len() implies (#[trigger] renames@[x]).0@
                    == decode_utf8(renames_upto(l, i + 1)[x].0) && renames@[x].1@ == lossy_text(
                    renames_upto(l, i + 1)[x].1,
                ) by {
                    if x < before.len() {
                        assert(renames@[x] == before[x]);
                    }
                }
            }
        } else {
            let mut v: Vec<u8> = Vec::new();
            crate::text::extend_bytes(&mut v, tp);
            items.push((i, v));
        }
        i = i + 1;
    }
    let mut order: Vec<usize> = Vec::new();
    let mut k: usize = 0;
    while k < n
        invariant
            orig == bytes@,
            open_outcome(orig, true) is Ok,
            k <= n,
            order@.len() == k,
            forall|x: int| 0 <= x < k ==> (#[trigger] order@[x]) == x,
        decreases n - k,
    {
        order.push(k);
        k = k + 1;
    }
    let ghost order0 = order@;
    sort_items(&mut order, &items);
    proof {
        assert forall|k: int| 0 <= k < n implies #[trigger] has_index(order@, k) by {
            assert(order0[k] == k as usize);
            assert(order0.contains(k as usize));
            order0.to_multiset_ensures();
            order@.to_multiset_ensures();
            assert(order0.to_multiset().count(k as usize) > 0);
        }
    }
    proof {
        broadcast use vstd::seq_lib::group_to_multiset_ensures;

        vstd::seq_lib::to_multiset_len(order@);
        vstd::seq_lib::to_multiset_len(order0);
        if ready {
            reader.lemma_wf_options();
        }
    }
    let mut writer = match Archive::create_with_options(alignment, ps) {
        Ok(w) => w,
        Err(e) => return Err(e),
    };
    let mut x: usize = 0;
    while x < order.len()
        invariant
            orig == bytes@,
            open_outcome(orig, true) is Ok,
            x <= order@.len(),
            forall|y: int| 0 <= y < order@.len() ==> (#[trigger] order@[y]) < items@.len(),
            items@.len() == n == entries@.len() == l.len(),
            forall|k: int| 0 <= k < n ==> (#[trigger] items@[k]).0 == k && items@[k].1@ == new_path(l, k),
            forall|k: int|
                0 <= k < entries@.len() ==> *(#[trigger] entries@[k]).0 == l[k].0 && entries@[k].1@
                    == l[k].1,
            writer.wf(),
            writer.spec_dirty(),
            writer.spec_path_size() == reader.spec_path_size(),
            reader.wf(),
            forall|k: int| 0 <= k < n ==> #[trigger] has_index(order@, k),
            forall|k: int| 0 <= k < l.len() ==> valid_utf8(#[trigger] tpath(l, k)),
            has_duplicate_paths(l),
            forall|k: int|
                0 <= k < l.len() ==> !(is_renamed(l, k) && #[trigger] new_path(l, k).len()
                    > reader.spec_path_size()),
            l == listed(open_outcome(orig, true)->Ok_0.1, open_outcome(orig, true)->Ok_0.2),
            reader.spec_path_size() == open_outcome(orig, true)->Ok_0.0.path_size,
            order@.len() == n,
            ready == rename_ready(orig),
            reader.spec_bytes() == orig,
            writer.spec_bytes().len() == writer.spec_write_offset(),
            writer.spec_rows().len() == x,
            forall|y: int|
                0 <= y < x ==> read_block(orig, l[#[trigger] order@[y] as int].0) is Some && carries(
                    writer,
                    padded(
                        encode_utf8(normalize_chars(decode_utf8(new_path(l, order@[y] as int)))->0),
                        reader.spec_path_size(),
                    ),
                    l[order@[y] as int].0,
                    read_block(orig, l[order@[y] as int].0),
                ),
            ready ==> {
                &&& reader.spec_bytes() == orig
                &&& writer.spec_trailer().next_id == 1 + x
                &&& writer.spec_rows().len() == x
                &&& writer.spec_dirs().len() == x
                &&& writer.spec_write_offset() <= 8 + x * (65536 + orig.len())
            },
            forall|y: int|
                0 <= y < x ==> has_key(
                    writer.spec_dirs(),
                    padded(
                        encode_utf8(normalize_chars(decode_utf8(new_path(l, order@[y] as int)))->0),
                        reader.spec_path_size(),
                    ),
                ),
        decreases order@.len() - x,
    {
        let item = &items[order[x]];
        let row = entries[item.0].0;
        let ghost kx = order@[x as int] as int;
        proof {
            if ready {
                let t = new_path(l, kx);
                assert(item.1@ == t);
            }
        }
        let path_str = match str_from_utf8(item.1.as_slice()) {
            Some(s) => s,
            None => return Err(BaleError::InvalidUtf8),
        };
        let data = match reader.read_data(row) {
            Ok(d) => d,
            Err(e) => return Err(e),
        };
        proof {
            if ready {
                let nb = orig.len();
                let ln = l.len();
                assert(x * (65536 + nb) <= ln * (65536 + nb)) by (nonlinear_arith)
                    requires
                        x < ln,
                ;
                assert(data@.len() <= nb);
                assert(writer.room_for(data@.len()));
                assert(path_str@ == decode_utf8(new_path(l, kx)));
                assert(writer.add_error(path_str@) is None);
            }
        }
        if !writer.has_room_for(data.len()) {
            return Err(BaleError::Io);
        }
        let options = AddEntryOptions {
            created_time: Some(row.created_time),
            modified_time: Some(row.modified_time),
        };
        let ghost before = writer;
        match writer.add_entry_with_options(path_str, data, row.mode, options) {
            Ok(()) => {},
            Err(e) => return Err(e),
        }
        proof {
            let key = padded(
                encode_utf8(normalize_chars(decode_utf8(new_path(l, order@[x as int] as int)))->0),
                reader.spec_path_size(),
            );
            assert(path_str@ == decode_utf8(new_path(l, order@[x as int] as int)));
            assert forall|y: int|
                0 <= y < x + 1 implies has_key(
                writer.spec_dirs(),
                padded(
                    encode_utf8(normalize_chars(decode_utf8(new_path(l, order@[y] as int)))->0),
                    reader.spec_path_size(),
                ),
            ) by {
                let ky = padded(
                    encode_utf8(normalize_chars(decode_utf8(new_path(l, order@[y] as int)))->0),
                    reader.spec_path_size(),
                );
                assert(writer.spec_dirs().drop_last() == before.spec_dirs());
                if y < x {
                    let j = choose|j: int|
                        0 <= j < before.spec_dirs().len() && before.spec_dirs()[j].0 == ky;
                    assert(writer.spec_dirs()[j] == before.spec_dirs()[j]);
                } else {
                    assert(writer.spec_dirs().last().0 == key);
                }
            }
        }
        proof {
            let ps0 = reader.spec_path_size();
            let rlast = writer.spec_rows().last();
            before.lemma_blocks_after_write(data@, rlast, rlast);
            assert(data@ == read_block(orig, l[kx].0)->0);
            assert forall|y: int|
                0 <= y < x + 1 implies read_block(orig, l[#[trigger] order@[y] as int].0) is Some && carries(
                writer,
                padded(
                    encode_utf8(normalize_chars(decode_utf8(new_path(l, order@[y] as int)))->0),
                    ps0,
                ),
                l[order@[y] as int].0,
                read_block(orig, l[order@[y] as int].0),
            ) by {
                if y < x {
                    lemma_carries_after_add(
                        before,
                        writer,
                        padded(
                            encode_utf8(normalize_chars(decode_utf8(new_path(l, order@[y] as int)))->0),
                            ps0,
                        ),
                        l[order@[y] as int].0,
                        read_block(orig, l[order@[y] as int].0),
                        encode_utf8(normalize_chars(path_str@)->0),
                        data@,
                        row.mode,
                        options.created_time,
                        options.modified_time,
                    );
                } else {
                    let xi = writer.spec_dirs().len() - 1;
                    let yi = writer.spec_rows().len() - 1;
                    assert(writer.spec_dirs()[xi].1 == writer.spec_rows()[yi].entry_id);
                }
            }
            if ready {
                let nb = orig.len();
                before.lemma_block_growth(data@);
                assert((x + 1) * (65536 + nb) == x * (65536 + nb) + 65536 + nb) by (nonlinear_arith);
            }
        }
        x = x + 1;
    }
    proof {
        if ready {
            let ln = l.len();
            let ps0 = reader.spec_path_size();
            assert(x * (ps0 + 4) <= ln * (ps0 + 4)) by (nonlinear_arith)
                requires
                    x <= ln,
            ;
            assert(writer.room_for_tables());
        }
    }
    if !writer.has_room_for_tables() {
        return Err(BaleError::Io);
    }
    let ghost pre = writer;
    match writer.sync() {
        Ok(()) => {},
        Err(e) => return Err(e),
    }
    proof {
        assert forall|k: int| 0 <= k < l.len() implies has_key(
            writer.spec_dirs(),
            padded(
                encode_utf8(normalize_chars(decode_utf8(new_path(l, k)))->0),
                reader.spec_path_size(),
            ),
        ) by {
            assert(has_index(order@, k));
            let y = choose|y: int| 0 <= y < order@.len() && order@[y] == k as usize;
            let key = padded(
                encode_utf8(normalize_chars(decode_utf8(new_path(l, k)))->0),
                reader.spec_path_size(),
            );
            let j = choose|j: int| 0 <= j < pre.spec_dirs().len() && pre.spec_dirs()[j].0 == key;
            lemma_has_key_permuted(pre.spec_dirs(), writer.spec_dirs(), j);
        }
        assert(has_duplicate_paths(l));
        broadcast use vstd::seq_lib::group_to_multiset_ensures;

        vstd::seq_lib::to_multiset_len(pre.spec_rows());
        vstd::seq_lib::to_multiset_len(writer.spec_rows());
        assert forall|k: int| 0 <= k < l.len() implies carries(
            writer,
            padded(
                encode_utf8(normalize_chars(decode_utf8(new_path(l, k)))->0),
                reader.spec_path_size(),
            ),
            l[k].0,
            read_block(orig, l[k].0),
        ) by {
            assert(has_index(order@, k));
            let y = choose|y: int| 0 <= y < order@.len() && order@[y] == k as usize;
            assert(read_block(orig, l[order@[y] as int].0) is Some);
            lemma_carries_after_sync(
                pre,
                writer,
                padded(
                    encode_utf8(normalize_chars(decode_utf8(new_path(l, k)))->0),
                    reader.spec_path_size(),
                ),
                l[k].0,
                read_block(orig, l[k].0),
            );
        }
    }
    let entries_renamed = renames.len();
    proof {
        lemma_rename_count(l);
    }
    Ok((writer, RenameStats { entries_renamed, renames }))
}

proof fn lemma_no_renames(l: Seq<(EntryRow, Seq<u8>)>, n: int)
    requires
        n <= l.len(),
        forall|k: int| 0 <= k < l.len() ==> count_in(l, tpath(l, k), l.len() as int) <= 1,
    ensures
        renames_upto(l, n).len() == 0,
    decreases n,
{
    if n > 0 {
        lemma_no_renames(l, n - 1);
    }
}

/// The new paths of the items at positions `order`, in order.
pub open spec fn item_paths(order: Seq<usize>, items: Seq<(usize, Vec<u8>)>) -> Seq<Seq<u8>> {
    Seq::new(order.len(), |k: int| items[order[k] as int].1@)
}

/// Sorts item indices by the items' new paths (a reordering).
fn sort_items(order: &mut Vec<usize>, items: &Vec<(usize, Vec<u8>)>)
    requires
        forall|x: int| 0 <= x < old(order)@.len() ==> (#[trigger] old(order)@[x]) < items@.len(),
    ensures
        final(order)@.to_multiset() == old(order)@.to_multiset(),
        forall|x: int| 0 <= x < final(order)@.len() ==> (#[trigger] final(order)@[x]) < items@.len(),
        sorted_by(item_paths(final(order)@, items@), bytes_order()),
{
    let n = order.len();
    if n == 0 {
        return;
    }
    let mut i: usize = 1;
    while i < n
        invariant
            1 <= i <= n,
            order@.len() == n,
            order@.to_multiset() == old(order)@.to_multiset(),
            forall|x: int| 0 <= x < order@.len() ==> (#[trigger] order@[x]) < items@.len(),
            sorted_by(item_paths(order@, items@).take(i as int), bytes_order()),
        decreases n - i,
    {
        let ghost before = order@;
        let x = order.remove(i);
        let mut pos: usize = i;
        while pos > 0 && !bytes_le(items[order[pos - 1]].1.as_slice(), items[x].1.as_slice())
            invariant
                pos <= i < n,
                before.len() == n,
                order@ == before.remove(i as int),
                x == before[i as int],
                x < items@.len(),
                forall|y: int| 0 <= y < order@.len() ==> (#[trigger] order@[y]) < items@.len(),
                forall|k: int|
                    pos <= k < i ==> !lex_le(items@[(#[trigger] order@[k]) as int].1@, items@[x as int].1@),
            decreases pos,
        {
            pos = pos - 1;
        }
        let ghost mid = order@;
        let ghost xv = items@[x as int].1@;
        order.insert(pos, x);
        proof {
            lemma_reinsert_multiset(before, i as int, pos as int);
            assert forall|y: int| 0 <= y < order@.len() implies (#[trigger] order@[y]) < items@.len() by {
                if y < pos {
                    assert(order@[y] == mid[y]);
                } else if y > pos {
                    assert(order@[y] == mid[y - 1]);
                }
            }
            let t = item_paths(before, items@).take(i as int);
            assert(t =~= item_paths(mid, items@).take(i as int));
            if pos > 0 {
                assert(lex_le(t[pos - 1], xv));
            }
            assert forall|k: int| pos <= k < t.len() implies !lex_le(#[trigger] t[k], xv) by {
                assert(t[k] == items@[mid[k] as int].1@);
            }
            lemma_insert_sorted(t, xv, pos as int);
            assert(item_paths(order@, items@).take(i + 1) =~= t.insert(pos as int, xv));
        }
        i = i + 1;
    }
    proof {
        assert(item_paths(order@, items@).take(n as int) =~= item_paths(order@, items@));
    }
}

} // verus!
