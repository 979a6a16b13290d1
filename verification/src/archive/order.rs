//! Orderings of the tables: entry rows by ID, directory records by path
//! bytes, and the stable insertion sorts that establish them.

use vstd::prelude::*;
use vstd::relations::sorted_by;
use crate::archive::model::{DirRecord, dir_view, all_paths_len};
use crate::format::entry_row::EntryRow;

verus! {

broadcast use vstd::seq_lib::group_to_multiset_ensures;

/// Lexicographic order on byte strings, a proper prefix coming first (the
/// order of `[u8]` slices).
pub open spec fn lex_le(a: Seq<u8>, b: Seq<u8>) -> bool
    decreases a.len(),
{
    if a.len() == 0 {
        true
    } else if b.len() == 0 {
        false
    } else if a[0] != b[0] {
        a[0] < b[0]
    } else {
        lex_le(a.drop_first(), b.drop_first())
    }
}

/// Lexicographic order is transitive.
pub proof fn lemma_lex_le_transitive(a: Seq<u8>, b: Seq<u8>, c: Seq<u8>)
    requires
        lex_le(a, b),
        lex_le(b, c),
    ensures
        lex_le(a, c),
    decreases a.len(),
{
    if a.len() > 0 && b.len() > 0 && c.len() > 0 && a[0] == b[0] && b[0] == c[0] {
        lemma_lex_le_transitive(a.drop_first(), b.drop_first(), c.drop_first());
    }
}

/// Any two byte strings are ordered one way or the other.
pub proof fn lemma_lex_le_total(a: Seq<u8>, b: Seq<u8>)
    ensures
        lex_le(a, b) || lex_le(b, a),
    decreases a.len(),
{
    if a.len() > 0 && b.len() > 0 && a[0] == b[0] {
        lemma_lex_le_total(a.drop_first(), b.drop_first());
    }
}

/// Lexicographic order is antisymmetric.
pub proof fn lemma_lex_le_antisymmetric(a: Seq<u8>, b: Seq<u8>)
    requires
        lex_le(a, b),
        lex_le(b, a),
    ensures
        a == b,
    decreases a.len(),
{
    if a.len() > 0 && b.len() > 0 {
        lemma_lex_le_antisymmetric(a.drop_first(), b.drop_first());
        assert(a =~= seq![a[0]] + a.drop_first());
        assert(b =~= seq![b[0]] + b.drop_first());
    }
}

/// Byte strings in ascending lexicographic order.
pub open spec fn bytes_order() -> spec_fn(Seq<u8>, Seq<u8>) -> bool {
    |x: Seq<u8>, y: Seq<u8>| lex_le(x, y)
}

/// Inserting `x` into a sorted sequence of byte strings just after the
/// last one that sorts at or before it keeps the sequence sorted.
pub proof fn lemma_insert_sorted(t: Seq<Seq<u8>>, x: Seq<u8>, pos: int)
    requires
        sorted_by(t, bytes_order()),
        0 <= pos <= t.len(),
        pos == 0 || lex_le(t[pos - 1], x),
        forall|k: int| pos <= k < t.len() ==> !lex_le(#[trigger] t[k], x),
    ensures
        sorted_by(t.insert(pos, x), bytes_order()),
{
    let s = t.insert(pos, x);
    assert forall|a: int, b: int| 0 <= a < b < s.len() implies #[trigger] bytes_order()(s[a], s[b]) by {
        if b < pos {
            assert(bytes_order()(t[a], t[b]));
        } else if b == pos {
            if a < pos - 1 {
                assert(bytes_order()(t[a], t[pos - 1]));
                lemma_lex_le_transitive(t[a], t[pos - 1], x);
            }
        } else if a < pos {
            assert(bytes_order()(t[a], t[b - 1]));
        } else if a == pos {
            assert(!lex_le(t[b - 1], x));
            lemma_lex_le_total(t[b - 1], x);
        } else {
            assert(bytes_order()(t[a - 1], t[b - 1]));
        }
    }
}

/// Whether `a` sorts at or before `b`, as `a <= b` on byte slices.
pub fn bytes_le(a: &[u8], b: &[u8]) -> (r: bool)
    ensures
        r == lex_le(a@, b@),
{
    let mut i: usize = 0;
    proof {
        assert(a@.skip(0) =~= a@);
        assert(b@.skip(0) =~= b@);
    }
    while i < a.len() && i < b.len()
        invariant
            i <= a@.len(),
            i <= b@.len(),
            lex_le(a@, b@) == lex_le(a@.skip(i as int), b@.skip(i as int)),
        decreases a@.len() - i,
    {
        if a[i] != b[i] {
            return a[i] < b[i];
        }
        proof {
            assert(a@.skip(i as int).drop_first() =~= a@.skip(i + 1));
            assert(b@.skip(i as int).drop_first() =~= b@.skip(i + 1));
        }
        i = i + 1;
    }
    a.len() <= b.len()
}

/// Entry rows in ascending ID order.
pub open spec fn id_le() -> spec_fn(EntryRow, EntryRow) -> bool {
    |x: EntryRow, y: EntryRow| x.entry_id <= y.entry_id
}

/// Directory records in ascending path order.
pub open spec fn path_le() -> spec_fn((Seq<u8>, u32), (Seq<u8>, u32)) -> bool {
    |x: (Seq<u8>, u32), y: (Seq<u8>, u32)| lex_le(x.0, y.0)
}

/// Sorts entry rows by ID, keeping rows with equal IDs in their order.
pub fn sort_rows_by_id(rows: &mut Vec<EntryRow>)
    ensures
        final(rows)@.to_multiset() == old(rows)@.to_multiset(),
        sorted_by(final(rows)@, id_le()),
{
    let n = rows.len();
    let mut i: usize = 1;
    if n == 0 {
        return;
    }
    while i < n
        invariant
            1 <= i <= n,
            rows@.len() == n,
            rows@.to_multiset() == old(rows)@.to_multiset(),
            sorted_by(rows@.take(i as int), id_le()),
        decreases n - i,
    {
        let ghost before = rows@;
        let x = rows.remove(i);
        let mut pos: usize = i;
        while pos > 0 && rows[pos - 1].entry_id > x.entry_id
            invariant
                pos <= i < n,
                before.len() == n,
                rows@ == before.remove(i as int),
                forall|k: int| pos <= k < i ==> rows@[k].entry_id > x.entry_id,
            decreases pos,
        {
            pos = pos - 1;
        }
        rows.insert(pos, x);
        proof {
            let s = rows@;
            assert(before.remove(i as int).take(i as int) =~= before.take(i as int));
            assert forall|a: int, b: int| 0 <= a < b < i + 1 implies #[trigger] id_le()(
                s.take(i + 1)[a],
                s.take(i + 1)[b],
            ) by {
                assert(id_le()(before.take(i as int)[0], before.take(i as int)[0]));
                if b < pos {
                    assert(id_le()(before.take(i as int)[a], before.take(i as int)[b]));
                } else if b == pos {
                    if a < pos - 1 {
                        assert(id_le()(before.take(i as int)[a], before.take(i as int)[pos - 1]));
                    }
                } else if a < pos {
                    assert(id_le()(before.take(i as int)[a], before.take(i as int)[b - 1]));
                } else if a == pos {
                } else {
                    assert(id_le()(before.take(i as int)[a - 1], before.take(i as int)[b - 1]));
                }
            }
        }
        i = i + 1;
    }
    proof {
        assert(rows@.take(n as int) =~= rows@);
    }
}

/// Sorts directory records by path bytes, keeping records with equal
/// paths in their order.
pub fn sort_dirs_by_path(dirs: &mut Vec<DirRecord>, len: Ghost<nat>)
    requires
        all_paths_len(old(dirs)@, len@),
    ensures
        all_paths_len(final(dirs)@, len@),
        dir_view(final(dirs)@).to_multiset() == dir_view(old(dirs)@).to_multiset(),
        sorted_by(dir_view(final(dirs)@), path_le()),
{
    let n = dirs.len();
    let mut i: usize = 1;
    if n == 0 {
        return;
    }
    while i < n
        invariant
            1 <= i <= n,
            dirs@.len() == n,
            dir_view(dirs@).to_multiset() == dir_view(old(dirs)@).to_multiset(),
            sorted_by(dir_view(dirs@).take(i as int), path_le()),
            all_paths_len(dirs@, len@),
        decreases n - i,
    {
        let ghost before = dirs@;
        let ghost bv = dir_view(before);
        let x = dirs.remove(i);
        proof {
            assert(dir_view(dirs@) =~= bv.remove(i as int));
        }
        let mut pos: usize = i;
        while pos > 0 && !bytes_le(dirs[pos - 1].path.as_slice(), x.path.as_slice())
            invariant
                pos <= i < n,
                before.len() == n,
                dirs@ == before.remove(i as int),
                forall|k: int| pos <= k < i ==> !lex_le(dirs@[k].path@, x.path@),
            decreases pos,
        {
            pos = pos - 1;
        }
        let ghost xv = (x.path@, x.entry_id);
        let ghost xp = x.path@;
        dirs.insert(pos, x);
        proof {
            let s = dir_view(dirs@);
            assert(s =~= bv.remove(i as int).insert(pos as int, xv));
            assert(bv[i as int] == xv);
            assert(bv.remove(i as int).take(i as int) =~= bv.take(i as int));
            assert forall|a: int, b: int| 0 <= a < b < i + 1 implies #[trigger] path_le()(
                s.take(i + 1)[a],
                s.take(i + 1)[b],
            ) by {
                let t = bv.take(i as int);
                if b < pos {
                    assert(path_le()(t[a], t[b]));
                } else if b == pos {
                    if pos > 0 {
                        assert(lex_le(t[pos - 1].0, xp));
                        if a < pos - 1 {
                            assert(path_le()(t[a], t[pos - 1]));
                            lemma_lex_le_transitive(t[a].0, t[pos - 1].0, xp);
                        }
                    }
                } else if a < pos {
                    assert(path_le()(t[a], t[b - 1]));
                } else if a == pos {
                    assert(!lex_le(t[b - 1].0, xp));
                    lemma_lex_le_total(t[b - 1].0, xp);
                } else {
                    assert(path_le()(t[a - 1], t[b - 1]));
                }
            }
            assert forall|k: int| 0 <= k < dirs@.len() implies (#[trigger] dirs@[k]).path@.len()
                == len@ by {
                if k < pos {
                    assert(dirs@[k] == before[k]);
                } else if k == pos {
                    assert(dirs@[k] == before[i as int]);
                } else if k <= i {
                    assert(dirs@[k] == before[k - 1]);
                } else {
                    assert(dirs@[k] == before[k]);
                }
            }
        }
        i = i + 1;
    }
    proof {
        assert(dir_view(dirs@).take(n as int) =~= dir_view(dirs@));
    }
}

} // verus!
