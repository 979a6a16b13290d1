//! The on-disk entry and directory tables: their bytes, and reading them
//! back.

use vstd::prelude::*;
use crate::archive::model::{DirRecord, dir_view, all_paths_len};
use crate::format::entry_row::{EntryRow, lemma_entry_row_fields, lemma_entry_row_parse_of_bytes};
use crate::le::{le32, get_u32, push_u32, read_u32, lemma_get_u32_of};
use crate::text::extend_bytes;

verus! {

/// The entry table: each row's 64 bytes, in order.
pub open spec fn rows_bytes(rows: Seq<EntryRow>) -> Seq<u8>
    decreases rows.len(),
{
    if rows.len() == 0 {
        Seq::empty()
    } else {
        rows_bytes(rows.drop_last()) + rows.last().spec_bytes()
    }
}

/// A directory row: the padded path, then the entry ID (little-endian).
pub open spec fn dir_row_bytes(d: (Seq<u8>, u32)) -> Seq<u8> {
    d.0 + le32(d.1)
}

/// The directory table: each record's row, in order.
pub open spec fn dirs_bytes(dirs: Seq<(Seq<u8>, u32)>) -> Seq<u8>
    decreases dirs.len(),
{
    if dirs.len() == 0 {
        Seq::empty()
    } else {
        dirs_bytes(dirs.drop_last()) + dir_row_bytes(dirs.last())
    }
}

/// The `n` entry rows that the bytes hold from `off`.
pub open spec fn parse_rows(s: Seq<u8>, off: int, n: nat) -> Seq<EntryRow> {
    Seq::new(n, |i: int| EntryRow::spec_parse_at(s, off + 64 * i))
}

/// The `n` directory records that the bytes hold from `off`, each `ps`
/// path bytes followed by a 4-byte ID.
pub open spec fn parse_dirs(s: Seq<u8>, off: int, n: nat, ps: nat) -> Seq<(Seq<u8>, u32)> {
    Seq::new(
        n,
        |i: int|
            (
                s.subrange(off + i * (ps + 4), off + i * (ps + 4) + ps),
                get_u32(s, off + i * (ps + 4) + ps),
            ),
    )
}

/// The entry table has 64 bytes per row, and row `i` lies at `64 * i`.
pub proof fn lemma_rows_bytes(rows: Seq<EntryRow>)
    ensures
        rows_bytes(rows).len() == 64 * rows.len(),
        forall|i: int|
            0 <= i < rows.len() ==> rows_bytes(rows).subrange(64 * i, 64 * i + 64)
                == (#[trigger] rows[i]).spec_bytes(),
    decreases rows.len(),
{
    if rows.len() > 0 {
        let d = rows.drop_last();
        lemma_rows_bytes(d);
        lemma_entry_row_fields(rows.last());
        let b = rows_bytes(rows);
        assert(b == rows_bytes(d) + rows.last().spec_bytes());
        assert forall|i: int| 0 <= i < rows.len() implies b.subrange(64 * i, 64 * i + 64) == (
        #[trigger] rows[i]).spec_bytes() by {
            if i < rows.len() - 1 {
                assert(d[i] == rows[i]);
                assert(b.subrange(64 * i, 64 * i + 64) =~= rows_bytes(d).subrange(
                    64 * i,
                    64 * i + 64,
                ));
            } else {
                assert(b.subrange(64 * i, 64 * i + 64) =~= rows.last().spec_bytes());
            }
        }
    }
}

/// The directory table has `ps + 4` bytes per record, and record `i` lies
/// at `i * (ps + 4)`.
pub proof fn lemma_dirs_bytes(dirs: Seq<(Seq<u8>, u32)>, ps: nat)
    requires
        forall|i: int| 0 <= i < dirs.len() ==> (#[trigger] dirs[i]).0.len() == ps,
    ensures
        dirs_bytes(dirs).len() == dirs.len() * (ps + 4),
        forall|i: int|
            0 <= i < dirs.len() ==> dirs_bytes(dirs).subrange(i * (ps + 4), i * (ps + 4) + ps + 4)
                == dir_row_bytes(#[trigger] dirs[i]),
    decreases dirs.len(),
{
    if dirs.len() > 0 {
        let d = dirs.drop_last();
        lemma_dirs_bytes(d, ps);
        let b = dirs_bytes(dirs);
        let n = dirs.len();
        assert(b == dirs_bytes(d) + dir_row_bytes(dirs.last()));
        assert((n - 1) * (ps + 4) + ps + 4 == n * (ps + 4)) by (nonlinear_arith);
        assert forall|i: int| 0 <= i < dirs.len() implies b.subrange(
            i * (ps + 4),
            i * (ps + 4) + ps + 4,
        ) == dir_row_bytes(#[trigger] dirs[i]) by {
            if i < dirs.len() - 1 {
                assert(d[i] == dirs[i]);
                assert(i * (ps + 4) + ps + 4 <= (n - 1) * (ps + 4)) by (nonlinear_arith)
                    requires
                        i < n - 1,
                        0 <= i,
                ;
                assert(0 <= i * (ps + 4)) by (nonlinear_arith)
                    requires
                        0 <= i,
                ;
                assert(b.subrange(i * (ps + 4), i * (ps + 4) + ps + 4) =~= dirs_bytes(d).subrange(
                    i * (ps + 4),
                    i * (ps + 4) + ps + 4,
                ));
            } else {
                assert(b.subrange(i * (ps + 4), i * (ps + 4) + ps + 4) =~= dir_row_bytes(
                    dirs.last(),
                ));
            }
        }
    }
}

/// Reading the entry table back gives the rows that were written.
pub proof fn lemma_parse_rows_of_bytes(s: Seq<u8>, off: int, rows: Seq<EntryRow>)
    requires
        0 <= off,
        off + 64 * rows.len() <= s.len(),
        s.subrange(off, off + 64 * rows.len()) == rows_bytes(rows),
    ensures
        parse_rows(s, off, rows.len()) == rows,
{
    lemma_rows_bytes(rows);
    assert forall|i: int| 0 <= i < rows.len() implies #[trigger] parse_rows(
        s,
        off,
        rows.len(),
    )[i] == rows[i] by {
        assert(s.subrange(off + 64 * i, off + 64 * i + 64) =~= rows_bytes(rows).subrange(
            64 * i,
            64 * i + 64,
        ));
        lemma_entry_row_parse_of_bytes(s, off + 64 * i, rows[i]);
    }
    assert(parse_rows(s, off, rows.len()) =~= rows);
}

proof fn lemma_parse_dir_at(s: Seq<u8>, off: int, dirs: Seq<(Seq<u8>, u32)>, ps: nat, i: int)
    requires
        0 <= off,
        0 <= i < dirs.len(),
        dirs[i].0.len() == ps,
        off + dirs.len() * (ps + 4) <= s.len(),
        dirs_bytes(dirs).len() == dirs.len() * (ps + 4),
        s.subrange(off, off + dirs.len() * (ps + 4)) == dirs_bytes(dirs),
        dirs_bytes(dirs).subrange(i * (ps + 4), i * (ps + 4) + ps + 4) == dir_row_bytes(dirs[i]),
    ensures
        parse_dirs(s, off, dirs.len(), ps)[i] == dirs[i],
{
    let n = dirs.len();
    let a = i * (ps + 4);
    assert(0 <= a && a + ps + 4 <= n * (ps + 4)) by (nonlinear_arith)
        requires
            0 <= i < n,
            a == i * (ps + 4),
    ;
    let row = s.subrange(off + a, off + a + ps + 4);
    assert(row =~= dirs_bytes(dirs).subrange(a, a + ps + 4));
    assert(row =~= dirs[i].0 + le32(dirs[i].1));
    assert(s.subrange(off + a, off + a + ps) =~= row.subrange(0, ps as int));
    assert(row.subrange(0, ps as int) =~= dirs[i].0);
    assert(row.subrange(ps as int, (ps + 4) as int) =~= le32(dirs[i].1));
    assert(s.subrange(off + a + ps, off + a + ps + 4) =~= row.subrange(ps as int, (ps + 4) as int));
    lemma_get_u32_of(s, off + a + ps, dirs[i].1);
}

/// Reading the directory table back gives the records that were written.
pub proof fn lemma_parse_dirs_of_bytes(s: Seq<u8>, off: int, dirs: Seq<(Seq<u8>, u32)>, ps: nat)
    requires
        0 <= off,
        forall|i: int| 0 <= i < dirs.len() ==> (#[trigger] dirs[i]).0.len() == ps,
        off + dirs.len() * (ps + 4) <= s.len(),
        s.subrange(off, off + dirs.len() * (ps + 4)) == dirs_bytes(dirs),
    ensures
        parse_dirs(s, off, dirs.len(), ps) == dirs,
{
    lemma_dirs_bytes(dirs, ps);
    let n = dirs.len();
    assert forall|i: int| 0 <= i < n implies #[trigger] parse_dirs(s, off, n, ps)[i]
        == dirs[i] by {
        lemma_parse_dir_at(s, off, dirs, ps, i);
    }
    assert(parse_dirs(s, off, n, ps) =~= dirs);
}

/// Appends the entry table for `rows` to `v`.
pub fn write_rows(v: &mut Vec<u8>, rows: &Vec<EntryRow>)
    ensures
        final(v)@ == old(v)@ + rows_bytes(rows@),
{
    let ghost start = v@;
    let mut i: usize = 0;
    proof {
        assert(rows@.take(0) =~= Seq::<EntryRow>::empty());
        assert(v@ =~= start + rows_bytes(rows@.take(0)));
    }
    while i < rows.len()
        invariant
            i <= rows@.len(),
            v@ == start + rows_bytes(rows@.take(i as int)),
        decreases rows@.len() - i,
    {
        rows[i].write_to(v);
        proof {
            assert(rows@.take(i + 1).drop_last() =~= rows@.take(i as int));
            assert(v@ =~= start + rows_bytes(rows@.take(i + 1)));
        }
        i = i + 1;
    }
    proof {
        assert(rows@.take(i as int) =~= rows@);
    }
}

/// Appends the directory table for `dirs` to `v`.
pub fn write_dirs(v: &mut Vec<u8>, dirs: &Vec<DirRecord>)
    ensures
        final(v)@ == old(v)@ + dirs_bytes(dir_view(dirs@)),
{
    let ghost start = v@;
    let ghost dv = dir_view(dirs@);
    let mut i: usize = 0;
    proof {
        assert(dv.take(0) =~= Seq::<(Seq<u8>, u32)>::empty());
        assert(v@ =~= start + dirs_bytes(dv.take(0)));
    }
    while i < dirs.len()
        invariant
            i <= dirs@.len(),
            dv == dir_view(dirs@),
            v@ == start + dirs_bytes(dv.take(i as int)),
        decreases dirs@.len() - i,
    {
        extend_bytes(v, dirs[i].path.as_slice());
        push_u32(v, dirs[i].entry_id);
        proof {
            assert(dv.take(i + 1).drop_last() =~= dv.take(i as int));
            assert(dv.take(i + 1).last() == (dirs@[i as int].path@, dirs@[i as int].entry_id));
            assert(v@ =~= start + dirs_bytes(dv.take(i + 1)));
        }
        i = i + 1;
    }
    proof {
        assert(dv.take(i as int) =~= dv);
    }
}

/// Reads `n` entry rows from `b` at `off`.
pub fn read_rows(b: &[u8], off: usize, n: usize) -> (r: Vec<EntryRow>)
    requires
        off + 64 * n <= b@.len(),
    ensures
        r@ == parse_rows(b@, off as int, n as nat),
{
    let mut v: Vec<EntryRow> = Vec::new();
    let mut i: usize = 0;
    while i < n
        invariant
            i <= n,
            off + 64 * n <= b@.len(),
            v@ == parse_rows(b@, off as int, i as nat),
        decreases n - i,
    {
        assert(64 * i + 64 <= 64 * n) by (nonlinear_arith)
            requires
                i < n,
        ;
        assert(b@.len() == b.len());
        let row = EntryRow::read_at(b, off + 64 * i);
        v.push(row);
        proof {
            assert(v@ =~= parse_rows(b@, off as int, (i + 1) as nat));
        }
        i = i + 1;
    }
    v
}

/// Reads `n` directory records of path size `ps` from `b` at `off`.
pub fn read_dirs(b: &[u8], off: usize, n: usize, ps: usize) -> (r: Vec<DirRecord>)
    requires
        off + n * (ps + 4) <= b@.len(),
    ensures
        dir_view(r@) == parse_dirs(b@, off as int, n as nat, ps as nat),
        all_paths_len(r@, ps as nat),
{
    let mut v: Vec<DirRecord> = Vec::new();
    let mut i: usize = 0;
    while i < n
        invariant
            i <= n,
            off + n * (ps + 4) <= b@.len(),
            v@.len() == i,
            dir_view(v@) == parse_dirs(b@, off as int, i as nat, ps as nat),
            all_paths_len(v@, ps as nat),
        decreases n - i,
    {
        assert(i * (ps + 4) + ps + 4 <= n * (ps + 4)) by (nonlinear_arith)
            requires
                i < n,
        ;
        assert(b@.len() == b.len());
        assert(i * (ps + 4) <= n * (ps + 4)) by (nonlinear_arith)
            requires
                i < n,
        ;
        let start = off + i * (ps + 4);
        let mut path: Vec<u8> = Vec::new();
        extend_bytes(&mut path, &b[start..start + ps]);
        let id = read_u32(b, start + ps);
        let ghost before = v@;
        v.push(DirRecord { path, entry_id: id });
        proof {
            assert(path@ =~= b@.subrange(start as int, start + ps));
            let p = parse_dirs(b@, off as int, (i + 1) as nat, ps as nat);
            assert(p[i as int] == (path@, id));
            assert forall|k: int| 0 <= k < i implies #[trigger] p[k] == parse_dirs(
                b@,
                off as int,
                i as nat,
                ps as nat,
            )[k] by {}
            assert forall|k: int| 0 <= k < i + 1 implies #[trigger] dir_view(v@)[k] == p[k] by {
                if k < i {
                    assert(v@[k] == before[k]);
                    assert(dir_view(before)[k] == dir_view(v@)[k]);
                }
            }
            assert(dir_view(v@) =~= p);
        }
        i = i + 1;
    }
    v
}

} // verus!
