//! Archive integrity checking.

use vstd::prelude::*;
use crate::archive::model::{
    Archive, listed, adjacent_sorted, duplicates_upto, orphan_walk, align_up, read_block,
    computed_metadata_crc, tables_in_bounds, open_outcome, data_gap, lemma_orphaned_data,
};
use crate::archive_path::{ArchivePath, normalize_chars, trim_nul};
use crate::error::{BaleError, Corruption, error_text};
use crate::format::crc::spec_crc_of;
use crate::format::entry_row::EntryRow;
use crate::format::file_header::FILE_HEADER_SIZE;
use crate::text::lossy_text;
use vstd::utf8::{valid_utf8, decode_utf8};

verus! {

/// A single integrity issue found by [`check`].
#[derive(Debug, Clone)]
pub enum CheckIssue {
    /// Metadata CRC-32C mismatch (the message).
    MetadataCrc(String),
    /// Per-entry CRC-32C mismatch.
    EntryCrc {
        /// The archive path of the entry.
        path: String,
        /// The error message.
        detail: String,
    },
    /// A path that does not normalize.
    InvalidPath {
        /// The archive path.
        path: String,
        /// The error message.
        detail: String,
    },
    /// The directory table is not sorted by path.
    Unsorted,
    /// A duplicate path.
    DuplicatePath(String),
    /// The archive holds data blocks no entry references.
    OrphanedData,
}

/// The content of a [`CheckIssue`]: its kind and its texts.
pub enum IssueView {
    /// Metadata CRC-32C mismatch.
    MetadataCrc(Seq<char>),
    /// Per-entry CRC-32C mismatch: path and message.
    EntryCrc(Seq<char>, Seq<char>),
    /// A path that does not normalize: path and message.
    InvalidPath(Seq<char>, Seq<char>),
    /// The directory table is not sorted.
    Unsorted,
    /// A duplicate path.
    DuplicatePath(Seq<char>),
    /// Orphaned data.
    OrphanedData,
}

impl View for CheckIssue {
    type V = IssueView;

    open spec fn view(&self) -> IssueView {
        match self {
            CheckIssue::MetadataCrc(d) => IssueView::MetadataCrc(d@),
            CheckIssue::EntryCrc { path, detail } => IssueView::EntryCrc(path@, detail@),
            CheckIssue::InvalidPath { path, detail } => IssueView::InvalidPath(path@, detail@),
            CheckIssue::Unsorted => IssueView::Unsorted,
            CheckIssue::DuplicatePath(p) => IssueView::DuplicatePath(p@),
            CheckIssue::OrphanedData => IssueView::OrphanedData,
        }
    }
}

/// The text of an issue.
pub open spec fn issue_text(i: IssueView) -> Seq<char> {
    match i {
        IssueView::MetadataCrc(d) => d,
        IssueView::EntryCrc(p, d) => "'"@ + p + "': "@ + d,
        IssueView::InvalidPath(p, d) => "'"@ + p + "': "@ + d,
        IssueView::Unsorted => "directory table is not sorted by path"@,
        IssueView::DuplicatePath(p) => "Duplicate path: '"@ + p + "'"@,
        IssueView::OrphanedData => "Archive contains orphaned data (run 'bale compact' to reclaim)"@,
    }
}

impl CheckIssue {
    /// The issue as a message.
    pub fn to_string(&self) -> (s: String)
        ensures
            s@ == issue_text(self@),
    {
        match self {
            CheckIssue::MetadataCrc(d) => d.clone(),
            CheckIssue::EntryCrc { path, detail } => quoted(path.as_str(), detail.as_str()),
            CheckIssue::InvalidPath { path, detail } => quoted(path.as_str(), detail.as_str()),
            CheckIssue::Unsorted => String::from_str("directory table is not sorted by path"),
            CheckIssue::DuplicatePath(p) => {
                let mut s = String::from_str("Duplicate path: '");
                s.append(p.as_str());
                s.append("'");
                s
            },
            CheckIssue::OrphanedData => String::from_str(
                "Archive contains orphaned data (run 'bale compact' to reclaim)",
            ),
        }
    }
}

/// `'path': detail`.
fn quoted(path: &str, detail: &str) -> (s: String)
    ensures
        s@ == "'"@ + path@ + "': "@ + detail@,
{
    let mut s = String::from_str("'");
    s.append(path);
    s.append("': ");
    s.append(detail);
    s
}

/// The result of an integrity check.
#[derive(Debug, Clone)]
pub struct CheckReport {
    /// The issues found, in the order they were found.
    pub issues: Vec<CheckIssue>,
    /// Whether the archive is compacted: sorted, without duplicate paths
    /// and without orphaned data.
    pub is_compacted: bool,
}

/// The stored-CRC check of an entry: `None` when it passes.
pub open spec fn crc_error(bytes: Seq<u8>, row: EntryRow) -> Option<BaleError> {
    if row.crc32c == 0 {
        None
    } else {
        match read_block(bytes, row) {
            None => Some(BaleError::Corrupted(Corruption::DataOutOfBounds)),
            Some(d) => if spec_crc_of(d) == row.crc32c {
                None
            } else {
                Some(
                    BaleError::Corrupted(
                        Corruption::EntryCrcMismatch { stored: row.crc32c, computed: spec_crc_of(d) },
                    ),
                )
            },
        }
    }
}

/// The normalization check of a path: `None` when it normalizes.
pub open spec fn path_error(p: Seq<u8>) -> Option<BaleError> {
    if !valid_utf8(p) || normalize_chars(decode_utf8(p)) is None {
        Some(BaleError::InvalidPath)
    } else {
        None
    }
}

/// The issues of the listed entries, in order: for each, a CRC issue and
/// then a path issue, where there are any.
pub open spec fn entry_issues(bytes: Seq<u8>, l: Seq<(EntryRow, Seq<u8>)>) -> Seq<IssueView>
    decreases l.len(),
{
    if l.len() == 0 {
        Seq::empty()
    } else {
        let rest = entry_issues(bytes, l.drop_last());
        let (row, padded) = l.last();
        let p = trim_nul(padded);
        let a = match crc_error(bytes, row) {
            Some(e) => seq![IssueView::EntryCrc(lossy_text(p), error_text(e))],
            None => Seq::empty(),
        };
        let b = match path_error(p) {
            Some(e) => seq![IssueView::InvalidPath(lossy_text(p), error_text(e))],
            None => Seq::empty(),
        };
        rest + a + b
    }
}

/// The metadata check's issue, if any.
pub open spec fn metadata_issue(a: Archive) -> Seq<IssueView> {
    let b = a.spec_bytes();
    let t = a.spec_trailer();
    if !tables_in_bounds(b, t) {
        seq![IssueView::MetadataCrc(error_text(BaleError::Corrupted(Corruption::TableOutOfBounds)))]
    } else if computed_metadata_crc(b, t) != t.metadata_crc32c {
        seq![
            IssueView::MetadataCrc(
                error_text(
                    BaleError::Corrupted(
                        Corruption::MetadataCrcMismatch {
                            stored: t.metadata_crc32c,
                            computed: computed_metadata_crc(b, t),
                        },
                    ),
                ),
            ),
        ]
    } else {
        Seq::empty()
    }
}

/// Whether `a` has orphaned data.
pub open spec fn has_orphans(a: Archive) -> bool {
    orphan_walk(
        a.spec_rows(),
        a.spec_alignment() as int,
        a.spec_write_offset() as int,
        align_up(FILE_HEADER_SIZE as int, a.spec_alignment() as int),
    )
}

/// A gap in the data region is reported: when an aligned offset of the
/// data region is neither the start of an entry's block nor inside one,
/// the archive has orphaned data, which is the last issue `check` reports,
/// so the archive is not reported compacted.
pub proof fn lemma_gap_reported(a: Archive, o: int)
    requires
        data_gap(a.spec_rows(), a.spec_alignment() as int, a.spec_write_offset() as int, o),
    ensures
        has_orphans(a),
        expected_issues(a).len() > 0,
        expected_issues(a).last() == IssueView::OrphanedData,
{
    vstd::arithmetic::power2::lemma_pow2_pos(a.spec_trailer().alignment_power as nat);
    lemma_orphaned_data(a.spec_rows(), a.spec_alignment() as int, a.spec_write_offset() as int);
    assert(has_orphans(a));
}

/// Everything `check` reports of an open archive, in order: the metadata
/// CRC, each listed entry's CRC and path, the table order, each duplicate
/// path, and orphaned data.
pub open spec fn expected_issues(a: Archive) -> Seq<IssueView> {
    let dirs = a.spec_dirs();
    let dups = duplicates_upto(dirs, dirs.len() as int);
    metadata_issue(a) + entry_issues(a.spec_bytes(), listed(a.spec_rows(), dirs)) + (
    if adjacent_sorted(dirs) {
        Seq::empty()
    } else {
        seq![IssueView::Unsorted]
    }) + Seq::new(dups.len(), |i: int| IssueView::DuplicatePath(lossy_text(dups[i]))) + (
    if has_orphans(a) {
        seq![IssueView::OrphanedData]
    } else {
        Seq::empty()
    })
}

/// Whether `v` holds exactly the issues `e`.
pub open spec fn issues_are(v: Seq<CheckIssue>, e: Seq<IssueView>) -> bool {
    v.len() == e.len() && forall|i: int| 0 <= i < v.len() ==> (#[trigger] v[i])@ == e[i]
}

/// Pushes an issue, keeping `issues_are`.
fn push_issue(v: &mut Vec<CheckIssue>, i: CheckIssue, e: Ghost<Seq<IssueView>>)
    requires
        issues_are(old(v)@, e@),
    ensures
        issues_are(final(v)@, e@.push(i@)),
{
    v.push(i);
}

/// Checks an archive's integrity: opens it (with CRC validation), then
/// collects every issue in order (see [`expected_issues`]); the archive is
/// compacted when sorted, without duplicates and without orphaned data.
/// Errors are those of opening.
pub fn check(bytes: Vec<u8>) -> (r: Result<CheckReport, BaleError>)
    ensures
        match open_outcome(bytes@, true) {
            Err(e) => r == Err::<CheckReport, BaleError>(e),
            Ok((t, rows, dirs)) => r matches Ok(rep) && exists|a: Archive|
                #![trigger expected_issues(a)]
                a.wf() && a.spec_bytes() == bytes@ && a.spec_trailer() == t && a.spec_rows() == rows
                    && a.spec_dirs() == dirs && a.spec_write_offset() == t.entry_table_offset
                    && !a.spec_dirty() && issues_are(rep.issues@, expected_issues(a))
                    && rep.is_compacted == (adjacent_sorted(a.spec_dirs()) && duplicates_upto(
                    a.spec_dirs(),
                    a.spec_dirs().len() as int,
                ).len() == 0 && !has_orphans(a)),
        },
{
    let a = match Archive::open(bytes) {
        Ok(a) => a,
        Err(e) => return Err(e),
    };
    let ghost ga = a;
    let mut issues: Vec<CheckIssue> = Vec::new();
    let ghost mut e: Seq<IssueView> = Seq::empty();
    match a.verify_metadata_crc() {
        Ok(()) => {},
        Err(err) => {
            push_issue(&mut issues, CheckIssue::MetadataCrc(err.to_string()), Ghost(e));
            proof {
                e = e.push(IssueView::MetadataCrc(error_text(err)));
            }
        },
    }
    proof {
        assert(e =~= metadata_issue(ga));
    }
    let ghost e0 = e;
    let entries = a.entries();
    let ghost l = listed(a.spec_rows(), a.spec_dirs());
    let mut i: usize = 0;
    proof {
        assert(l.take(0) =~= Seq::<(EntryRow, Seq<u8>)>::empty());
    }
    while i < entries.len()
        invariant
            i <= entries@.len(),
            entries@.len() == l.len(),
            forall|k: int|
                0 <= k < entries@.len() ==> *(#[trigger] entries@[k]).0 == l[k].0 && entries@[k].1@
                    == l[k].1,
            e == e0 + entry_issues(a.spec_bytes(), l.take(i as int)),
            issues_are(issues@, e),
            a.wf(),
        decreases entries@.len() - i,
    {
        let (row, padded) = entries[i];
        let path = ArchivePath::from_null_padded_bytes(padded);
        let ghost before = e;
        let ghost p = trim_nul(padded@);
        match a.verify_crc(row) {
            Ok(()) => {},
            Err(err) => {
                push_issue(&mut issues, CheckIssue::EntryCrc { path: path.to_string(), detail: err.to_string() }, Ghost(e));
                proof {
                    e = e.push(IssueView::EntryCrc(lossy_text(p), error_text(err)));
                }
            },
        }
        let ghost mid = e;
        match path.normalize() {
            Ok(_) => {},
            Err(err) => {
                push_issue(&mut issues, CheckIssue::InvalidPath { path: path.to_string(), detail: err.to_string() }, Ghost(e));
                proof {
                    e = e.push(IssueView::InvalidPath(lossy_text(p), error_text(err)));
                }
            },
        }
        proof {
            assert(l.take(i + 1).drop_last() =~= l.take(i as int));
            assert(l.take(i + 1).last() == l[i as int]);
            let a1 = match crc_error(a.spec_bytes(), *row) {
                Some(x) => seq![IssueView::EntryCrc(lossy_text(p), error_text(x))],
                None => Seq::empty(),
            };
            let b1 = match path_error(p) {
                Some(x) => seq![IssueView::InvalidPath(lossy_text(p), error_text(x))],
                None => Seq::empty(),
            };
            assert(mid =~= before + a1);
            assert(e =~= before + a1 + b1);
            assert(e =~= e0 + entry_issues(a.spec_bytes(), l.take(i + 1)));
        }
        i = i + 1;
    }
    proof {
        assert(l.take(i as int) =~= l);
    }
    let sorted = a.is_sorted();
    if !sorted {
        push_issue(&mut issues, CheckIssue::Unsorted, Ghost(e));
        proof {
            e = e.push(IssueView::Unsorted);
        }
    }
    let ghost e1 = e;
    let duplicates = a.find_duplicates();
    let ghost dups = duplicates_upto(a.spec_dirs(), a.spec_dirs().len() as int);
    let mut j: usize = 0;
    while j < duplicates.len()
        invariant
            j <= duplicates@.len(),
            duplicates@.len() == dups.len(),
            forall|k: int| 0 <= k < duplicates@.len() ==> (#[trigger] duplicates@[k])@ == dups[k],
            e == e1 + Seq::new(j as nat, |k: int| IssueView::DuplicatePath(lossy_text(dups[k]))),
            issues_are(issues@, e),
        decreases duplicates@.len() - j,
    {
        push_issue(&mut issues, CheckIssue::DuplicatePath(duplicates[j].to_string()), Ghost(e));
        proof {
            e = e.push(IssueView::DuplicatePath(lossy_text(dups[j as int])));
            assert(e =~= e1 + Seq::new((j + 1) as nat, |k: int| IssueView::DuplicatePath(lossy_text(dups[k]))));
        }
        j = j + 1;
    }
    let has_duplicates = duplicates.len() != 0;
    let orphaned = match a.has_orphaned_data() {
        Ok(b) => b,
        Err(err) => return Err(err),
    };
    if orphaned {
        push_issue(&mut issues, CheckIssue::OrphanedData, Ghost(e));
        proof {
            e = e.push(IssueView::OrphanedData);
        }
    }
    proof {
        assert(e =~= expected_issues(ga));
    }
    Ok(CheckReport { issues, is_compacted: sorted && !has_duplicates && !orphaned })
}

} // verus!
