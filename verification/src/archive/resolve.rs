//! Symlink target resolution: joining a target with its link's directory,
//! resolving `.` and `..`, and checking each component's name.

use vstd::prelude::*;
use crate::archive_path::{ArchivePath, spec_parent};
use crate::archive::model::{Archive, max0, entry_is};
use crate::archive::entries::Entry;
use crate::entry_kind::{EntryKind, spec_kind_of_mode};
use crate::format::entry_row::EntryRow;
use crate::error::BaleError;
use crate::text::{extend_bytes, str_from_utf8};
use vstd::utf8::{valid_utf8, encode_utf8};
use crate::archive_path::normalize_chars;
use vstd::string::StringSliceAdditionalSpecFns;

verus! {

/// Whether `safename::validate_file` accepts `name` as a file name.
pub uninterp spec fn safe_file_name(name: Seq<u8>) -> bool;

/// Checks one path component with `safename::validate_file` (default
/// options: 1 to 255 bytes, no control bytes, no blocked leading or
/// trailing bytes, valid UTF-8).
///
/// The contract names the result `safe_file_name` of the bytes, and states
/// the length rule that the crate's source shows: an empty name or one
/// longer than 255 bytes is refused.
#[verifier::external_body]
pub(crate) fn validate_component(name: &[u8]) -> (ok: bool)
    ensures
        ok == safe_file_name(name@),
        name@.len() == 0 || name@.len() > 255 ==> !ok,
{
    safename::validate_file(name).is_ok()
}

/// Path separators in a symlink target: `/` and `\`.
pub open spec fn is_sep_byte(b: u8) -> bool {
    b == 0x2F || b == 0x5C
}

/// Index of the first separator at or after `i`, or `s.len()`.
pub open spec fn first_sep_byte_from(s: Seq<u8>, i: int) -> int
    decreases s.len() - i,
{
    if i >= s.len() {
        s.len() as int
    } else if is_sep_byte(s[i]) {
        i
    } else {
        first_sep_byte_from(s, i + 1)
    }
}

/// The parts of `s` from `start` on, between separators (as `str::split`
/// gives them, empty parts included).
pub open spec fn split_from(s: Seq<u8>, start: int) -> Seq<Seq<u8>>
    decreases s.len() - start,
    when 0 <= start <= s.len()
{
    let k = first_sep_byte_from(s, start);
    if k >= s.len() || k < start {
        seq![s.subrange(start, s.len() as int)]
    } else {
        seq![s.subrange(start, k)] + split_from(s, k + 1)
    }
}

/// Resolves target components in order from the kept components `acc`:
/// empty parts and `.` are skipped, `..` drops the last kept component
/// (an error at the root), any other part must be a safe file name.
pub open spec fn target_parts(parts: Seq<Seq<u8>>, acc: Seq<Seq<u8>>) -> Result<
    Seq<Seq<u8>>,
    BaleError,
>
    decreases parts.len(),
{
    if parts.len() == 0 {
        Ok(acc)
    } else {
        let p = parts[0];
        if p.len() == 0 || p == seq![0x2Eu8] {
            target_parts(parts.drop_first(), acc)
        } else if p == seq![0x2Eu8, 0x2Eu8] {
            if acc.len() == 0 {
                Err(BaleError::InvalidPath)
            } else {
                target_parts(parts.drop_first(), acc.drop_last())
            }
        } else if !safe_file_name(p) {
            Err(BaleError::UnsafeFilename)
        } else {
            target_parts(parts.drop_first(), acc.push(p))
        }
    }
}

/// Components joined with `/`.
pub open spec fn join_bytes(c: Seq<Seq<u8>>) -> Seq<u8>
    decreases c.len(),
{
    if c.len() == 0 {
        Seq::empty()
    } else if c.len() == 1 {
        c[0]
    } else {
        join_bytes(c.drop_last()) + seq![0x2Fu8] + c.last()
    }
}

/// Where a symlink at `link` with target `target` points, as an archive
/// path: the target joined to the link's directory and resolved.
/// Absolute targets, a non-UTF-8 directory, escaping the root, unsafe
/// names and an empty result are errors.
pub open spec fn resolved_target(link: Seq<u8>, target: Seq<u8>) -> Result<Seq<u8>, BaleError> {
    let parent = spec_parent(link);
    if target.len() > 0 && is_sep_byte(target[0]) {
        Err(BaleError::InvalidPath)
    } else if parent.len() > 0 && !valid_utf8(parent) {
        Err(BaleError::InvalidUtf8)
    } else {
        let joined = if parent.len() == 0 {
            target
        } else {
            parent + seq![0x2Fu8] + target
        };
        finish_target(target_parts(split_from(joined, 0), Seq::empty()))
    }
}

/// The resolved path from the resolved components: an error stays, no
/// components is an invalid path, else the components joined with `/`.
pub open spec fn finish_target(r: Result<Seq<Seq<u8>>, BaleError>) -> Result<Seq<u8>, BaleError> {
    match r {
        Err(e) => Err(e),
        Ok(c) => if c.len() == 0 {
            Err(BaleError::InvalidPath)
        } else {
            Ok(join_bytes(c))
        },
    }
}

/// The components that the ranges `acc` mark in `s`.
pub open spec fn ranges_of(s: Seq<u8>, acc: Seq<(usize, usize)>) -> Seq<Seq<u8>> {
    Seq::new(acc.len(), |i: int| s.subrange(acc[i].0 as int, acc[i].1 as int))
}

/// Index of the first separator in `s` at or after `i`.
fn find_sep(s: &Vec<u8>, i: usize) -> (k: usize)
    requires
        i <= s@.len(),
    ensures
        k == first_sep_byte_from(s@, i as int),
        i <= k <= s@.len(),
{
    let mut k = i;
    while k < s.len() && s[k] != 0x2F && s[k] != 0x5C
        invariant
            i <= k <= s@.len(),
            first_sep_byte_from(s@, i as int) == first_sep_byte_from(s@, k as int),
        decreases s@.len() - k,
    {
        k = k + 1;
    }
    k
}

proof fn lemma_first_sep_bounds(s: Seq<u8>, i: int)
    requires
        0 <= i <= s.len(),
    ensures
        i <= first_sep_byte_from(s, i) <= s.len(),
    decreases s.len() - i,
{
    if i < s.len() && !is_sep_byte(s[i]) {
        lemma_first_sep_bounds(s, i + 1);
    }
}

/// Resolves a symlink's target relative to the symlink's directory: the
/// target is joined to the directory, `.` and `..` are resolved, and each
/// remaining component must be a safe file name. Returns the resolved
/// archive path.
pub fn resolve_target(symlink_path: &ArchivePath, target: &str) -> (r: Result<Vec<u8>, BaleError>)
    ensures
        match resolved_target(symlink_path@, target.spec_bytes()) {
            Err(e) => r == Err::<Vec<u8>, BaleError>(e),
            Ok(p) => r matches Ok(v) && v@ == p,
        },
{
    let tb = target.as_bytes();
    if tb.len() > 0 && (tb[0] == 0x2F || tb[0] == 0x5C) {
        return Err(BaleError::InvalidPath);
    }
    let parent = symlink_path.parent();
    proof {
        crate::archive_path::lemma_last_index_bounds(
            symlink_path@,
            0x2F,
            symlink_path@.len() as int,
        );
        assert(parent@.len() <= symlink_path@.len());
    }
    let mut joined: Vec<u8> = Vec::new();
    if parent.len() == 0 {
        extend_bytes(&mut joined, tb);
    } else {
        if str_from_utf8(parent.as_bytes()).is_none() {
            return Err(BaleError::InvalidUtf8);
        }
        extend_bytes(&mut joined, parent.as_bytes());
        joined.push(0x2F);
        extend_bytes(&mut joined, tb);
    }
    let ghost js = joined@;
    proof {
        if parent@.len() == 0 {
            assert(js =~= target.spec_bytes());
        } else {
            assert(js =~= spec_parent(symlink_path@) + seq![0x2Fu8] + target.spec_bytes());
        }
    }
    let n = joined.len();
    let mut acc: Vec<(usize, usize)> = Vec::new();
    let mut start: usize = 0;
    let mut more = true;
    proof {
        assert(ranges_of(js, acc@) =~= Seq::<Seq<u8>>::empty());
    }
    while more
        invariant
            resolved_target(symlink_path@, target.spec_bytes()) == finish_target(
                target_parts(split_from(js, 0), Seq::empty()),
            ),
            n == joined@.len(),
            js == joined@,
            start <= n,
            forall|x: int| 0 <= x < acc@.len() ==> (#[trigger] acc@[x]).0 <= acc@[x].1 <= n,
            more ==> target_parts(split_from(js, 0), Seq::empty()) == target_parts(
                split_from(js, start as int),
                ranges_of(js, acc@),
            ),
            !more ==> target_parts(split_from(js, 0), Seq::empty()) == Ok::<
                _,
                BaleError,
            >(ranges_of(js, acc@)),
        decreases n - start + (if more {
            1int
        } else {
            0int
        }),
    {
        let k = find_sep(&joined, start);
        proof {
            lemma_first_sep_bounds(js, start as int);
        }
        let ghost c = js.subrange(start as int, k as int);
        let ghost rest = if k >= n {
            Seq::<Seq<u8>>::empty()
        } else {
            split_from(js, k + 1)
        };
        proof {
            assert(split_from(js, start as int) =~= seq![c] + rest);
            assert((seq![c] + rest)[0] == c);
            assert((seq![c] + rest).drop_first() =~= rest);
        }
        let len = k - start;
        let ghost before = ranges_of(js, acc@);
        if len == 0 || (len == 1 && joined[start] == 0x2E) {
            proof {
                if len == 1 {
                    assert(c =~= seq![0x2Eu8]);
                }
            }
        } else if len == 2 && joined[start] == 0x2E && joined[start + 1] == 0x2E {
            proof {
                assert(c =~= seq![0x2Eu8, 0x2Eu8]);
            }
            if acc.len() == 0 {
                return Err(BaleError::InvalidPath);
            }
            acc.pop();
            proof {
                assert(ranges_of(js, acc@) =~= before.drop_last());
            }
        } else {
            proof {
                assert(c != seq![0x2Eu8]) by {
                    if len == 1 {
                        assert(c[0] == joined@[start as int]);
                    } else {
                        assert(c.len() != 1);
                    }
                }
                assert(c != seq![0x2Eu8, 0x2Eu8]) by {
                    if len == 2 {
                        assert(c[0] == joined@[start as int]);
                        assert(c[1] == joined@[start + 1]);
                    } else {
                        assert(c.len() != 2);
                    }
                }
            }
            if !validate_component(&joined.as_slice()[start..k]) {
                return Err(BaleError::UnsafeFilename);
            }
            acc.push((start, k));
            proof {
                assert(ranges_of(js, acc@) =~= before.push(c));
            }
        }
        proof {
            assert(target_parts(split_from(js, start as int), before) == target_parts(
                rest,
                ranges_of(js, acc@),
            ));
            if k >= n {
                assert(rest =~= Seq::<Seq<u8>>::empty());
                assert(target_parts(rest, ranges_of(js, acc@)) == Ok::<_, BaleError>(
                    ranges_of(js, acc@),
                ));
            }
        }
        if k >= n {
            more = false;
        } else {
            start = k + 1;
        }
    }
    if acc.len() == 0 {
        return Err(BaleError::InvalidPath);
    }
    let mut out: Vec<u8> = Vec::new();
    let mut i: usize = 0;
    let ghost comps = ranges_of(js, acc@);
    while i < acc.len()
        invariant
            resolved_target(symlink_path@, target.spec_bytes()) == finish_target(
                Ok::<_, BaleError>(comps),
            ),
            i <= acc@.len(),
            acc@.len() > 0,
            comps == ranges_of(js, acc@),
            js == joined@,
            forall|x: int| 0 <= x < acc@.len() ==> (#[trigger] acc@[x]).0 <= acc@[x].1 <= joined@.len(),
            i > 0 ==> out@ == join_bytes(comps.take(i as int)),
            i == 0 ==> out@.len() == 0,
        decreases acc@.len() - i,
    {
        let (a, b) = acc[i];
        proof {
            assert(comps.take(i + 1).drop_last() =~= comps.take(i as int));
            assert(comps.take(i + 1).last() == js.subrange(a as int, b as int));
        }
        if i > 0 {
            out.push(0x2F);
        }
        extend_bytes(&mut out, &joined.as_slice()[a..b]);
        proof {
            if i == 0 {
                assert(comps.take(1) =~= seq![comps[0]]);
                assert(out@ =~= join_bytes(comps.take(1)));
            } else {
                assert(out@ =~= join_bytes(comps.take(i + 1)));
            }
        }
        i = i + 1;
    }
    proof {
        assert(comps.take(i as int) =~= comps);
    }
    Ok(out)
}


/// Index of the first `/` at or after `i`, or `s.len()`.
pub open spec fn first_slash_from(s: Seq<u8>, i: int) -> int
    decreases s.len() - i,
{
    if i >= s.len() {
        s.len() as int
    } else if s[i] == 0x2F {
        i
    } else {
        first_slash_from(s, i + 1)
    }
}

/// The parts of `s` from `start` on between `/` bytes (as `str::split('/')`).
pub open spec fn split_slash_from(s: Seq<u8>, start: int) -> Seq<Seq<u8>>
    decreases s.len() - start,
    when 0 <= start <= s.len()
{
    let k = first_slash_from(s, start);
    if k >= s.len() || k < start {
        seq![s.subrange(start, s.len() as int)]
    } else {
        seq![s.subrange(start, k)] + split_slash_from(s, k + 1)
    }
}

/// The path built from the first `i` parts, each appended with a `/`
/// unless the path so far is empty.
pub open spec fn acc_path(comps: Seq<Seq<u8>>, i: int) -> Seq<u8>
    decreases i,
{
    if i <= 0 {
        Seq::empty()
    } else {
        let p = acc_path(comps, i - 1);
        if p.len() == 0 {
            comps[i - 1]
        } else {
            p + seq![0x2Fu8] + comps[i - 1]
        }
    }
}

/// Following a symlink found at depth `depth`: one level deeper (at most
/// 256), the target must be UTF-8 and resolve; the rest of the walked
/// path, if any, is appended.
pub open spec fn follow_link(
    link: Seq<u8>,
    target: Seq<u8>,
    has_rest: bool,
    rest: Seq<u8>,
    depth: nat,
) -> Result<(Seq<u8>, nat), BaleError> {
    if depth + 1 > 256 {
        Err(BaleError::SymlinkLoop)
    } else if !valid_utf8(target) {
        Err(BaleError::InvalidPath)
    } else {
        match resolved_target(link, target) {
            Err(e) => Err(e),
            Ok(rt) => Ok(
                (
                    if has_rest {
                        rt + seq![0x2Fu8] + rest
                    } else {
                        rt
                    },
                    depth + 1,
                ),
            ),
        }
    }
}

/// A symlink met once 256 links have been followed is a loop.
pub proof fn lemma_link_limit(link: Seq<u8>, target: Seq<u8>, has_rest: bool, rest: Seq<u8>, depth: nat)
    requires
        depth >= 256,
    ensures
        follow_link(link, target, has_rest, rest, depth) == Err::<(Seq<u8>, nat), BaleError>(
            BaleError::SymlinkLoop,
        ),
{
}

impl Archive {
    /// Resolving `cur` with `depth` links followed so far: the entry itself
    /// when it is not a symlink; its target, resolved, when it is; and when
    /// it is not found, a walk over its components.
    pub open spec fn resolve_from(self, cur: Seq<u8>, depth: nat) -> Result<
        (EntryRow, Seq<u8>, u32, Seq<u8>),
        BaleError,
    >
        decreases max0(257 - depth), split_slash_from(cur, 0).len() + 1,
    {
        match self.entry_outcome(cur) {
            Ok(t) => if spec_kind_of_mode(t.0.mode) == EntryKind::Symlink {
                match follow_link(t.1, t.3, false, Seq::empty(), depth) {
                    Err(e) => Err(e),
                    Ok(nd) => self.resolve_from(nd.0, nd.1),
                }
            } else {
                Ok(t)
            },
            Err(e) => if e == BaleError::EntryNotFound {
                self.walk(cur, 0, depth)
            } else {
                Err(e)
            },
        }
    }

    /// Walking the components of `cur` from component `i`: each prefix is
    /// looked up; a symlink is followed with the rest of the path, a
    /// directory lets the walk go on, the last component's entry is the
    /// result, and a file before the end is not a directory.
    pub open spec fn walk(self, cur: Seq<u8>, i: int, depth: nat) -> Result<
        (EntryRow, Seq<u8>, u32, Seq<u8>),
        BaleError,
    >
        decreases max0(257 - depth), split_slash_from(cur, 0).len() - i,
    {
        let comps = split_slash_from(cur, 0);
        if i < 0 || i >= comps.len() {
            Err(BaleError::EntryNotFound)
        } else {
            let resolved = acc_path(comps, i + 1);
            let last = i + 1 >= comps.len();
            match self.entry_outcome(resolved) {
                Ok(t) => if spec_kind_of_mode(t.0.mode) == EntryKind::Symlink {
                    match follow_link(t.1, t.3, !last, join_bytes(comps.skip(i + 1)), depth) {
                        Err(e) => Err(e),
                        Ok(nd) => self.resolve_from(nd.0, nd.1),
                    }
                } else if last {
                    Ok(t)
                } else if spec_kind_of_mode(t.0.mode) == EntryKind::Directory {
                    self.walk(cur, i + 1, depth)
                } else {
                    Err(BaleError::NotADirectory)
                },
                Err(e) => Err(e),
            }
        }
    }
}

/// What one round of resolution does: finish, or go on with a new path
/// one link deeper.
enum Step<'a> {
    Done(Result<Entry<'a>, BaleError>),
    Next(Vec<u8>, u32),
}

/// Index of the first `/` in `s` at or after `i`.
fn find_slash(s: &Vec<u8>, i: usize) -> (k: usize)
    requires
        i <= s@.len(),
    ensures
        k == first_slash_from(s@, i as int),
        i <= k <= s@.len(),
{
    let mut k = i;
    while k < s.len() && s[k] != 0x2F
        invariant
            i <= k <= s@.len(),
            first_slash_from(s@, i as int) == first_slash_from(s@, k as int),
        decreases s@.len() - k,
    {
        k = k + 1;
    }
    k
}

proof fn lemma_first_slash_bounds(s: Seq<u8>, i: int)
    requires
        0 <= i <= s.len(),
    ensures
        i <= first_slash_from(s, i) <= s.len(),
        first_slash_from(s, i) < s.len() ==> s[first_slash_from(s, i)] == 0x2F,
    decreases s.len() - i,
{
    if i < s.len() && s[i] != 0x2F {
        lemma_first_slash_bounds(s, i + 1);
    }
}

/// Joining a part in front of other parts.
proof fn lemma_join_cons(x: Seq<u8>, rest: Seq<Seq<u8>>)
    ensures
        join_bytes(seq![x] + rest) == (if rest.len() == 0 {
            x
        } else {
            x + seq![0x2Fu8] + join_bytes(rest)
        }),
    decreases rest.len(),
{
    let c = seq![x] + rest;
    if rest.len() == 0 {
        assert(c =~= seq![x]);
    } else if rest.len() == 1 {
        assert(c.drop_last() =~= seq![x]);
        assert(c.last() == rest[0]);
        assert(join_bytes(c.drop_last()) == x);
        assert(join_bytes(c) == join_bytes(c.drop_last()) + seq![0x2Fu8] + c.last());
        assert(join_bytes(rest) == rest[0]);
    } else {
        lemma_join_cons(x, rest.drop_last());
        assert(c.drop_last() =~= seq![x] + rest.drop_last());
        assert(c.last() == rest.last());
        assert(join_bytes(c) == join_bytes(c.drop_last()) + seq![0x2Fu8] + c.last());
        assert(join_bytes(rest) == join_bytes(rest.drop_last()) + seq![0x2Fu8] + rest.last());
        assert(x + seq![0x2Fu8] + join_bytes(rest) =~= x + seq![0x2Fu8] + join_bytes(
            rest.drop_last(),
        ) + seq![0x2Fu8] + rest.last());
    }
}

/// Joining the `/`-parts of a string with `/` gives the string back.
proof fn lemma_join_split(s: Seq<u8>, a: int)
    requires
        0 <= a <= s.len(),
    ensures
        join_bytes(split_slash_from(s, a)) == s.subrange(a, s.len() as int),
    decreases s.len() - a,
{
    lemma_first_slash_bounds(s, a);
    let k = first_slash_from(s, a);
    if k < s.len() {
        lemma_join_split(s, k + 1);
        let rest = split_slash_from(s, k + 1);
        lemma_join_cons(s.subrange(a, k), rest);
        assert(rest.len() > 0);
        assert(s.subrange(a, k) + seq![0x2Fu8] + s.subrange(k + 1, s.len() as int) =~= s.subrange(
            a,
            s.len() as int,
        ));
    } else {
        assert(join_bytes(seq![s.subrange(a, s.len() as int)]) == s.subrange(a, s.len() as int));
    }
}

impl Archive {
    /// Follows a symlink with stored path `link` and target `target` at
    /// `depth`, appending `rest` when `has_rest`.
    fn follow(&self, link: &ArchivePath, target: &[u8], has_rest: bool, rest: &[u8], depth: u32) -> (r:
        Result<(Vec<u8>, u32), BaleError>)
        requires
            depth <= 256,
        ensures
            match follow_link(link@, target@, has_rest, rest@, depth as nat) {
                Err(e) => r == Err::<(Vec<u8>, u32), BaleError>(e),
                Ok(nd) => r matches Ok(x) && x.0@ == nd.0 && x.1 == nd.1,
            },
    {
        if depth + 1 > 256 {
            return Err(BaleError::SymlinkLoop);
        }
        let t = match str_from_utf8(target) {
            Some(t) => t,
            None => return Err(BaleError::InvalidPath),
        };
        proof {
            vstd::utf8::decode_utf8_encode_utf8(target@);
            assert(t.spec_bytes() == target@);
        }
        let mut rt = match resolve_target(link, t) {
            Ok(v) => v,
            Err(e) => return Err(e),
        };
        if has_rest {
            rt.push(0x2F);
            extend_bytes(&mut rt, rest);
        }
        Ok((rt, depth + 1))
    }
}


proof fn lemma_split_nonempty(s: Seq<u8>, a: int)
    requires
        0 <= a <= s.len(),
    ensures
        split_slash_from(s, a).len() >= 1,
{
}

impl Archive {
    /// One round of resolution of `cur`: the entry, an error, or the path
    /// to go on with after following a symlink.
    fn step(&self, cur: &Vec<u8>, depth: u32) -> (r: Step<'_>)
        requires
            self.wf(),
            depth <= 256,
        ensures
            match r {
                Step::Done(res) => match self.resolve_from(cur@, depth as nat) {
                    Err(e) => res == Err::<Entry, BaleError>(e),
                    Ok(t) => res matches Ok(e) && entry_is(e, t.0, t.1, t.2, t.3),
                },
                Step::Next(n, d) => d == depth + 1 && d <= 256 && self.resolve_from(
                    cur@,
                    depth as nat,
                ) == self.resolve_from(n@, d as nat),
            },
    {
        let empty: [u8; 0] = [];
        match self.entry_bytes(cur.as_slice()) {
            Ok(Entry::Symlink(l)) => {
                return match self.follow(&l.path, l.target, false, &empty, depth) {
                    Ok((nn, d)) => Step::Next(nn, d),
                    Err(e) => Step::Done(Err(e)),
                };
            },
            Ok(e) => {
                return Step::Done(Ok(e));
            },
            Err(BaleError::EntryNotFound) => {},
            Err(e) => {
                return Step::Done(Err(e));
            },
        }
        let n = cur.len();
        let mut start: usize = 0;
        let mut resolved: Vec<u8> = Vec::new();
        let ghost comps = split_slash_from(cur@, 0);
        let ghost mut i: int = 0;
        proof {
            lemma_split_nonempty(cur@, 0);
            assert(comps.skip(0) =~= comps);
        }
        loop
            invariant
                self.wf(),
                depth <= 256,
                n == cur@.len(),
                comps == split_slash_from(cur@, 0),
                0 <= i < comps.len(),
                start <= n,
                comps.skip(i) == split_slash_from(cur@, start as int),
                resolved@ == acc_path(comps, i),
                self.resolve_from(cur@, depth as nat) == self.walk(cur@, i, depth as nat),
            decreases n - start,
        {
            let k = find_slash(cur, start);
            proof {
                lemma_first_slash_bounds(cur@, start as int);
                assert(comps.skip(i)[0] == comps[i]);
                assert(comps[i] == cur@.subrange(start as int, k as int));
                if k < n {
                    assert(comps.skip(i + 1) =~= comps.skip(i).drop_first());
                    assert(comps.skip(i + 1) == split_slash_from(cur@, k + 1));
                    lemma_split_nonempty(cur@, k + 1);
                    lemma_join_split(cur@, k + 1);
                } else {
                    assert(comps.skip(i).len() == 1);
                }
            }
            if resolved.len() == 0 {
                extend_bytes(&mut resolved, &cur.as_slice()[start..k]);
            } else {
                resolved.push(0x2F);
                extend_bytes(&mut resolved, &cur.as_slice()[start..k]);
            }
            let last = k >= n;
            proof {
                assert(resolved@ == acc_path(comps, i + 1));
                assert(last == (i + 1 >= comps.len()));
            }
            match self.entry_bytes(resolved.as_slice()) {
                Ok(Entry::Symlink(l)) => {
                    let rest: &[u8] = if last {
                        &empty
                    } else {
                        &cur.as_slice()[k + 1..n]
                    };
                    return match self.follow(&l.path, l.target, !last, rest, depth) {
                        Ok((nn, d)) => Step::Next(nn, d),
                        Err(e) => Step::Done(Err(e)),
                    };
                },
                Ok(e) => {
                    if last {
                        return Step::Done(Ok(e));
                    }
                    match e {
                        Entry::Directory(_) => {},
                        _ => {
                            return Step::Done(Err(BaleError::NotADirectory));
                        },
                    }
                },
                Err(e) => {
                    return Step::Done(Err(e));
                },
            }
            start = k + 1;
            proof {
                i = i + 1;
            }
        }
    }

    /// Resolves a path, following symlinks: the path is normalized, then
    /// looked up; a symlink leads to its resolved target (at most 256
    /// links deep, else a symlink loop); a path that is not found is walked
    /// component by component so that symlinked directories are followed.
    pub fn resolve(&self, path: &str) -> (r: Result<Entry<'_>, BaleError>)
        requires
            self.wf(),
        ensures
            match normalize_chars(path@) {
                None => r == Err::<Entry, BaleError>(BaleError::InvalidPath),
                Some(c) => match self.resolve_from(encode_utf8(c), 0) {
                    Err(e) => r == Err::<Entry, BaleError>(e),
                    Ok(t) => r matches Ok(e) && entry_is(e, t.0, t.1, t.2, t.3),
                },
            },
    {
        let mut current = match ArchivePath::normalize_bytes(path) {
            Ok(v) => v,
            Err(e) => return Err(e),
        };
        let mut depth: u32 = 0;
        loop
            invariant
                self.wf(),
                depth <= 256,
                normalize_chars(path@) is Some,
                self.resolve_from(encode_utf8(normalize_chars(path@)->0), 0) == self.resolve_from(
                    current@,
                    depth as nat,
                ),
            decreases 256 - depth,
        {
            match self.step(&current, depth) {
                Step::Done(r) => {
                    return r;
                },
                Step::Next(n, d) => {
                    current = n;
                    depth = d;
                },
            }
        }
    }
}

/// A symlink whose target resolves to its own path is a loop: resolving
/// it, at any depth, gives `SymlinkLoop`.
pub proof fn lemma_self_link_loops(a: Archive, cur: Seq<u8>, depth: nat)
    requires
        a.entry_outcome(cur) is Ok,
        spec_kind_of_mode(a.entry_outcome(cur)->Ok_0.0.mode) == EntryKind::Symlink,
        valid_utf8(a.entry_outcome(cur)->Ok_0.3),
        resolved_target(a.entry_outcome(cur)->Ok_0.1, a.entry_outcome(cur)->Ok_0.3) == Ok::<
            Seq<u8>,
            BaleError,
        >(cur),
    ensures
        a.resolve_from(cur, depth) == Err::<(EntryRow, Seq<u8>, u32, Seq<u8>), BaleError>(
            BaleError::SymlinkLoop,
        ),
    decreases 257 - depth,
{
    if depth + 1 <= 256 {
        lemma_self_link_loops(a, cur, depth + 1);
    }
}

/// Whether `p` is a symlink whose target (UTF-8) resolves to `q`.
pub open spec fn links_to(a: Archive, p: Seq<u8>, q: Seq<u8>) -> bool {
    &&& a.entry_outcome(p) is Ok
    &&& spec_kind_of_mode(a.entry_outcome(p)->Ok_0.0.mode) == EntryKind::Symlink
    &&& valid_utf8(a.entry_outcome(p)->Ok_0.3)
    &&& resolved_target(a.entry_outcome(p)->Ok_0.1, a.entry_outcome(p)->Ok_0.3) == Ok::<Seq<u8>, BaleError>(q)
}

/// Whether each path of `c` but the last links to the next one.
pub open spec fn link_chain(a: Archive, c: Seq<Seq<u8>>) -> bool {
    forall|i: int| 0 <= i < c.len() - 1 ==> #[trigger] links_to(a, c[i], c[i + 1])
}

proof fn lemma_chain_from(a: Archive, c: Seq<Seq<u8>>, i: int, d: nat)
    requires
        link_chain(a, c),
        0 <= i < c.len(),
        d <= 256,
        a.entry_outcome(c.last()) is Ok,
        spec_kind_of_mode(a.entry_outcome(c.last())->Ok_0.0.mode) != EntryKind::Symlink,
    ensures
        a.resolve_from(c[i], d) == if d + (c.len() - 1 - i) <= 256 {
            Ok::<(EntryRow, Seq<u8>, u32, Seq<u8>), BaleError>(a.entry_outcome(c.last())->Ok_0)
        } else {
            Err::<(EntryRow, Seq<u8>, u32, Seq<u8>), BaleError>(BaleError::SymlinkLoop)
        },
    decreases c.len() - i,
{
    if i < c.len() - 1 {
        assert(links_to(a, c[i], c[i + 1]));
        if d + 1 <= 256 {
            lemma_chain_from(a, c, i + 1, d + 1);
        }
    }
}

/// Following a chain of links: when the chain's last path is not a
/// symlink, resolving its first path gives the last path's entry if the
/// chain has at most 256 links, and `SymlinkLoop` if it has more.
pub proof fn lemma_link_chain(a: Archive, c: Seq<Seq<u8>>)
    requires
        c.len() >= 1,
        link_chain(a, c),
        a.entry_outcome(c.last()) is Ok,
        spec_kind_of_mode(a.entry_outcome(c.last())->Ok_0.0.mode) != EntryKind::Symlink,
    ensures
        a.resolve_from(c[0], 0) == if c.len() - 1 <= 256 {
            Ok::<(EntryRow, Seq<u8>, u32, Seq<u8>), BaleError>(a.entry_outcome(c.last())->Ok_0)
        } else {
            Err::<(EntryRow, Seq<u8>, u32, Seq<u8>), BaleError>(BaleError::SymlinkLoop)
        },
{
    lemma_chain_from(a, c, 0, 0);
}

proof fn lemma_cycle_from(a: Archive, c: Seq<Seq<u8>>, i: int, d: nat)
    requires
        c.len() >= 1,
        forall|j: int| 0 <= j < c.len() ==> #[trigger] links_to(a, c[j], c[(j + 1) % (c.len() as int)]),
        0 <= i < c.len(),
    ensures
        a.resolve_from(c[i], d) == Err::<(EntryRow, Seq<u8>, u32, Seq<u8>), BaleError>(
            BaleError::SymlinkLoop,
        ),
    decreases 257 - d,
{
    assert(links_to(a, c[i], c[(i + 1) % (c.len() as int)]));
    if d + 1 <= 256 {
        lemma_cycle_from(a, c, (i + 1) % (c.len() as int), d + 1);
    }
}

/// A cycle of links never resolves: each of its paths gives
/// `SymlinkLoop`.
pub proof fn lemma_link_cycle(a: Archive, c: Seq<Seq<u8>>, i: int)
    requires
        c.len() >= 1,
        forall|j: int| 0 <= j < c.len() ==> #[trigger] links_to(a, c[j], c[(j + 1) % (c.len() as int)]),
        0 <= i < c.len(),
    ensures
        a.resolve_from(c[i], 0) == Err::<(EntryRow, Seq<u8>, u32, Seq<u8>), BaleError>(
            BaleError::SymlinkLoop,
        ),
{
    lemma_cycle_from(a, c, i, 0);
}

} // verus!
