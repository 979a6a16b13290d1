//! Archive paths: validated, normalized paths within a bale archive.

use vstd::prelude::*;
use vstd::utf8::{valid_utf8, decode_utf8, encode_utf8};
use crate::chars::{is_ws, all_ws, char_is_ws, chars_of, encode_chars};
use crate::error::BaleError;
use crate::text::{str_from_utf8, is_ascii_bytes};
use vstd::std_specs::convert::FromSpecImpl;

verus! {

// ---------------------------------------------------------------------
// Specification of normalization
// ---------------------------------------------------------------------

/// Path separators: `/` and `\`.
pub open spec fn is_sep(c: char) -> bool {
    c == '/' || c == '\\'
}

/// Index of the first separator at or after `i`, or `s.len()` if none.
pub open spec fn first_sep_from(s: Seq<char>, i: int) -> int
    decreases s.len() - i,
{
    if i >= s.len() {
        s.len() as int
    } else if is_sep(s[i]) {
        i
    } else {
        first_sep_from(s, i + 1)
    }
}

/// The parts of `s` between separators, as `str::split` on `/` and `\`
/// gives them (empty parts included; the empty string has one empty part).
pub open spec fn split_parts(s: Seq<char>) -> Seq<Seq<char>>
    decreases s.len(),
{
    let k = first_sep_from(s, 0);
    if k >= s.len() || k < 0 {
        seq![s]
    } else {
        seq![s.take(k)] + split_parts(s.skip(k + 1))
    }
}

/// The one-character component `.`.
pub open spec fn dot() -> Seq<char> {
    seq!['.']
}

/// The two-character component `..`.
pub open spec fn dotdot() -> Seq<char> {
    seq!['.', '.']
}

/// One step of resolving components: empty parts and `.` are skipped, `..`
/// drops the last kept component (failing at the root), a whitespace-only
/// part fails, anything else is kept.
pub open spec fn resolve_step(p: Seq<char>, acc: Seq<Seq<char>>) -> Option<Seq<Seq<char>>> {
    if p.len() == 0 || p == dot() {
        Some(acc)
    } else if p == dotdot() {
        if acc.len() == 0 {
            None
        } else {
            Some(acc.drop_last())
        }
    } else if all_ws(p) {
        None
    } else {
        Some(acc.push(p))
    }
}

/// Resolves `parts` in order starting from the kept components `acc`.
pub open spec fn resolve_parts(parts: Seq<Seq<char>>, acc: Seq<Seq<char>>) -> Option<
    Seq<Seq<char>>,
>
    decreases parts.len(),
{
    if parts.len() == 0 {
        Some(acc)
    } else {
        match resolve_step(parts[0], acc) {
            None => None,
            Some(a) => resolve_parts(parts.drop_first(), a),
        }
    }
}

/// Number of leading whitespace characters from `i` on.
pub open spec fn ws_lead_from(s: Seq<char>, i: int) -> int
    decreases s.len() - i,
{
    if i >= s.len() {
        s.len() as int
    } else if is_ws(s[i]) {
        ws_lead_from(s, i + 1)
    } else {
        i
    }
}

/// End of `s[..j]` once trailing whitespace is removed.
pub open spec fn ws_end_from(s: Seq<char>, j: int) -> int
    decreases j,
{
    if j <= 0 {
        0
    } else if is_ws(s[j - 1]) {
        ws_end_from(s, j - 1)
    } else {
        j
    }
}

/// `s` without leading and trailing whitespace (`str::trim`).
pub open spec fn trim(s: Seq<char>) -> Seq<char> {
    let lo = ws_lead_from(s, 0);
    let hi = ws_end_from(s, s.len() as int);
    if lo >= hi {
        Seq::empty()
    } else {
        s.subrange(lo, hi)
    }
}

/// Components joined with `/`.
pub open spec fn join_slash(comps: Seq<Seq<char>>) -> Seq<char>
    decreases comps.len(),
{
    if comps.len() == 0 {
        Seq::empty()
    } else if comps.len() == 1 {
        comps[0]
    } else {
        join_slash(comps.drop_last()) + seq!['/'] + comps.last()
    }
}

/// The normalized form of a path string: trimmed, split on `/` and `\`,
/// `.` and empty components removed, `..` resolved, rejoined with `/`.
/// `None` when a `..` would leave the root, a component is whitespace-only,
/// or nothing remains.
pub open spec fn normalize_chars(s: Seq<char>) -> Option<Seq<char>> {
    match resolve_parts(split_parts(trim(s)), Seq::empty()) {
        Some(c) => if c.len() == 0 {
            None
        } else {
            Some(join_slash(c))
        },
        None => None,
    }
}

/// A path string in normalized form: non-empty, no backslash, no leading or
/// trailing slash, and every `/`-separated component non-empty, not
/// whitespace-only, and neither `.` nor `..`.
pub open spec fn is_normalized_chars(s: Seq<char>) -> bool {
    &&& s.len() > 0
    &&& forall|i: int| 0 <= i < s.len() ==> s[i] != '\\'
    &&& s[0] != '/'
    &&& s[s.len() - 1] != '/'
    &&& forall|k: int|
        0 <= k < split_parts(s).len() ==> {
            let c = #[trigger] split_parts(s)[k];
            c.len() > 0 && !all_ws(c) && c != dot() && c != dotdot()
        }
}

// ---------------------------------------------------------------------
// Lemmas about the specification
// ---------------------------------------------------------------------

proof fn lemma_first_sep_at(s: Seq<char>, j: int, k: int)
    requires
        0 <= j <= k <= s.len(),
        forall|x: int| j <= x < k ==> !is_sep(#[trigger] s[x]),
        k == s.len() || is_sep(s[k]),
    ensures
        first_sep_from(s, j) == k,
    decreases k - j,
{
    if j < k {
        lemma_first_sep_at(s, j + 1, k);
    }
}

/// Splitting at the first separator.
proof fn lemma_split_at_sep(s: Seq<char>, k: int)
    requires
        0 <= k < s.len(),
        forall|x: int| 0 <= x < k ==> !is_sep(#[trigger] s[x]),
        is_sep(s[k]),
    ensures
        split_parts(s) == seq![s.take(k)] + split_parts(s.skip(k + 1)),
{
    lemma_first_sep_at(s, 0, k);
}

/// A string without separators is a single part.
proof fn lemma_split_no_sep(s: Seq<char>)
    requires
        forall|x: int| 0 <= x < s.len() ==> !is_sep(#[trigger] s[x]),
    ensures
        split_parts(s) == seq![s],
{
    lemma_first_sep_at(s, 0, s.len() as int);
}

proof fn lemma_resolve_cons(p: Seq<char>, rest: Seq<Seq<char>>, acc: Seq<Seq<char>>)
    ensures
        resolve_parts(seq![p] + rest, acc) == (match resolve_step(p, acc) {
            None => None,
            Some(a) => resolve_parts(rest, a),
        }),
{
    let ps = seq![p] + rest;
    assert(ps[0] == p);
    assert(ps.drop_first() =~= rest);
}

proof fn lemma_ws_lead(s: Seq<char>, i: int, k: int)
    requires
        0 <= i <= k <= s.len(),
        forall|x: int| i <= x < k ==> is_ws(#[trigger] s[x]),
        k == s.len() || !is_ws(s[k]),
    ensures
        ws_lead_from(s, i) == k,
    decreases k - i,
{
    if i < k {
        lemma_ws_lead(s, i + 1, k);
    }
}

proof fn lemma_ws_end(s: Seq<char>, j: int, k: int)
    requires
        0 <= k <= j <= s.len(),
        forall|x: int| k <= x < j ==> is_ws(#[trigger] s[x]),
        k == 0 || !is_ws(s[k - 1]),
    ensures
        ws_end_from(s, j) == k,
    decreases j - k,
{
    if k < j {
        lemma_ws_end(s, j - 1, k);
    }
}

/// Joining one more component.
proof fn lemma_join_push(comps: Seq<Seq<char>>, c: Seq<char>)
    requires
        comps.len() > 0,
    ensures
        join_slash(comps.push(c)) == join_slash(comps) + seq!['/'] + c,
{
    assert(comps.push(c).drop_last() =~= comps);
}

// ---------------------------------------------------------------------
// Laws of normalization
// ---------------------------------------------------------------------

/// No character of `p` is a separator.
pub open spec fn sep_free(p: Seq<char>) -> bool {
    forall|x: int| 0 <= x < p.len() ==> !is_sep(#[trigger] p[x])
}

/// What `first_sep_from` finds: no separator before it, a separator at it
/// (unless it is the end).
proof fn lemma_first_sep_props(s: Seq<char>, i: int)
    requires
        0 <= i <= s.len(),
    ensures
        i <= first_sep_from(s, i) <= s.len(),
        forall|x: int| i <= x < first_sep_from(s, i) ==> !is_sep(#[trigger] s[x]),
        first_sep_from(s, i) < s.len() ==> is_sep(s[first_sep_from(s, i)]),
    decreases s.len() - i,
{
    if i < s.len() && !is_sep(s[i]) {
        lemma_first_sep_props(s, i + 1);
    }
}

/// The parts of a split hold no separator, and there is at least one.
proof fn lemma_split_parts_sep_free(s: Seq<char>)
    ensures
        split_parts(s).len() > 0,
        forall|k: int| 0 <= k < split_parts(s).len() ==> sep_free(#[trigger] split_parts(s)[k]),
    decreases s.len(),
{
    lemma_first_sep_props(s, 0);
    let k = first_sep_from(s, 0);
    if k < s.len() {
        lemma_split_parts_sep_free(s.skip(k + 1));
        let rest = split_parts(s.skip(k + 1));
        assert forall|j: int| 0 <= j < split_parts(s).len() implies sep_free(
            #[trigger] split_parts(s)[j],
        ) by {
            if j > 0 {
                assert(split_parts(s)[j] == rest[j - 1]);
            }
        }
    }
}

/// A component that resolution keeps: non-empty, without separators, not
/// whitespace-only, and neither `.` nor `..`.
pub open spec fn kept_component(c: Seq<char>) -> bool {
    component_ok(c) && sep_free(c)
}

/// Resolving separator-free parts keeps only such components.
proof fn lemma_resolve_kept(parts: Seq<Seq<char>>, acc: Seq<Seq<char>>)
    requires
        forall|k: int| 0 <= k < parts.len() ==> sep_free(#[trigger] parts[k]),
        forall|k: int| 0 <= k < acc.len() ==> kept_component(#[trigger] acc[k]),
        resolve_parts(parts, acc) is Some,
    ensures
        forall|k: int|
            0 <= k < resolve_parts(parts, acc)->0.len() ==> kept_component(
                #[trigger] resolve_parts(parts, acc)->0[k],
            ),
    decreases parts.len(),
{
    if parts.len() > 0 {
        let a = resolve_step(parts[0], acc)->0;
        assert forall|k: int| 0 <= k < a.len() implies kept_component(#[trigger] a[k]) by {
            if k < acc.len() {
                assert(a[k] == acc[k]);
            } else {
                assert(a[k] == parts[0]);
            }
        }
        assert forall|k: int| 0 <= k < parts.drop_first().len() implies sep_free(
            #[trigger] parts.drop_first()[k],
        ) by {
            assert(parts.drop_first()[k] == parts[k + 1]);
        }
        lemma_resolve_kept(parts.drop_first(), a);
    }
}

/// Joining kept components gives a non-empty text with no backslash, no
/// slash at either end and no two slashes in a row.
proof fn lemma_join_shape(c: Seq<Seq<char>>)
    requires
        c.len() > 0,
        forall|k: int| 0 <= k < c.len() ==> kept_component(#[trigger] c[k]),
    ensures
        ({
            let t = join_slash(c);
            &&& t.len() > 0
            &&& t[0] != '/'
            &&& t[t.len() - 1] != '/'
            &&& forall|i: int| 0 <= i < t.len() ==> #[trigger] t[i] != '\\'
            &&& forall|i: int| 0 <= i < t.len() - 1 ==> !(#[trigger] t[i] == '/' && t[i + 1] == '/')
        }),
    decreases c.len(),
{
    let t = join_slash(c);
    if c.len() == 1 {
        assert(kept_component(c[0]));
    } else {
        let u = join_slash(c.drop_last());
        let l = c.last();
        assert forall|k: int| 0 <= k < c.drop_last().len() implies kept_component(
            #[trigger] c.drop_last()[k],
        ) by {
            assert(c.drop_last()[k] == c[k]);
        }
        lemma_join_shape(c.drop_last());
        assert(kept_component(c[c.len() - 1]));
        assert(t == u + seq!['/'] + l);
        let n = u.len() as int;
        assert forall|i: int| 0 <= i < t.len() implies #[trigger] t[i] != '\\' by {
            if i < n {
                assert(t[i] == u[i]);
            } else if i > n {
                assert(t[i] == l[i - n - 1]);
            }
        }
        assert forall|i: int| 0 <= i < t.len() - 1 implies !(#[trigger] t[i] == '/' && t[i + 1] == '/') by {
            if i < n - 1 {
                assert(t[i] == u[i] && t[i + 1] == u[i + 1]);
            } else if i == n - 1 {
                assert(t[i] == u[n - 1]);
            } else if i == n {
                assert(t[i + 1] == l[0]);
            } else {
                assert(t[i] == l[i - n - 1]);
            }
        }
        assert(t[0] == u[0]);
        assert(t[t.len() - 1] == l[l.len() - 1]);
    }
}

/// Normalized paths have a clean shape: they are non-empty, hold no
/// backslash, do not start or end with a slash, and never hold two slashes
/// in a row.
pub proof fn lemma_normalized_shape(s: Seq<char>)
    requires
        normalize_chars(s) is Some,
    ensures
        ({
            let t = normalize_chars(s)->0;
            &&& t.len() > 0
            &&& t[0] != '/'
            &&& t[t.len() - 1] != '/'
            &&& forall|i: int| 0 <= i < t.len() ==> #[trigger] t[i] != '\\'
            &&& forall|i: int| 0 <= i < t.len() - 1 ==> !(#[trigger] t[i] == '/' && t[i + 1] == '/')
        }),
{
    let parts = split_parts(trim(s));
    lemma_split_parts_sep_free(trim(s));
    lemma_resolve_kept(parts, Seq::empty());
    lemma_join_shape(resolve_parts(parts, Seq::empty())->0);
}

/// `ws_end_from` stops at or after a non-whitespace character.
proof fn lemma_ws_end_at_least(s: Seq<char>, j: int, m: int)
    requires
        1 <= m <= j <= s.len(),
        !is_ws(s[m - 1]),
    ensures
        m <= ws_end_from(s, j) <= j,
    decreases j,
{
    if j > m && is_ws(s[j - 1]) {
        lemma_ws_end_at_least(s, j - 1, m);
    }
}

/// A path whose first component is `..` is refused: it would leave the
/// root.
pub proof fn lemma_leading_dotdot_rejected(s: Seq<char>)
    requires
        s.len() >= 2,
        s[0] == '.',
        s[1] == '.',
        s.len() == 2 || is_sep(s[2]),
    ensures
        normalize_chars(s) is None,
{
    assert(!is_ws(s[0]));
    lemma_ws_lead(s, 0, 0);
    let hi = ws_end_from(s, s.len() as int);
    if s.len() == 2 {
        lemma_ws_end_at_least(s, 2, 2);
    } else {
        assert(!is_ws(s[2]));
        lemma_ws_end_at_least(s, s.len() as int, 3);
    }
    let t = trim(s);
    assert(t == s.subrange(0, hi));
    assert(t[0] == '.' && t[1] == '.');
    lemma_first_sep_at(t, 0, 2);
    let parts = split_parts(t);
    assert(parts[0] =~= dotdot());
    assert(resolve_step(parts[0], Seq::empty()) is None);
}

/// Joining a part in front of a non-empty list of parts.
proof fn lemma_join_prepend(a: Seq<char>, r: Seq<Seq<char>>)
    requires
        r.len() > 0,
    ensures
        join_slash(seq![a] + r) == a + seq!['/'] + join_slash(r),
    decreases r.len(),
{
    if r.len() == 1 {
        assert((seq![a] + r).drop_last() =~= seq![a]);
        assert(join_slash(seq![a] + r) == join_slash(seq![a]) + seq!['/'] + r[0]);
        assert(join_slash(r) == r[0]);
    } else {
        lemma_join_prepend(a, r.drop_last());
        assert((seq![a] + r).drop_last() =~= seq![a] + r.drop_last());
        assert((seq![a] + r).last() == r.last());
        assert(join_slash(r) == join_slash(r.drop_last()) + seq!['/'] + r.last());
        assert(join_slash(seq![a] + r) =~= a + seq!['/'] + join_slash(r));
    }
}

/// Splitting a text without backslashes and joining the parts with `/`
/// gives the text back.
proof fn lemma_join_split(s: Seq<char>)
    requires
        forall|i: int| 0 <= i < s.len() ==> #[trigger] s[i] != '\\',
    ensures
        join_slash(split_parts(s)) == s,
    decreases s.len(),
{
    lemma_first_sep_props(s, 0);
    let k = first_sep_from(s, 0);
    if k < s.len() {
        let rest = s.skip(k + 1);
        lemma_join_split(rest);
        lemma_split_parts_sep_free(rest);
        lemma_join_prepend(s.take(k), split_parts(rest));
        assert(s[k] == '/');
        assert(s =~= s.take(k) + seq!['/'] + rest);
    }
}

/// Resolving allowed components keeps them all, in order.
proof fn lemma_resolve_all_ok(parts: Seq<Seq<char>>, acc: Seq<Seq<char>>)
    requires
        parts_ok(parts),
    ensures
        resolve_parts(parts, acc) == Some(acc + parts),
    decreases parts.len(),
{
    if parts.len() == 0 {
        assert(acc + parts =~= acc);
    } else {
        assert(component_ok(parts[0]));
        assert(parts_ok(parts.drop_first())) by {
            assert forall|k: int| 0 <= k < parts.drop_first().len() implies component_ok(
                #[trigger] parts.drop_first()[k],
            ) by {
                assert(parts.drop_first()[k] == parts[k + 1]);
            }
        }
        lemma_resolve_all_ok(parts.drop_first(), acc.push(parts[0]));
        assert(acc.push(parts[0]) + parts.drop_first() =~= acc + parts);
    }
}

/// Splitting joined separator-free components gives them back.
proof fn lemma_split_join(c: Seq<Seq<char>>)
    requires
        c.len() > 0,
        forall|k: int| 0 <= k < c.len() ==> sep_free(#[trigger] c[k]),
    ensures
        split_parts(join_slash(c)) == c,
    decreases c.len(),
{
    let a = c[0];
    if c.len() == 1 {
        lemma_first_sep_props(a, 0);
        if first_sep_from(a, 0) < a.len() {
            assert(!is_sep(a[first_sep_from(a, 0)]));
        }
        assert(split_parts(a) =~= seq![a]);
    } else {
        let r = c.drop_first();
        assert(c =~= seq![a] + r);
        assert forall|k: int| 0 <= k < r.len() implies sep_free(#[trigger] r[k]) by {
            assert(r[k] == c[k + 1]);
        }
        lemma_split_join(r);
        lemma_join_prepend(a, r);
        let s = join_slash(c);
        assert(s == a + seq!['/'] + join_slash(r));
        lemma_first_sep_props(s, 0);
        let k = first_sep_from(s, 0);
        assert(s[a.len() as int] == '/');
        if k < a.len() {
            assert(s[k] == a[k]);
        }
        if k > a.len() {
            assert(!is_sep(s[a.len() as int]));
        }
        assert(k == a.len());
        assert(s.take(k) =~= a);
        assert(s.skip(k + 1) =~= join_slash(r));
        assert(split_parts(s) =~= seq![a] + r);
    }
}

/// Normalized paths are in normalized form: besides their clean shape,
/// no component is empty, whitespace-only, `.` or `..`.
pub proof fn lemma_normalize_clean(s: Seq<char>)
    requires
        normalize_chars(s) is Some,
    ensures
        is_normalized_chars(normalize_chars(s)->0),
{
    let parts = split_parts(trim(s));
    lemma_split_parts_sep_free(trim(s));
    lemma_resolve_kept(parts, Seq::empty());
    let c = resolve_parts(parts, Seq::empty())->0;
    lemma_join_shape(c);
    lemma_split_join(c);
    let t = join_slash(c);
    assert forall|k: int| 0 <= k < split_parts(t).len() implies {
        let p = #[trigger] split_parts(t)[k];
        p.len() > 0 && !all_ws(p) && p != dot() && p != dotdot()
    } by {
        assert(kept_component(c[k]));
    }
}

/// Normalizing is idempotent where the normalized path has no whitespace at
/// either end.
pub proof fn lemma_normalize_idempotent(s: Seq<char>)
    requires
        normalize_chars(s) is Some,
        !is_ws(normalize_chars(s)->0[0]),
        !is_ws(normalize_chars(s)->0.last()),
    ensures
        normalize_chars(normalize_chars(s)->0) == normalize_chars(s),
{
    lemma_normalize_clean(s);
    let t = normalize_chars(s)->0;
    lemma_normalized_fixed(t);
}

/// A path already in normalized form, with no whitespace at either end,
/// normalizes to itself: valid paths are accepted unchanged.
pub proof fn lemma_normalized_fixed(s: Seq<char>)
    requires
        is_normalized_chars(s),
        !is_ws(s[0]),
        !is_ws(s[s.len() - 1]),
    ensures
        normalize_chars(s) == Some(s),
{
    lemma_ws_lead(s, 0, 0);
    lemma_ws_end(s, s.len() as int, s.len() as int);
    assert(trim(s) =~= s);
    let parts = split_parts(s);
    assert(parts_ok(parts));
    lemma_resolve_all_ok(parts, Seq::empty());
    assert(Seq::<Seq<char>>::empty() + parts =~= parts);
    lemma_split_parts_sep_free(s);
    lemma_join_split(s);
}

// ---------------------------------------------------------------------
// Null padding
// ---------------------------------------------------------------------

/// Where the NUL padding at the end of the first `j` bytes of `s` starts:
/// the length once every trailing zero byte is removed.
pub open spec fn pad_start(s: Seq<u8>, j: int) -> int
    decreases j,
{
    if j <= 0 {
        0
    } else if s[j - 1] == 0 {
        pad_start(s, j - 1)
    } else {
        j
    }
}

/// `s` without its trailing NUL padding (the maximal all-zero suffix).
pub open spec fn trim_nul(s: Seq<u8>) -> Seq<u8> {
    s.take(pad_start(s, s.len() as int))
}

proof fn lemma_pad_start_bounds(s: Seq<u8>, j: int)
    requires
        0 <= j <= s.len(),
    ensures
        0 <= pad_start(s, j) <= j,
        pad_start(s, j) > 0 ==> s[pad_start(s, j) - 1] != 0,
        forall|k: int| pad_start(s, j) <= k < j ==> s[k] == 0,
    decreases j,
{
    if j > 0 && s[j - 1] == 0 {
        lemma_pad_start_bounds(s, j - 1);
    }
}

/// Trimming twice trims nothing more.
pub proof fn lemma_trim_nul_twice(s: Seq<u8>)
    ensures
        trim_nul(trim_nul(s)) == trim_nul(s),
{
    lemma_pad_start_bounds(s, s.len() as int);
    let t = trim_nul(s);
    assert(pad_start(t, t.len() as int) == t.len());
    assert(t.take(t.len() as int) =~= t);
}

/// The length of `s` once its trailing NUL padding is removed.
pub fn nul_trimmed_len(s: &[u8]) -> (n: usize)
    ensures
        n == pad_start(s@, s@.len() as int),
        n <= s@.len(),
        trim_nul(s@) == s@.subrange(0, n as int),
{
    let mut n: usize = s.len();
    while n > 0 && s[n - 1] == 0
        invariant
            n <= s@.len(),
            pad_start(s@, s@.len() as int) == pad_start(s@, n as int),
        decreases n,
    {
        n = n - 1;
    }
    proof {
        lemma_pad_start_bounds(s@, s@.len() as int);
    }
    n
}

// ---------------------------------------------------------------------
// The path type
// ---------------------------------------------------------------------

/// A path within a bale archive.
///
/// Archive paths use forward slashes as separators and are typically UTF-8,
/// but may hold arbitrary bytes when read from an archive. Paths built from
/// user input are normalized; paths read from an archive are kept as stored.
/// Ordering compares bytes lexicographically.
#[derive(Debug, Clone, PartialEq, Eq, PartialOrd, Ord, Hash)]
pub struct ArchivePath {
    bytes: Vec<u8>,
}

impl View for ArchivePath {
    type V = Seq<u8>;

    closed spec fn view(&self) -> Seq<u8> {
        self.bytes@
    }
}

impl ArchivePath {
    /// Returns the path as a string slice if it is valid UTF-8.
    pub fn as_str(&self) -> (r: Option<&str>)
        ensures
            r is Some <==> valid_utf8(self@),
            r matches Some(s) ==> s@ == decode_utf8(self@),
    {
        str_from_utf8(self.bytes.as_slice())
    }

    /// Returns the path as bytes.
    pub fn as_bytes(&self) -> (r: &[u8])
        ensures
            r@ == self@,
    {
        self.bytes.as_slice()
    }

    /// Returns the length of the path in bytes.
    pub fn len(&self) -> (n: usize)
        ensures
            n == self@.len(),
    {
        self.bytes.len()
    }

    /// Returns true if the path has zero bytes.
    pub fn is_empty(&self) -> (b: bool)
        ensures
            b <==> self@.len() == 0,
    {
        self.bytes.len() == 0
    }

    /// Wraps raw bytes without validation or normalization.
    pub fn from_bytes(bytes: &[u8]) -> (p: Self)
        ensures
            p@ == bytes@,
    {
        let mut v: Vec<u8> = Vec::new();
        crate::text::extend_bytes(&mut v, bytes);
        ArchivePath { bytes: v }
    }

    /// Takes ownership of raw bytes without validation or normalization.
    pub fn from_vec(bytes: Vec<u8>) -> (p: Self)
        ensures
            p@ == bytes@,
    {
        ArchivePath { bytes }
    }

    /// Consumes the path and returns its bytes.
    pub fn into_vec(self) -> (v: Vec<u8>)
        ensures
            v@ == self@,
    {
        self.bytes
    }

    /// Wraps bytes with their trailing NUL padding removed (fixed-size path
    /// fields are null-padded).
    pub fn from_null_padded_bytes(bytes: &[u8]) -> (p: Self)
        ensures
            p@ == trim_nul(bytes@),
    {
        let n = nul_trimmed_len(bytes);
        Self::from_bytes(&bytes[0..n])
    }

    /// Returns the path as a string slice, or `InvalidUtf8`.
    pub fn to_str_checked(&self) -> (r: Result<&str, BaleError>)
        ensures
            r is Ok <==> valid_utf8(self@),
            r matches Ok(s) ==> s@ == decode_utf8(self@),
            r matches Err(e) ==> e == BaleError::InvalidUtf8,
    {
        match str_from_utf8(self.bytes.as_slice()) {
            Some(s) => Ok(s),
            None => Err(BaleError::InvalidUtf8),
        }
    }

    /// The path as text: its UTF-8 decoding, invalid sequences replaced.
    pub fn to_string(&self) -> (s: String)
        ensures
            s@ == crate::text::lossy_text(self@),
            valid_utf8(self@) ==> s@ == decode_utf8(self@),
    {
        crate::text::string_from_utf8_lossy(self.bytes.as_slice())
    }

    /// Converts into an owned path (paths here always own their bytes).
    pub fn into_owned(self) -> (p: Self)
        ensures
            p@ == self@,
    {
        self
    }
}


impl AsRef<[u8]> for ArchivePath {
    fn as_ref(&self) -> (r: &[u8])
        ensures
            r@ == self@,
    {
        self.bytes.as_slice()
    }
}

/// The bytes a slice holds.
pub open spec fn slice_bytes(s: &[u8]) -> Seq<u8> {
    s@
}

impl std::borrow::Borrow<[u8]> for ArchivePath {
    fn borrow(&self) -> (r: &[u8])
        ensures
            slice_bytes(r) == self@,
    {
        self.bytes.as_slice()
    }
}

impl From<Vec<u8>> for ArchivePath {
    fn from(bytes: Vec<u8>) -> (p: Self) {
        ArchivePath { bytes }
    }
}

impl FromSpecImpl<Vec<u8>> for ArchivePath {
    open spec fn obeys_from_spec() -> bool {
        true
    }

    closed spec fn from_spec(v: Vec<u8>) -> Self {
        ArchivePath { bytes: v }
    }
}

impl From<ArchivePath> for Vec<u8> {
    fn from(path: ArchivePath) -> (v: Self) {
        path.bytes
    }
}

impl FromSpecImpl<ArchivePath> for Vec<u8> {
    open spec fn obeys_from_spec() -> bool {
        true
    }

    closed spec fn from_spec(v: ArchivePath) -> Self {
        v.bytes
    }
}

/// The character sequences held by a vector of character vectors.
pub open spec fn deep_chars(acc: Seq<Vec<char>>) -> Seq<Seq<char>> {
    Seq::new(acc.len(), |i: int| acc[i]@)
}

/// Copies `cs[a..b]`.
fn copy_chars(cs: &Vec<char>, a: usize, b: usize) -> (v: Vec<char>)
    requires
        a <= b <= cs@.len(),
    ensures
        v@ == cs@.subrange(a as int, b as int),
{
    let mut v: Vec<char> = Vec::new();
    let mut i = a;
    while i < b
        invariant
            a <= i <= b <= cs@.len(),
            v@ == cs@.subrange(a as int, i as int),
        decreases b - i,
    {
        v.push(cs[i]);
        i = i + 1;
        assert(v@ =~= cs@.subrange(a as int, i as int));
    }
    v
}

/// Whether every character of `p` is whitespace.
fn chars_all_ws(p: &Vec<char>) -> (b: bool)
    ensures
        b == all_ws(p@),
{
    let mut i: usize = 0;
    while i < p.len()
        invariant
            i <= p@.len(),
            forall|x: int| 0 <= x < i ==> is_ws(#[trigger] p@[x]),
        decreases p@.len() - i,
    {
        if !char_is_ws(p[i]) {
            return false;
        }
        i = i + 1;
    }
    true
}

/// Applies one resolution step to the kept components; `false` when the
/// step fails.
fn apply_resolve_step(p: Vec<char>, acc: &mut Vec<Vec<char>>) -> (ok: bool)
    ensures
        ok <==> resolve_step(p@, deep_chars(old(acc)@)) is Some,
        ok ==> resolve_step(p@, deep_chars(old(acc)@)) == Some(deep_chars(final(acc)@)),
{
    let ghost d = deep_chars(acc@);
    let is_dot = p.len() == 1 && p[0] == '.';
    let is_dotdot = p.len() == 2 && p[0] == '.' && p[1] == '.';
    proof {
        if is_dot {
            assert(p@ =~= dot());
        }
        if p@ == dot() {
            assert(p@[0] == dot()[0]);
        }
        if is_dotdot {
            assert(p@ =~= dotdot());
        }
        if p@ == dotdot() {
            assert(p@[0] == dotdot()[0] && p@[1] == dotdot()[1]);
        }
    }
    if p.len() == 0 || is_dot {
        true
    } else if is_dotdot {
        if acc.len() == 0 {
            false
        } else {
            acc.pop();
            assert(deep_chars(acc@) =~= d.drop_last());
            true
        }
    } else if chars_all_ws(&p) {
        false
    } else {
        let ghost pv = p@;
        acc.push(p);
        assert(deep_chars(acc@) =~= d.push(pv));
        true
    }
}

/// Joins components with `/`.
fn join_components(acc: &Vec<Vec<char>>) -> (out: Vec<char>)
    ensures
        out@ == join_slash(deep_chars(acc@)),
{
    let mut out: Vec<char> = Vec::new();
    let mut k: usize = 0;
    while k < acc.len()
        invariant
            k <= acc@.len(),
            out@ == join_slash(deep_chars(acc@).take(k as int)),
        decreases acc@.len() - k,
    {
        let ghost before = out@;
        let ghost d = deep_chars(acc@);
        if k > 0 {
            out.push('/');
        }
        let c = &acc[k];
        let mut j: usize = 0;
        let ghost mid = out@;
        while j < c.len()
            invariant
                j <= c@.len(),
                out@ == mid + c@.subrange(0, j as int),
            decreases c@.len() - j,
        {
            out.push(c[j]);
            j = j + 1;
            assert(out@ =~= mid + c@.subrange(0, j as int));
        }
        proof {
            assert(c@.subrange(0, c@.len() as int) =~= c@);
            assert(d.take(k + 1) =~= d.take(k as int).push(c@));
            if k > 0 {
                lemma_join_push(d.take(k as int), c@);
                assert(out@ =~= before + seq!['/'] + c@);
            } else {
                assert(d.take(0) =~= Seq::<Seq<char>>::empty());
                assert(d.take(1) =~= seq![c@]);
                assert(out@ =~= c@);
            }
        }
        k = k + 1;
    }
    assert(deep_chars(acc@).take(acc@.len() as int) =~= deep_chars(acc@));
    out
}

impl ArchivePath {
    /// Normalizes a path string for archive storage: trims surrounding
    /// whitespace, treats `\` as `/`, drops `.` and empty components,
    /// resolves `..`, and rejoins with `/`. Returns the UTF-8 bytes of the
    /// result, or `InvalidPath` when a `..` would escape the root, a
    /// component is whitespace-only, or nothing remains.
    pub fn normalize_bytes(path: &str) -> (r: Result<Vec<u8>, BaleError>)
        ensures
            match normalize_chars(path@) {
                Some(c) => r matches Ok(v) && v@ == encode_utf8(c),
                None => r == Err::<Vec<u8>, BaleError>(BaleError::InvalidPath),
            },
    {
        let cs = chars_of(path);
        let n = cs.len();
        let ghost s = cs@;
        let mut lo: usize = 0;
        while lo < n && char_is_ws(cs[lo])
            invariant
                lo <= n,
                n == s.len(),
                s == cs@,
                forall|x: int| 0 <= x < lo ==> is_ws(#[trigger] s[x]),
            decreases n - lo,
        {
            lo = lo + 1;
        }
        proof {
            lemma_ws_lead(s, 0, lo as int);
        }
        let mut hi: usize = n;
        while hi > lo && char_is_ws(cs[hi - 1])
            invariant
                lo <= hi <= n,
                n == s.len(),
                s == cs@,
                forall|x: int| hi <= x < n ==> is_ws(#[trigger] s[x]),
                lo < n ==> hi > lo && !is_ws(s[lo as int]),
            decreases hi,
        {
            hi = hi - 1;
        }
        proof {
            if lo < n {
                lemma_ws_end(s, n as int, hi as int);
                assert(trim(s) == s.subrange(lo as int, hi as int));
            } else {
                assert forall|x: int| 0 <= x < n implies is_ws(#[trigger] s[x]) by {}
                lemma_ws_end(s, n as int, 0);
                assert(trim(s) =~= s.subrange(lo as int, hi as int));
            }
        }
        let ghost t = s.subrange(lo as int, hi as int);
        let mut acc: Vec<Vec<char>> = Vec::new();
        let mut st = lo;
        let mut i = lo;
        assert(s.subrange(lo as int, hi as int) =~= t);
        assert(deep_chars(acc@) =~= Seq::<Seq<char>>::empty());
        while i < hi
            invariant
                lo <= st <= i <= hi <= n,
                n == s.len(),
                s == cs@,
                t == s.subrange(lo as int, hi as int),
                s == path@,
                trim(s) == t,
                forall|x: int| st <= x < i ==> !is_sep(#[trigger] s[x]),
                resolve_parts(split_parts(t), Seq::empty()) == resolve_parts(
                    split_parts(s.subrange(st as int, hi as int)),
                    deep_chars(acc@),
                ),
            decreases hi - i,
        {
            let c = cs[i];
            if c == '/' || c == '\\' {
                let part = copy_chars(&cs, st, i);
                let ghost u = s.subrange(st as int, hi as int);
                let ghost before = deep_chars(acc@);
                proof {
                    let k = (i - st) as int;
                    assert forall|x: int| 0 <= x < k implies !is_sep(#[trigger] u[x]) by {
                        assert(u[x] == s[st + x]);
                    }
                    assert(u[k] == s[i as int]);
                    lemma_split_at_sep(u, k);
                    assert(u.take(k) =~= part@);
                    assert(u.skip(k + 1) =~= s.subrange(i + 1, hi as int));
                    lemma_resolve_cons(part@, split_parts(u.skip(k + 1)), before);
                }
                let ok = apply_resolve_step(part, &mut acc);
                if !ok {
                    return Err(BaleError::InvalidPath);
                }
                st = i + 1;
            }
            i = i + 1;
        }
        let part = copy_chars(&cs, st, hi);
        let ghost u = s.subrange(st as int, hi as int);
        let ghost before = deep_chars(acc@);
        proof {
            assert forall|x: int| 0 <= x < u.len() implies !is_sep(#[trigger] u[x]) by {
                assert(u[x] == s[st + x]);
            }
            lemma_split_no_sep(u);
            assert(part@ =~= u);
            assert(seq![u] =~= seq![u] + Seq::<Seq<char>>::empty());
            lemma_resolve_cons(u, Seq::empty(), before);
        }
        let ok = apply_resolve_step(part, &mut acc);
        if !ok {
            return Err(BaleError::InvalidPath);
        }
        if acc.len() == 0 {
            return Err(BaleError::InvalidPath);
        }
        let joined = join_components(&acc);
        let bytes = encode_chars(&joined);
        Ok(bytes)
    }
}


/// True when a component is allowed in a normalized path.
pub open spec fn component_ok(c: Seq<char>) -> bool {
    c.len() > 0 && !all_ws(c) && c != dot() && c != dotdot()
}

/// True when all parts are allowed components.
pub open spec fn parts_ok(ps: Seq<Seq<char>>) -> bool {
    forall|k: int| 0 <= k < ps.len() ==> component_ok(#[trigger] ps[k])
}

proof fn lemma_parts_ok_cons(p: Seq<char>, rest: Seq<Seq<char>>)
    ensures
        parts_ok(seq![p] + rest) <==> component_ok(p) && parts_ok(rest),
{
    let ps = seq![p] + rest;
    assert(ps[0] == p);
    if component_ok(p) && parts_ok(rest) {
        assert forall|k: int| 0 <= k < ps.len() implies component_ok(#[trigger] ps[k]) by {
            if k > 0 {
                assert(ps[k] == rest[k - 1]);
            }
        }
    }
    if parts_ok(ps) {
        assert forall|k: int| 0 <= k < rest.len() implies component_ok(#[trigger] rest[k]) by {
            assert(ps[k + 1] == rest[k]);
        }
    }
}

/// Whether a component is allowed in a normalized path.
fn component_is_ok(p: &Vec<char>) -> (b: bool)
    ensures
        b == component_ok(p@),
{
    let is_dot = p.len() == 1 && p[0] == '.';
    let is_dotdot = p.len() == 2 && p[0] == '.' && p[1] == '.';
    proof {
        if is_dot {
            assert(p@ =~= dot());
        }
        if p@ == dot() {
            assert(p@[0] == dot()[0]);
        }
        if is_dotdot {
            assert(p@ =~= dotdot());
        }
        if p@ == dotdot() {
            assert(p@[0] == dotdot()[0] && p@[1] == dotdot()[1]);
        }
    }
    p.len() > 0 && !chars_all_ws(p) && !is_dot && !is_dotdot
}

/// Index of the last occurrence of byte `b` before `j`, or -1.
pub open spec fn last_index_of(s: Seq<u8>, b: u8, j: int) -> int
    decreases j,
{
    if j <= 0 {
        -1
    } else if s[j - 1] == b {
        j - 1
    } else {
        last_index_of(s, b, j - 1)
    }
}

pub proof fn lemma_last_index_bounds(s: Seq<u8>, b: u8, j: int)
    requires
        0 <= j <= s.len(),
    ensures
        -1 <= last_index_of(s, b, j) < j,
        last_index_of(s, b, j) >= 0 ==> s[last_index_of(s, b, j)] == b,
    decreases j,
{
    if j > 0 && s[j - 1] != b {
        lemma_last_index_bounds(s, b, j - 1);
    }
}

/// The file name of a valid UTF-8 path is valid UTF-8: a `/` is a whole
/// character, so what follows the last one is too.
proof fn lemma_file_name_valid(s: Seq<u8>)
    requires
        valid_utf8(s),
    ensures
        valid_utf8(spec_file_name(s)),
{
    let n = s.len() as int;
    lemma_last_index_bounds(s, 0x2F, n);
    let k = last_index_of(s, 0x2F, n);
    if k < 0 {
        assert(spec_file_name(s) =~= s);
    } else {
        vstd::utf8::is_char_boundary_iff_not_is_continuation_byte(s, k);
        vstd::utf8::valid_utf8_split(s, k);
        let s2 = s.subrange(k, n);
        assert(s2[0] == 0x2F);
        assert(valid_utf8(s2));
        assert(vstd::utf8::pop_first_scalar(s2) =~= s.subrange(k + 1, n));
    }
}

/// One past the index of the last `b` in `s`, or 0 when there is none.
fn rfind_byte_end(s: &[u8], b: u8) -> (r: usize)
    ensures
        r == last_index_of(s@, b, s@.len() as int) + 1,
{
    let mut j: usize = s.len();
    while j > 0 && s[j - 1] != b
        invariant
            j <= s@.len(),
            last_index_of(s@, b, s@.len() as int) == last_index_of(s@, b, j as int),
        decreases j,
    {
        j = j - 1;
    }
    j
}

/// The bytes after the last `/` (the whole path when there is none).
pub open spec fn spec_file_name(s: Seq<u8>) -> Seq<u8> {
    s.subrange(last_index_of(s, 0x2F, s.len() as int) + 1, s.len() as int)
}

/// The bytes before the last `/` (empty when there is none).
pub open spec fn spec_parent(s: Seq<u8>) -> Seq<u8> {
    let k = last_index_of(s, 0x2F, s.len() as int);
    if k < 0 {
        Seq::empty()
    } else {
        s.subrange(0, k)
    }
}

/// `s` with `(n)` inserted before the extension of its file name: before
/// the last `.` when that lies after the last `/`, else at the end.
pub open spec fn spec_with_suffix(s: Seq<u8>, n: nat) -> Seq<u8> {
    let fstart = last_index_of(s, 0x2F, s.len() as int) + 1;
    let d = last_index_of(s, 0x2E, s.len() as int);
    let tag = seq![0x28u8] + crate::text::spec_decimal(n) + seq![0x29u8];
    if d >= fstart {
        s.subrange(0, d) + tag + s.subrange(d, s.len() as int)
    } else {
        s + tag
    }
}

impl ArchivePath {
    /// Checks whether a path string is already in normalized form.
    pub fn is_normalized(path: &str) -> (b: bool)
        ensures
            b == is_normalized_chars(path@),
    {
        let cs = chars_of(path);
        let n = cs.len();
        let ghost s = cs@;
        if n == 0 {
            return false;
        }
        let mut i: usize = 0;
        while i < n
            invariant
                i <= n,
                n == s.len(),
                s == cs@,
                s == path@,
                forall|x: int| 0 <= x < i ==> #[trigger] s[x] != '\\',
            decreases n - i,
        {
            if cs[i] == '\\' {
                return false;
            }
            i = i + 1;
        }
        if cs[0] == '/' || cs[n - 1] == '/' {
            return false;
        }
        let mut st: usize = 0;
        let mut i: usize = 0;
        assert(s.subrange(0, n as int) =~= s);
        while i < n
            invariant
                st <= i <= n,
                n == s.len(),
                s == cs@,
                s == path@,
                forall|x: int| 0 <= x < n ==> #[trigger] s[x] != '\\',
                forall|x: int| st <= x < i ==> !is_sep(#[trigger] s[x]),
                parts_ok(split_parts(s)) <==> parts_ok(split_parts(s.subrange(st as int, n as int))),
            decreases n - i,
        {
            if cs[i] == '/' {
                let part = copy_chars(&cs, st, i);
                let ghost u = s.subrange(st as int, n as int);
                proof {
                    let k = (i - st) as int;
                    assert forall|x: int| 0 <= x < k implies !is_sep(#[trigger] u[x]) by {
                        assert(u[x] == s[st + x]);
                    }
                    assert(u[k] == s[i as int]);
                    lemma_split_at_sep(u, k);
                    assert(u.take(k) =~= part@);
                    assert(u.skip(k + 1) =~= s.subrange(i + 1, n as int));
                    lemma_parts_ok_cons(part@, split_parts(u.skip(k + 1)));
                }
                if !component_is_ok(&part) {
                    return false;
                }
                st = i + 1;
            }
            i = i + 1;
        }
        let part = copy_chars(&cs, st, n);
        let ghost u = s.subrange(st as int, n as int);
        proof {
            assert forall|x: int| 0 <= x < u.len() implies !is_sep(#[trigger] u[x]) by {
                assert(u[x] == s[st + x]);
            }
            lemma_split_no_sep(u);
            assert(part@ =~= u);
            assert(seq![u] =~= seq![u] + Seq::<Seq<char>>::empty());
            lemma_parts_ok_cons(u, Seq::empty());
        }
        component_is_ok(&part)
    }

    /// Returns a normalized copy of this path; `InvalidPath` when the path
    /// is not valid UTF-8 or does not normalize.
    pub fn normalize(&self) -> (r: Result<ArchivePath, BaleError>)
        ensures
            !valid_utf8(self@) ==> r == Err::<ArchivePath, BaleError>(BaleError::InvalidPath),
            valid_utf8(self@) ==> match normalize_chars(decode_utf8(self@)) {
                Some(c) => r matches Ok(p) && p@ == encode_utf8(c),
                None => r == Err::<ArchivePath, BaleError>(BaleError::InvalidPath),
            },
    {
        match self.as_str() {
            None => Err(BaleError::InvalidPath),
            Some(s) => match Self::normalize_bytes(s) {
                Ok(v) => Ok(ArchivePath { bytes: v }),
                Err(e) => Err(e),
            },
        }
    }

    /// Consuming form of [`normalize`](Self::normalize).
    pub fn into_normalized(self) -> (r: Result<ArchivePath, BaleError>)
        ensures
            !valid_utf8(self@) ==> r == Err::<ArchivePath, BaleError>(BaleError::InvalidPath),
            valid_utf8(self@) ==> match normalize_chars(decode_utf8(self@)) {
                Some(c) => r matches Ok(p) && p@ == encode_utf8(c),
                None => r == Err::<ArchivePath, BaleError>(BaleError::InvalidPath),
            },
    {
        self.normalize()
    }

    /// Builds a normalized path from a string; `InvalidPath` when it does
    /// not normalize.
    pub fn from_str_normalized(s: &str) -> (r: Result<ArchivePath, BaleError>)
        ensures
            match normalize_chars(s@) {
                Some(c) => r matches Ok(p) && p@ == encode_utf8(c),
                None => r == Err::<ArchivePath, BaleError>(BaleError::InvalidPath),
            },
    {
        match Self::normalize_bytes(s) {
            Ok(v) => Ok(ArchivePath { bytes: v }),
            Err(e) => Err(e),
        }
    }

    /// Returns the file name component as bytes (after the last `/`).
    pub fn file_name(&self) -> (r: &[u8])
        ensures
            r@ == spec_file_name(self@),
    {
        proof {
            lemma_last_index_bounds(self@, 0x2F, self@.len() as int);
        }
        let start = rfind_byte_end(self.bytes.as_slice(), 0x2F);
        &self.bytes.as_slice()[start..self.bytes.len()]
    }

    /// Returns the file name component as a string slice; `InvalidUtf8`
    /// when the path is not valid UTF-8.
    pub fn file_name_str(&self) -> (r: Result<&str, BaleError>)
        ensures
            r is Ok <==> valid_utf8(self@),
            r matches Ok(s) ==> s@ == decode_utf8(spec_file_name(self@)),
            r matches Err(e) ==> e == BaleError::InvalidUtf8,
    {
        if str_from_utf8(self.bytes.as_slice()).is_none() {
            return Err(BaleError::InvalidUtf8);
        }
        proof {
            lemma_file_name_valid(self@);
        }
        match str_from_utf8(self.file_name()) {
            Some(s) => Ok(s),
            None => Err(BaleError::InvalidUtf8),
        }
    }

    /// Returns the path before the last `/` (empty when there is none).
    pub fn parent(&self) -> (p: ArchivePath)
        ensures
            p@ == spec_parent(self@),
    {
        proof {
            lemma_last_index_bounds(self@, 0x2F, self@.len() as int);
        }
        let k = rfind_byte_end(self.bytes.as_slice(), 0x2F);
        if k == 0 {
            ArchivePath { bytes: Vec::new() }
        } else {
            Self::from_bytes(&self.bytes.as_slice()[0..k - 1])
        }
    }

    /// Returns a new path with `(number)` inserted before the file name's
    /// extension, e.g. `dir/file.txt` + 2 gives `dir/file(2).txt` and
    /// `foo.d/bar` + 1 gives `foo.d/bar(1)`. `InvalidUtf8` when the path is
    /// not valid UTF-8.
    pub fn with_suffix(&self, number: usize) -> (r: Result<ArchivePath, BaleError>)
        ensures
            !valid_utf8(self@) ==> r == Err::<ArchivePath, BaleError>(BaleError::InvalidUtf8),
            valid_utf8(self@) ==> (r matches Ok(p) && p@ == spec_with_suffix(
                self@,
                number as nat,
            )),
    {
        if str_from_utf8(self.bytes.as_slice()).is_none() {
            return Err(BaleError::InvalidUtf8);
        }
        let s = self.bytes.as_slice();
        proof {
            lemma_last_index_bounds(s@, 0x2F, s@.len() as int);
            lemma_last_index_bounds(s@, 0x2E, s@.len() as int);
        }
        let slash = rfind_byte_end(s, 0x2F);
        let dot = rfind_byte_end(s, 0x2E);
        let mut tag: Vec<u8> = Vec::new();
        tag.push(0x28);
        let digits = crate::text::decimal_bytes(number as u64);
        crate::text::extend_bytes(&mut tag, digits.as_slice());
        tag.push(0x29);
        let ghost tagv = seq![0x28u8] + crate::text::spec_decimal(number as nat) + seq![0x29u8];
        assert(tag@ =~= tagv);
        let mut out: Vec<u8> = Vec::new();
        if dot > slash {
            let d = dot - 1;
            crate::text::extend_bytes(&mut out, &s[0..d]);
            crate::text::extend_bytes(&mut out, tag.as_slice());
            crate::text::extend_bytes(&mut out, &s[d..s.len()]);
        } else {
            crate::text::extend_bytes(&mut out, s);
            crate::text::extend_bytes(&mut out, tag.as_slice());
        }
        Ok(ArchivePath { bytes: out })
    }
}

} // verus!
