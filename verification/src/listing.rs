//! Text for `ls -alF` style listings: permission strings, dates and type
//! indicators.

use vstd::prelude::*;
use crate::dos_time::DosDateTime;
use crate::entry_kind::{S_IFMT, S_IFDIR, S_IFLNK};
use crate::text::{ascii_chars, pad_left, spec_decimal, padded_digits, string_from_ascii};

verus! {

/// Executable bits: user, group or other execute.
pub const EXEC_MASK: u32 = 0o111;

/// The type letter of a mode: `d` for a directory, `l` for a symlink, `-`
/// for anything else.
pub open spec fn type_char(mode: u32) -> char {
    if mode & S_IFMT == S_IFDIR {
        'd'
    } else if mode & S_IFMT == S_IFLNK {
        'l'
    } else {
        '-'
    }
}

/// `c` when `mode` has `bit`, else `-`.
pub open spec fn perm_char(mode: u32, bit: u32, c: char) -> char {
    if mode & bit != 0 {
        c
    } else {
        '-'
    }
}

/// The permission string of a mode, as `ls -l` shows it.
pub open spec fn permissions_text(mode: u32) -> Seq<char> {
    seq![
        type_char(mode),
        perm_char(mode, 0o400, 'r'),
        perm_char(mode, 0o200, 'w'),
        perm_char(mode, 0o100, 'x'),
        perm_char(mode, 0o040, 'r'),
        perm_char(mode, 0o020, 'w'),
        perm_char(mode, 0o010, 'x'),
        perm_char(mode, 0o004, 'r'),
        perm_char(mode, 0o002, 'w'),
        perm_char(mode, 0o001, 'x'),
    ]
}

/// Each character of the permission string stands for its own POSIX mode
/// bit: the type letter for the file type bits, then read, write and
/// execute for the owner (`0o400`, `0o200`, `0o100`), the group (`0o040`,
/// `0o020`, `0o010`) and others (`0o004`, `0o002`, `0o001`), each shown
/// exactly when its bit is set and `-` otherwise.
pub proof fn lemma_permission_bits(mode: u32)
    ensures
        permissions_text(mode).len() == 10,
        (permissions_text(mode)[0] == 'd') == (mode & 0o170000 == 0o040000),
        (permissions_text(mode)[0] == 'l') == (mode & 0o170000 == 0o120000),
        (permissions_text(mode)[0] == '-') == (mode & 0o170000 != 0o040000 && mode & 0o170000 != 0o120000),
        permissions_text(mode)[1] == (if mode & 0o400 != 0 { 'r' } else { '-' }),
        permissions_text(mode)[2] == (if mode & 0o200 != 0 { 'w' } else { '-' }),
        permissions_text(mode)[3] == (if mode & 0o100 != 0 { 'x' } else { '-' }),
        permissions_text(mode)[4] == (if mode & 0o040 != 0 { 'r' } else { '-' }),
        permissions_text(mode)[5] == (if mode & 0o020 != 0 { 'w' } else { '-' }),
        permissions_text(mode)[6] == (if mode & 0o010 != 0 { 'x' } else { '-' }),
        permissions_text(mode)[7] == (if mode & 0o004 != 0 { 'r' } else { '-' }),
        permissions_text(mode)[8] == (if mode & 0o002 != 0 { 'w' } else { '-' }),
        permissions_text(mode)[9] == (if mode & 0o001 != 0 { 'x' } else { '-' }),
{
    assert(S_IFMT == 0o170000 && S_IFDIR == 0o040000 && S_IFLNK == 0o120000);
}

fn perm(mode: u32, bit: u32, c: char) -> (r: char)
    ensures
        r == perm_char(mode, bit, c),
{
    if mode & bit != 0 {
        c
    } else {
        '-'
    }
}

/// Formats Unix mode bits as a permission string (e.g. `-rw-r--r--`).
pub fn format_permissions(mode: u32) -> (s: String)
    ensures
        s@ == permissions_text(mode),
        s@.len() == 10,
        s@[1] == (if mode & 0o400 != 0 { 'r' } else { '-' }),
        s@[2] == (if mode & 0o200 != 0 { 'w' } else { '-' }),
        s@[3] == (if mode & 0o100 != 0 { 'x' } else { '-' }),
        s@[4] == (if mode & 0o040 != 0 { 'r' } else { '-' }),
        s@[5] == (if mode & 0o020 != 0 { 'w' } else { '-' }),
        s@[6] == (if mode & 0o010 != 0 { 'x' } else { '-' }),
        s@[7] == (if mode & 0o004 != 0 { 'r' } else { '-' }),
        s@[8] == (if mode & 0o002 != 0 { 'w' } else { '-' }),
        s@[9] == (if mode & 0o001 != 0 { 'x' } else { '-' }),
{
    let t = mode & S_IFMT;
    let file_type = if t == S_IFDIR {
        'd'
    } else if t == S_IFLNK {
        'l'
    } else {
        '-'
    };
    let chars: [char; 10] = [
        file_type,
        perm(mode, 0o400, 'r'),
        perm(mode, 0o200, 'w'),
        perm(mode, 0o100, 'x'),
        perm(mode, 0o040, 'r'),
        perm(mode, 0o020, 'w'),
        perm(mode, 0o010, 'x'),
        perm(mode, 0o004, 'r'),
        perm(mode, 0o002, 'w'),
        perm(mode, 0o001, 'x'),
    ];
    let mut bytes: Vec<u8> = Vec::new();
    let mut i: usize = 0;
    while i < 10
        invariant
            i <= 10,
            bytes@.len() == i,
            forall|k: int| 0 <= k < i ==> bytes@[k] as char == chars@[k] && bytes@[k] < 0x80,
            forall|k: int| 0 <= k < 10 ==> (chars@[k] == 'd' || chars@[k] == 'l' || chars@[k] == '-'
                || chars@[k] == 'r' || chars@[k] == 'w' || chars@[k] == 'x'),
        decreases 10 - i,
    {
        let c = chars[i];
        let b: u8 = if c == 'd' {
            0x64
        } else if c == 'l' {
            0x6C
        } else if c == 'r' {
            0x72
        } else if c == 'w' {
            0x77
        } else if c == 'x' {
            0x78
        } else {
            0x2D
        };
        bytes.push(b);
        i = i + 1;
    }
    let ghost bv = bytes@;
    let s = string_from_ascii(bytes);
    proof {
        assert(s@ =~= permissions_text(mode));
        lemma_permission_bits(mode);
    }
    s
}

/// The three-letter name of month `m` (1 to 12), `???` otherwise.
pub open spec fn month_name(m: u16) -> Seq<char> {
    if m == 1 {
        "Jan"@
    } else if m == 2 {
        "Feb"@
    } else if m == 3 {
        "Mar"@
    } else if m == 4 {
        "Apr"@
    } else if m == 5 {
        "May"@
    } else if m == 6 {
        "Jun"@
    } else if m == 7 {
        "Jul"@
    } else if m == 8 {
        "Aug"@
    } else if m == 9 {
        "Sep"@
    } else if m == 10 {
        "Oct"@
    } else if m == 11 {
        "Nov"@
    } else if m == 12 {
        "Dec"@
    } else {
        "???"@
    }
}

fn month_str(m: u16) -> (s: &'static str)
    ensures
        s@ == month_name(m),
{
    if m == 1 {
        "Jan"
    } else if m == 2 {
        "Feb"
    } else if m == 3 {
        "Mar"
    } else if m == 4 {
        "Apr"
    } else if m == 5 {
        "May"
    } else if m == 6 {
        "Jun"
    } else if m == 7 {
        "Jul"
    } else if m == 8 {
        "Aug"
    } else if m == 9 {
        "Sep"
    } else if m == 10 {
        "Oct"
    } else if m == 11 {
        "Nov"
    } else if m == 12 {
        "Dec"
    } else {
        "???"
    }
}

/// `Mon DD HH:MM`: the month's name, the day padded with spaces to two
/// places, the hour and minute padded with zeros.
pub open spec fn date_time_text(t: DosDateTime) -> Seq<char> {
    month_name(t.spec_month()) + " "@ + ascii_chars(pad_left(spec_decimal(t.spec_day() as nat), 2, 0x20))
        + " "@ + ascii_chars(pad_left(spec_decimal(t.spec_hour() as nat), 2, 0x30)) + ":"@
        + ascii_chars(pad_left(spec_decimal(t.spec_minute() as nat), 2, 0x30))
}

/// Formats a DOS date and time as `Mon DD HH:MM` (e.g. `Jan  2 18:30`).
pub fn format_date_time(mtime: &DosDateTime) -> (s: String)
    ensures
        s@ == date_time_text(*mtime),
{
    let mut s = String::from_str(month_str(mtime.month()));
    s.append(" ");
    let day = string_from_ascii(padded_digits(mtime.day() as u64, 10, 2, 0x20));
    s.append(day.as_str());
    s.append(" ");
    let hour = string_from_ascii(padded_digits(mtime.hour() as u64, 10, 2, 0x30));
    s.append(hour.as_str());
    s.append(":");
    let minute = string_from_ascii(padded_digits(mtime.minute() as u64, 10, 2, 0x30));
    s.append(minute.as_str());
    s
}

/// The `ls -F` indicator: nothing when the path already ends with `/`,
/// else `/` for a directory, `@` for a symlink, `*` for an executable and
/// nothing for anything else.
pub open spec fn type_indicator(mode: u32, path: Seq<char>) -> Seq<char> {
    if path.len() > 0 && path.last() == '/' {
        ""@
    } else if mode & S_IFMT == S_IFDIR {
        "/"@
    } else if mode & S_IFMT == S_IFLNK {
        "@"@
    } else if mode & EXEC_MASK != 0 {
        "*"@
    } else {
        ""@
    }
}

/// Returns the type indicator for `ls -F` style output.
pub fn get_type_indicator(mode: u32, path: &str) -> (s: &'static str)
    ensures
        s@ == type_indicator(mode, path@),
{
    let chars = crate::chars::chars_of(path);
    if chars.len() > 0 && chars[chars.len() - 1] == '/' {
        return "";
    }
    let t = mode & S_IFMT;
    if t == S_IFDIR {
        "/"
    } else if t == S_IFLNK {
        "@"
    } else if mode & EXEC_MASK != 0 {
        "*"
    } else {
        ""
    }
}

} // verus!
