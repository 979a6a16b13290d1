//! MS-DOS date/time format used in ZIP archives.

use vstd::prelude::*;
use chrono::{Datelike, TimeZone, Timelike};
use crate::error::BaleError;
use crate::text::{ascii_chars, pad_left, spec_decimal, padded_decimal, string_from_ascii};

verus! {

// ---------------------------------------------------------------------
// Calendar specification and the chrono calls
// ---------------------------------------------------------------------

/// Gregorian leap year: divisible by 4, except centuries not divisible by 400.
pub open spec fn is_leap(year: int) -> bool {
    year % 4 == 0 && (year % 100 != 0 || year % 400 == 0)
}

/// Number of days in `month` of `year`; `None` for months outside 1..=12.
pub open spec fn spec_days_in_month(year: int, month: int) -> Option<u16> {
    if month == 1 || month == 3 || month == 5 || month == 7 || month == 8 || month == 10 || month
        == 12 {
        Some(31u16)
    } else if month == 4 || month == 6 || month == 9 || month == 11 {
        Some(30u16)
    } else if month == 2 {
        if is_leap(year) {
            Some(29u16)
        } else {
            Some(28u16)
        }
    } else {
        None
    }
}

/// True when the civil date and time exist in the proleptic Gregorian
/// calendar (seconds 0-59).
pub open spec fn civil_valid(year: int, month: int, day: int, hour: int, minute: int, second: int) -> bool {
    &&& 1 <= month <= 12
    &&& 1 <= day
    &&& spec_days_in_month(year, month) matches Some(m) && day <= m
    &&& 0 <= hour <= 23
    &&& 0 <= minute <= 59
    &&& 0 <= second <= 59
}

/// Seconds since the Unix epoch of a civil UTC date and time, as chrono
/// computes it.
pub uninterp spec fn civil_to_unix(civil: (i32, u32, u32, u32, u32, u32)) -> i64;

/// The civil UTC date and time of a Unix timestamp, as chrono computes it.
pub uninterp spec fn unix_to_civil(secs: i64) -> (i32, u32, u32, u32, u32, u32);

/// Largest timestamp magnitude handed to chrono (well inside its range of
/// about ±262,000 years).
pub open spec fn timestamp_in_range(secs: i64) -> bool {
    -8_000_000_000_000 <= secs <= 8_000_000_000_000
}

/// The UTC timestamp of a civil date and time
/// (`Utc.with_ymd_and_hms(..).single()` then `timestamp()`).
///
/// chrono accepts exactly the dates of the proleptic Gregorian calendar with
/// hour < 24, minute < 60 and second < 60 in its year range; the contract
/// states that for years within ±200,000, names the timestamp, and states
/// that converting it back gives the same civil fields.
#[verifier::external_body]
fn chrono_timestamp(year: i32, month: u32, day: u32, hour: u32, minute: u32, second: u32) -> (r:
    Option<i64>)
    requires
        -200_000 <= year <= 200_000,
    ensures
        r is Some <==> civil_valid(
            year as int,
            month as int,
            day as int,
            hour as int,
            minute as int,
            second as int,
        ),
        r matches Some(t) ==> t == civil_to_unix((year, month, day, hour, minute, second))
            && timestamp_in_range(t) && unix_to_civil(t) == (year, month, day, hour, minute, second),
{
    chrono::Utc.with_ymd_and_hms(year, month, day, hour, minute, second).single().map(
        |dt| dt.timestamp(),
    )
}

/// The civil UTC fields of a timestamp (`DateTime::<Utc>::from_timestamp`,
/// then `year()`, `month()`, `day()`, `hour()`, `minute()`, `second()`).
///
/// chrono's accessors return an existing Gregorian date with hour < 24,
/// minute < 60 and second < 60; the fields are a function of the timestamp
/// (named `unix_to_civil`).
#[verifier::external_body]
fn chrono_civil(secs: i64) -> (r: (i32, u32, u32, u32, u32, u32))
    requires
        timestamp_in_range(secs),
    ensures
        r == unix_to_civil(secs),
        civil_valid(r.0 as int, r.1 as int, r.2 as int, r.3 as int, r.4 as int, r.5 as int),
{
    let dt = chrono::DateTime::from_timestamp(secs, 0).unwrap();
    (dt.year(), dt.month(), dt.day(), dt.hour(), dt.minute(), dt.second())
}

/// The whole Unix seconds (rounded down) of a time `millis` milliseconds
/// after the epoch, or before it when `before_epoch`, kept within the
/// timestamps handed to chrono (any time outside lies past the DOS range
/// and converts like its bound).
pub open spec fn clock_secs(before_epoch: bool, millis: u128) -> int {
    let s = if !before_epoch {
        (millis / 1000) as int
    } else {
        -(((millis + 999) / 1000) as int)
    };
    if s > 8_000_000_000_000 {
        8_000_000_000_000
    } else if s < -8_000_000_000_000 {
        -8_000_000_000_000
    } else {
        s
    }
}

/// Computes [`clock_secs`].
fn clock_seconds(before_epoch: bool, millis: u128) -> (s: i64)
    ensures
        s == clock_secs(before_epoch, millis),
        timestamp_in_range(s),
{
    let limit: u128 = 8_000_000_000_000;
    if !before_epoch {
        let q = millis / 1000;
        if q > limit {
            8_000_000_000_000
        } else {
            q as i64
        }
    } else {
        let q = if millis > limit * 1000 {
            limit + 1
        } else {
            (millis + 999) / 1000
        };
        if q > limit {
            -8_000_000_000_000
        } else {
            -(q as i64)
        }
    }
}

// ---------------------------------------------------------------------
// The DOS date/time type
// ---------------------------------------------------------------------

/// MS-DOS date/time as stored in ZIP headers.
///
/// Date bits `YYYYYYYM MMMDDDDD`: day (0-4), month (5-8), year offset from
/// 1980 (9-15). Time bits `HHHHHMMM MMMSSSSS`: seconds/2 (0-4), minutes
/// (5-10), hours (11-15).
#[derive(Clone, Copy, Debug, PartialEq, Eq, PartialOrd, Ord, Hash, Structural)]
pub struct DosDateTime {
    /// MS-DOS date field.
    pub date: u16,
    /// MS-DOS time field.
    pub time: u16,
}

/// The packed date field for the given components.
pub open spec fn pack_date(year_offset: u16, month: u16, day: u16) -> u16 {
    ((year_offset << 9) | (month << 5) | day) as u16
}

/// The packed time field for the given components.
pub open spec fn pack_time(hour: u16, minute: u16, second_half: u16) -> u16 {
    ((hour << 11) | (minute << 5) | second_half) as u16
}

impl DosDateTime {
    /// Year (1980-2107).
    pub open spec fn spec_year(self) -> u16 {
        (((self.date >> 9) & 0x7F) + 1980) as u16
    }

    /// Month field (valid values 1-12).
    pub open spec fn spec_month(self) -> u16 {
        (self.date >> 5) & 0x0F
    }

    /// Day field (valid values 1-31).
    pub open spec fn spec_day(self) -> u16 {
        self.date & 0x1F
    }

    /// Hour field (valid values 0-23).
    pub open spec fn spec_hour(self) -> u16 {
        (self.time >> 11) & 0x1F
    }

    /// Minute field (valid values 0-59).
    pub open spec fn spec_minute(self) -> u16 {
        (self.time >> 5) & 0x3F
    }

    /// Seconds (always even).
    pub open spec fn spec_second(self) -> u16 {
        ((self.time & 0x1F) * 2) as u16
    }

    /// True when this is an existing date and time.
    pub open spec fn spec_is_valid(self) -> bool {
        &&& 1 <= self.spec_month() <= 12
        &&& 1 <= self.spec_day()
        &&& spec_days_in_month(self.spec_year() as int, self.spec_month() as int) matches Some(m)
            && self.spec_day() <= m
        &&& self.spec_hour() <= 23
        &&& self.spec_minute() <= 59
        &&& self.time & 0x1F <= 29
    }

    /// True when the components are accepted by `from_components`.
    pub open spec fn components_valid(
        year: u16,
        month: u16,
        day: u16,
        hour: u16,
        minute: u16,
        second: u16,
    ) -> bool {
        &&& 1980 <= year <= 2107
        &&& civil_valid(
            year as int,
            month as int,
            day as int,
            hour as int,
            minute as int,
            second as int,
        )
    }

    /// Creates a value from the raw packed date and time fields.
    pub fn from_date_time_parts(date: u16, time: u16) -> (d: Self)
        ensures
            d.date == date && d.time == time,
    {
        DosDateTime { date, time }
    }

    /// The DOS epoch, 1980-01-01 00:00:00.
    pub fn default() -> (d: Self)
        ensures
            d.date == 0x0021 && d.time == 0,
    {
        DosDateTime { date: 0x0021, time: 0 }
    }

    /// Returns the number of days in `month` of `year`; `None` for months
    /// outside 1..=12.
    pub fn days_in_month(year: u16, month: u16) -> (r: Option<u16>)
        ensures
            r == spec_days_in_month(year as int, month as int),
    {
        if month == 1 || month == 3 || month == 5 || month == 7 || month == 8 || month == 10
            || month == 12 {
            Some(31)
        } else if month == 4 || month == 6 || month == 9 || month == 11 {
            Some(30)
        } else if month == 2 {
            if year % 4 == 0 && (year % 100 != 0 || year % 400 == 0) {
                Some(29)
            } else {
                Some(28)
            }
        } else {
            None
        }
    }

    /// Creates a value from components, truncating seconds to two-second
    /// resolution. `InvalidDosDateTime` when the year is outside 1980-2107
    /// or the date or time does not exist.
    pub fn from_components(
        year: u16,
        month: u16,
        day: u16,
        hour: u16,
        minute: u16,
        second: u16,
    ) -> (r: Result<Self, BaleError>)
        ensures
            !Self::components_valid(year, month, day, hour, minute, second) ==> r == Err::<
                Self,
                BaleError,
            >(BaleError::InvalidDosDateTime),
            Self::components_valid(year, month, day, hour, minute, second) ==> (r matches Ok(d)
                && d.date == pack_date((year - 1980) as u16, month, day) && d.time == pack_time(
                hour,
                minute,
                second / 2,
            ) && d.spec_year() == year && d.spec_month() == month && d.spec_day() == day
                && d.spec_hour() == hour && d.spec_minute() == minute && d.spec_second() == second
                / 2 * 2 && d.spec_is_valid()),
    {
        let dim = Self::days_in_month(year, month);
        let day_ok = match dim {
            Some(m) => day <= m,
            None => false,
        };
        let valid = 1980 <= year && year <= 2107 && 1 <= month && month <= 12 && day >= 1
            && day_ok && hour <= 23 && minute <= 59 && second <= 59;
        if !valid {
            return Err(BaleError::InvalidDosDateTime);
        }
        let yo = year - 1980;
        let s2 = second / 2;
        let date = (yo << 9) | (month << 5) | day;
        let time = (hour << 11) | (minute << 5) | s2;
        let d = DosDateTime { date, time };
        assert(((((yo << 9) | (month << 5) | day) >> 9) & 0x7F) == yo && ((((yo << 9) | (month
            << 5) | day) >> 5) & 0x0F) == month && (((yo << 9) | (month << 5) | day) & 0x1F)
            == day) by (bit_vector)
            requires
                yo < 128,
                month < 16,
                day < 32,
        ;
        assert(((((hour << 11) | (minute << 5) | s2) >> 11) & 0x1F) == hour && ((((hour << 11)
            | (minute << 5) | s2) >> 5) & 0x3F) == minute && (((hour << 11) | (minute << 5) | s2)
            & 0x1F) == s2) by (bit_vector)
            requires
                hour < 32,
                minute < 64,
                s2 < 32,
        ;
        Ok(d)
    }

    /// Extracts the year (1980-2107).
    pub fn year(&self) -> (r: u16)
        ensures
            r == self.spec_year(),
    {
        let d = self.date;
        assert((d >> 9) & 0x7F <= 127) by (bit_vector);
        ((d >> 9) & 0x7F) + 1980
    }

    /// Extracts the month field.
    pub fn month(&self) -> (r: u16)
        ensures
            r == self.spec_month(),
    {
        (self.date >> 5) & 0x0F
    }

    /// Extracts the day field.
    pub fn day(&self) -> (r: u16)
        ensures
            r == self.spec_day(),
    {
        self.date & 0x1F
    }

    /// Extracts the hour field.
    pub fn hour(&self) -> (r: u16)
        ensures
            r == self.spec_hour(),
    {
        (self.time >> 11) & 0x1F
    }

    /// Extracts the minute field.
    pub fn minute(&self) -> (r: u16)
        ensures
            r == self.spec_minute(),
    {
        (self.time >> 5) & 0x3F
    }

    /// Extracts the seconds (0-62, always even).
    pub fn second(&self) -> (r: u16)
        ensures
            r == self.spec_second(),
    {
        let t = self.time;
        assert(t & 0x1F <= 31) by (bit_vector);
        (t & 0x1F) * 2
    }

    /// Returns `true` if this represents an existing date and time.
    pub fn is_valid(&self) -> (b: bool)
        ensures
            b == self.spec_is_valid(),
    {
        let month = self.month();
        let day = self.day();
        let hour = self.hour();
        let minute = self.minute();
        let second_raw = self.time & 0x1F;
        if month < 1 || month > 12 {
            return false;
        }
        let max_day = match Self::days_in_month(self.year(), month) {
            Some(d) => d,
            None => return false,
        };
        if day < 1 || day > max_day {
            return false;
        }
        if hour > 23 {
            return false;
        }
        if minute > 59 {
            return false;
        }
        if second_raw > 29 {
            return false;
        }
        true
    }

    /// Packs civil fields, clamping years before 1980 to 1980-01-01 00:00:00
    /// and years after 2107 to 2107-12-31 23:59:58; seconds are truncated to
    /// two-second resolution.
    pub fn from_civil_clamped(year: i32, month: u32, day: u32, hour: u32, minute: u32, second: u32) -> (d:
        Self)
        requires
            civil_valid(
                year as int,
                month as int,
                day as int,
                hour as int,
                minute as int,
                second as int,
            ),
        ensures
            year < 1980 ==> d.date == pack_date(0, 1, 1) && d.time == pack_time(0, 0, 0),
            year > 2107 ==> d.date == pack_date(127, 12, 31) && d.time == pack_time(23, 59, 29),
            1980 <= year <= 2107 ==> d.date == pack_date(
                (year - 1980) as u16,
                month as u16,
                day as u16,
            ) && d.time == pack_time(hour as u16, minute as u16, (second / 2) as u16),
            d.spec_is_valid(),
    {
        let (y, mo, da, h, mi, s): (u16, u16, u16, u16, u16, u16) = if year < 1980 {
            (0, 1, 1, 0, 0, 0)
        } else if year > 2107 {
            (127, 12, 31, 23, 59, 58)
        } else {
            ((year - 1980) as u16, month as u16, day as u16, hour as u16, minute as u16, second as u16)
        };
        let s2 = s / 2;
        let date = (y << 9) | (mo << 5) | da;
        let time = (h << 11) | (mi << 5) | s2;
        assert((((y << 9) | (mo << 5) | da) >> 9) & 0x7F == y && (((y << 9) | (mo << 5) | da)
            >> 5) & 0x0F == mo && ((y << 9) | (mo << 5) | da) & 0x1F == da) by (bit_vector)
            requires
                y < 128,
                mo < 16,
                da < 32,
        ;
        assert((((h << 11) | (mi << 5) | s2) >> 11) & 0x1F == h && (((h << 11) | (mi << 5) | s2)
            >> 5) & 0x3F == mi && ((h << 11) | (mi << 5) | s2) & 0x1F == s2) by (bit_vector)
            requires
                h < 32,
                mi < 64,
                s2 < 32,
        ;
        DosDateTime { date, time }
    }

    /// Converts a Unix timestamp (seconds, UTC) to DOS date/time, clamping
    /// to the representable range 1980-2107.
    pub fn from_unix_seconds(secs: i64) -> (d: Self)
        requires
            timestamp_in_range(secs),
        ensures
            d == Self::spec_from_civil(unix_to_civil(secs)),
            d.spec_is_valid(),
    {
        let (y, mo, da, h, mi, s) = chrono_civil(secs);
        Self::from_civil_clamped(y, mo, da, h, mi, s)
    }

    /// The value `from_civil_clamped` builds from civil fields.
    pub open spec fn spec_from_civil(c: (i32, u32, u32, u32, u32, u32)) -> DosDateTime {
        if c.0 < 1980 {
            DosDateTime { date: pack_date(0, 1, 1), time: pack_time(0, 0, 0) }
        } else if c.0 > 2107 {
            DosDateTime { date: pack_date(127, 12, 31), time: pack_time(23, 59, 29) }
        } else {
            DosDateTime {
                date: pack_date((c.0 - 1980) as u16, c.1 as u16, c.2 as u16),
                time: pack_time(c.3 as u16, c.4 as u16, (c.5 / 2) as u16),
            }
        }
    }

    /// The current UTC time as a DOS date/time.
    pub fn now() -> (d: Self)
        ensures
            d.spec_is_valid(),
    {
        let (before, ms) = crate::clock::clock_millis();
        let secs = clock_seconds(before, ms);
        Self::from_unix_seconds(secs)
    }

    /// Converts to a Unix timestamp (seconds, UTC); `InvalidDosDateTime`
    /// when the fields do not form an existing date and time.
    pub fn to_system_time(&self) -> (r: Result<i64, BaleError>)
        ensures
            !self.spec_is_valid() ==> r == Err::<i64, BaleError>(BaleError::InvalidDosDateTime),
            self.spec_is_valid() ==> r == Ok::<i64, BaleError>(
                civil_to_unix(
                    (
                        self.spec_year() as i32,
                        self.spec_month() as u32,
                        self.spec_day() as u32,
                        self.spec_hour() as u32,
                        self.spec_minute() as u32,
                        self.spec_second() as u32,
                    ),
                ),
            ),
            r matches Ok(t) ==> timestamp_in_range(t) && Self::spec_from_civil(unix_to_civil(t))
                == *self,
    {
        let y = self.year();
        let tm = self.time;
        assert(tm & 0x1F <= 31) by (bit_vector);
        let t = chrono_timestamp(
            y as i32,
            self.month() as u32,
            self.day() as u32,
            self.hour() as u32,
            self.minute() as u32,
            self.second() as u32,
        );
        proof {
            let d = self.date;
            assert(((((d >> 9) & 0x7F) << 9) | (((d >> 5) & 0x0F) << 5) | (d & 0x1F)) == d)
                by (bit_vector);
            assert((((tm >> 11) & 0x1F) << 11) | (((tm >> 5) & 0x3F) << 5) | (tm & 0x1F) == tm)
                by (bit_vector);
            assert((d >> 9) & 0x7F <= 127) by (bit_vector);
        }
        match t {
            Some(secs) => Ok(secs),
            None => Err(BaleError::InvalidDosDateTime),
        }
    }

    /// Converts to a Unix timestamp, falling back to the DOS epoch
    /// (1980-01-01 00:00:00 UTC) when the fields are invalid.
    pub fn to_system_time_or_epoch(&self) -> (r: i64)
        ensures
            self.spec_is_valid() ==> r == civil_to_unix(
                (
                    self.spec_year() as i32,
                    self.spec_month() as u32,
                    self.spec_day() as u32,
                    self.spec_hour() as u32,
                    self.spec_minute() as u32,
                    self.spec_second() as u32,
                ),
            ),
            !self.spec_is_valid() ==> r == civil_to_unix((1980, 1, 1, 0, 0, 0)),
    {
        match self.to_system_time() {
            Ok(t) => t,
            Err(_) => {
                match chrono_timestamp(1980, 1, 1, 0, 0, 0) {
                    Some(t) => t,
                    None => {
                        proof {
                            assert(false);
                        }
                        0
                    },
                }
            },
        }
    }

    /// The `YYYY-MM-DD HH:MM:SS` text of this value.
    pub open spec fn spec_text(self) -> Seq<u8> {
        pad_left(spec_decimal(self.spec_year() as nat), 4, 0x30) + seq![0x2Du8] + pad_left(
            spec_decimal(self.spec_month() as nat),
            2,
            0x30,
        ) + seq![0x2Du8] + pad_left(spec_decimal(self.spec_day() as nat), 2, 0x30) + seq![0x20u8]
            + pad_left(spec_decimal(self.spec_hour() as nat), 2, 0x30) + seq![0x3Au8] + pad_left(
            spec_decimal(self.spec_minute() as nat),
            2,
            0x30,
        ) + seq![0x3Au8] + pad_left(spec_decimal(self.spec_second() as nat), 2, 0x30)
    }

    /// Formats as `YYYY-MM-DD HH:MM:SS` (zero-padded fields).
    pub fn to_string(&self) -> (s: String)
        ensures
            s@ == ascii_chars(self.spec_text()),
    {
        let mut v: Vec<u8> = Vec::new();
        let y = padded_decimal(self.year() as u64, 4, 0x30);
        crate::text::extend_bytes(&mut v, y.as_slice());
        v.push(0x2D);
        let m = padded_decimal(self.month() as u64, 2, 0x30);
        crate::text::extend_bytes(&mut v, m.as_slice());
        v.push(0x2D);
        let d = padded_decimal(self.day() as u64, 2, 0x30);
        crate::text::extend_bytes(&mut v, d.as_slice());
        v.push(0x20);
        let h = padded_decimal(self.hour() as u64, 2, 0x30);
        crate::text::extend_bytes(&mut v, h.as_slice());
        v.push(0x3A);
        let mi = padded_decimal(self.minute() as u64, 2, 0x30);
        crate::text::extend_bytes(&mut v, mi.as_slice());
        v.push(0x3A);
        let se = padded_decimal(self.second() as u64, 2, 0x30);
        crate::text::extend_bytes(&mut v, se.as_slice());
        assert(v@ =~= self.spec_text());
        proof {
            assert(crate::text::is_ascii_bytes(v@)) by {
                assert forall|i: int| 0 <= i < v@.len() implies #[trigger] v@[i] < 0x80 by {
                    let a = y@ + seq![0x2Du8];
                    assert(v@ == y@ + seq![0x2Du8] + m@ + seq![0x2Du8] + d@ + seq![0x20u8] + h@
                        + seq![0x3Au8] + mi@ + seq![0x3Au8] + se@);
                }
            }
        }
        string_from_ascii(v)
    }
}


/// Ordering of packed values is chronological: for fields in range
/// (year offset < 128, month < 16, day < 32, hour < 32, minute < 64,
/// half-seconds < 32), comparing (date, time) lexicographically compares
/// (year, month, day, hour, minute, second) lexicographically.
pub proof fn lemma_packed_order_is_chronological(
    y1: u16,
    m1: u16,
    d1: u16,
    h1: u16,
    mi1: u16,
    s1: u16,
    y2: u16,
    m2: u16,
    d2: u16,
    h2: u16,
    mi2: u16,
    s2: u16,
)
    requires
        y1 < 128 && m1 < 16 && d1 < 32 && h1 < 32 && mi1 < 64 && s1 < 32,
        y2 < 128 && m2 < 16 && d2 < 32 && h2 < 32 && mi2 < 64 && s2 < 32,
    ensures
        ({
            let a = DosDateTime { date: pack_date(y1, m1, d1), time: pack_time(h1, mi1, s1) };
            let b = DosDateTime { date: pack_date(y2, m2, d2), time: pack_time(h2, mi2, s2) };
            (a.date < b.date || (a.date == b.date && a.time < b.time)) <==> (y1 < y2 || (y1 == y2
                && (m1 < m2 || (m1 == m2 && (d1 < d2 || (d1 == d2 && (h1 < h2 || (h1 == h2 && (mi1
                < mi2 || (mi1 == mi2 && s1 < s2)))))))))) && (a == b <==> (y1 == y2 && m1 == m2
                && d1 == d2 && h1 == h2 && mi1 == mi2 && s1 == s2))
        }),
{
    assert(((y1 << 9) | (m1 << 5) | d1) == y1 * 512 + m1 * 32 + d1) by (bit_vector)
        requires
            y1 < 128 && m1 < 16 && d1 < 32,
    ;
    assert(((y2 << 9) | (m2 << 5) | d2) == y2 * 512 + m2 * 32 + d2) by (bit_vector)
        requires
            y2 < 128 && m2 < 16 && d2 < 32,
    ;
    assert(((h1 << 11) | (mi1 << 5) | s1) == h1 * 2048 + mi1 * 32 + s1) by (bit_vector)
        requires
            h1 < 32 && mi1 < 64 && s1 < 32,
    ;
    assert(((h2 << 11) | (mi2 << 5) | s2) == h2 * 2048 + mi2 * 32 + s2) by (bit_vector)
        requires
            h2 < 32 && mi2 < 64 && s2 < 32,
    ;
}

} // verus!
