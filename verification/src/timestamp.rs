//! Calendar instants, the `"YYYY MM DD HH:MM"` text format, and the
//! temporal gate that forecloses predictions once an event has started.

use vstd::prelude::*;

use chrono::Datelike;
use chrono::Timelike;

use crate::digits::chars_of;
use crate::digits::dec_fixed;
use crate::digits::digits_at;
use crate::digits::lemma_dec_fixed_bound;
use crate::digits::pow10;
use crate::digits::read_fixed;
use crate::model::StoreError;

verus! {

/// A calendar instant with minute precision, the resolution of the
/// `"YYYY MM DD HH:MM"` text format. All comparisons against the wall clock
/// use one consistent convention: the deployment host's local time zone.
#[derive(PartialEq, Eq, Structural, Clone, Copy, Debug, Hash)]
pub struct Timestamp {
    pub year: u16,
    pub month: u8,
    pub day: u8,
    pub hour: u8,
    pub minute: u8,
}

impl View for Timestamp {
    type V = Timestamp;

    open spec fn view(&self) -> Timestamp {
        *self
    }
}

impl DeepView for Timestamp {
    type V = Timestamp;

    open spec fn deep_view(&self) -> Timestamp {
        *self
    }
}

/// A total order key on timestamps: a mixed-radix numeral whose bases bound
/// each field, so that for in-range fields the key order is exactly the
/// lexicographic (calendar) order.
pub open spec fn ts_key(t: Timestamp) -> int {
    (((t.year * 13 + t.month) * 32 + t.day) * 24 + t.hour) * 60 + t.minute
}

/// The temporal gate: a record accepts new or changed predictions while its
/// start time lies strictly after the current time.
pub open spec fn spec_is_open(start: Timestamp, now: Timestamp) -> bool {
    ts_key(start) > ts_key(now)
}

pub open spec fn leap_year(y: int) -> bool {
    (y % 4 == 0 && y % 100 != 0) || y % 400 == 0
}

pub open spec fn days_in_month(y: int, m: int) -> int {
    if m == 2 {
        if leap_year(y) { 29 } else { 28 }
    } else if m == 4 || m == 6 || m == 9 || m == 11 {
        30
    } else {
        31
    }
}

impl Timestamp {
    /// A well-formed calendar instant: fields within the text format's range
    /// and the day valid for the month.
    pub open spec fn valid(self) -> bool {
        &&& self.year <= 9999
        &&& 1 <= self.month <= 12
        &&& 1 <= self.day <= days_in_month(self.year as int, self.month as int)
        &&& self.hour <= 23
        &&& self.minute <= 59
    }

    pub fn key(&self) -> (k: u64)
        ensures
            k as int == ts_key(*self),
    {
        (((self.year as u64 * 13 + self.month as u64) * 32 + self.day as u64) * 24
            + self.hour as u64) * 60 + self.minute as u64
    }

    /// Strict order on the key: `self` lies strictly before `other`.
    pub fn before(&self, other: &Timestamp) -> (r: bool)
        ensures
            r == (ts_key(*self) < ts_key(*other)),
    {
        self.key() < other.key()
    }

    /// Whether the fields form a well-formed calendar instant.
    pub fn check_valid(&self) -> (r: bool)
        ensures
            r == self.valid(),
    {
        if !(self.year <= 9999 && 1 <= self.month && self.month <= 12 && self.hour <= 23
            && self.minute <= 59 && 1 <= self.day) {
            return false;
        }
        let dim: u8 = if self.month == 2 {
            if (self.year % 4 == 0 && self.year % 100 != 0) || self.year % 400 == 0 {
                29
            } else {
                28
            }
        } else if self.month == 4 || self.month == 6 || self.month == 9 || self.month == 11 {
            30
        } else {
            31
        };
        assert(dim as int == days_in_month(self.year as int, self.month as int));
        self.day <= dim
    }
}

/// The temporal gate as executable code.
pub fn is_open(start: &Timestamp, now: &Timestamp) -> (r: bool)
    ensures
        r == spec_is_open(*start, *now),
{
    now.key() < start.key()
}

/// The meaning of the `"YYYY MM DD HH:MM"` text format: sixteen characters,
/// fixed-width decimal fields, and a well-formed calendar instant.
pub open spec fn parse_spec(s: Seq<char>) -> Option<Timestamp> {
    if s.len() == 16 && digits_at(s, 0, 4) && s[4] == ' ' && digits_at(s, 5, 2) && s[7] == ' '
        && digits_at(s, 8, 2) && s[10] == ' ' && digits_at(s, 11, 2) && s[13] == ':' && digits_at(
        s,
        14,
        2,
    ) {
        let t = Timestamp {
            year: dec_fixed(s, 0, 4) as u16,
            month: dec_fixed(s, 5, 2) as u8,
            day: dec_fixed(s, 8, 2) as u8,
            hour: dec_fixed(s, 11, 2) as u8,
            minute: dec_fixed(s, 14, 2) as u8,
        };
        if t.valid() {
            Some(t)
        } else {
            None
        }
    } else {
        None
    }
}

/// Parses the `"YYYY MM DD HH:MM"` format; malformed input is a validation
/// error, never a crash.
pub fn parse_timestamp(s: &str) -> (r: Result<Timestamp, StoreError>)
    ensures
        match r {
            Ok(t) => parse_spec(s@) == Some(t),
            Err(e) => parse_spec(s@) is None && e == StoreError::InvalidTimestamp,
        },
{
    let cs = chars_of(s);
    if cs.len() != 16 {
        return Err(StoreError::InvalidTimestamp);
    }
    if !(cs[4] == ' ' && cs[7] == ' ' && cs[10] == ' ' && cs[13] == ':') {
        return Err(StoreError::InvalidTimestamp);
    }
    let year = match read_fixed(&cs, 0, 4) {
        None => {
            proof {
                if digits_at(s@, 0, 4) {
                    digits_fit(s@, 0, 4);
                }
            }
            return Err(StoreError::InvalidTimestamp);
        },
        Some(p) => p.0,
    };
    let month = match read_fixed(&cs, 5, 2) {
        None => {
            proof {
                if digits_at(s@, 5, 2) {
                    digits_fit(s@, 5, 2);
                }
            }
            return Err(StoreError::InvalidTimestamp);
        },
        Some(p) => p.0,
    };
    let day = match read_fixed(&cs, 8, 2) {
        None => {
            proof {
                if digits_at(s@, 8, 2) {
                    digits_fit(s@, 8, 2);
                }
            }
            return Err(StoreError::InvalidTimestamp);
        },
        Some(p) => p.0,
    };
    let hour = match read_fixed(&cs, 11, 2) {
        None => {
            proof {
                if digits_at(s@, 11, 2) {
                    digits_fit(s@, 11, 2);
                }
            }
            return Err(StoreError::InvalidTimestamp);
        },
        Some(p) => p.0,
    };
    let minute = match read_fixed(&cs, 14, 2) {
        None => {
            proof {
                if digits_at(s@, 14, 2) {
                    digits_fit(s@, 14, 2);
                }
            }
            return Err(StoreError::InvalidTimestamp);
        },
        Some(p) => p.0,
    };
    proof {
        lemma_dec_fixed_bound(s@, 0, 4);
        lemma_dec_fixed_bound(s@, 5, 2);
        lemma_dec_fixed_bound(s@, 8, 2);
        lemma_dec_fixed_bound(s@, 11, 2);
        lemma_dec_fixed_bound(s@, 14, 2);
        reveal_with_fuel(pow10, 5);
    }
    let t = Timestamp {
        year: year as u16,
        month: month as u8,
        day: day as u8,
        hour: hour as u8,
        minute: minute as u8,
    };
    if t.check_valid() {
        Ok(t)
    } else {
        Err(StoreError::InvalidTimestamp)
    }
}

/// Digit runs this short always fit in a machine word.
proof fn digits_fit(s: Seq<char>, i: int, w: nat)
    requires
        w <= 19,
        digits_at(s, i, w),
    ensures
        dec_fixed(s, i, w) <= u64::MAX,
{
    lemma_dec_fixed_bound(s, i, w);
    crate::digits::lemma_pow10_monotone(w, 19);
    assert(pow10(19) == 10000000000000000000) by {
        reveal_with_fuel(pow10, 20);
    }
}

/// Relies on `chrono::Local::now` and `naive_local` for the current local
/// wall-clock time, and on chrono's `Datelike`/`Timelike` accessors, whose
/// documented ranges are: month 1..=12, day 1..=31, hour 0..=23,
/// minute 0..=59.
#[verifier::external_body]
fn now_fields() -> (r: (i32, u32, u32, u32, u32))
    ensures
        1 <= r.1 <= 12,
        1 <= r.2 <= 31,
        r.3 <= 23,
        r.4 <= 59,
{
    let t = chrono::Local::now().naive_local();
    (t.year(), t.month(), t.day(), t.hour(), t.minute())
}

/// The current wall-clock time on this library's calendar grid, or `None` if
/// the host clock lies outside the representable years.
pub fn current_time() -> (r: Option<Timestamp>)
    ensures
        r matches Some(t) ==> t.valid(),
{
    let (y, mo, d, h, mi) = now_fields();
    if y < 0 || y > 9999 {
        return None;
    }
    let t = Timestamp {
        year: y as u16,
        month: mo as u8,
        day: d as u8,
        hour: h as u8,
        minute: mi as u8,
    };
    if t.check_valid() {
        Some(t)
    } else {
        None
    }
}

} // verus!
