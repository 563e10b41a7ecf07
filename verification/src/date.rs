//! Calendar dates as plain year, month and day values, with calendar
//! validity, the day/month/year text form used by statement lines, and the
//! month arithmetic that the salary lookback needs.

use vstd::prelude::*;

use crate::text::split_on;

verus! {

pub const SLASH: u8 = 47;
pub const DASH: u8 = 45;

/// A calendar day. `valid()` says when the three fields name a real day.
#[derive(Clone, Copy, Debug, PartialEq, Eq, Structural)]
pub struct Date {
    pub year: u32,
    pub month: u8,
    pub day: u8,
}

pub open spec fn is_leap_year(y: int) -> bool {
    (y % 4 == 0 && y % 100 != 0) || y % 400 == 0
}

pub open spec fn spec_days_in_month(y: int, m: int) -> int {
    if m == 2 {
        if is_leap_year(y) {
            29
        } else {
            28
        }
    } else if m == 4 || m == 6 || m == 9 || m == 11 {
        30
    } else {
        31
    }
}

impl Date {
    /// A real calendar day with a four-digit year.
    pub open spec fn valid(self) -> bool {
        &&& self.year <= 9999
        &&& 1 <= self.month <= 12
        &&& 1 <= self.day <= spec_days_in_month(self.year as int, self.month as int)
    }
}

/// Number of days in month `m` of year `y`.
pub fn days_in_month(y: u32, m: u8) -> (r: u8)
    requires
        1 <= m <= 12,
    ensures
        r as int == spec_days_in_month(y as int, m as int),
{
    if m == 2 {
        if (y % 4 == 0 && y % 100 != 0) || y % 400 == 0 {
            29
        } else {
            28
        }
    } else if m == 4 || m == 6 || m == 9 || m == 11 {
        30
    } else {
        31
    }
}

pub open spec fn is_digit(b: u8) -> bool {
    48 <= b <= 57
}

pub open spec fn all_digits(s: Seq<u8>) -> bool {
    forall|i: int| 0 <= i < s.len() ==> is_digit(s[i])
}

pub open spec fn dval(b: u8) -> int {
    b - 48
}

/// A one- or two-digit numeric field.
pub open spec fn field_1_2_ok(s: Seq<u8>) -> bool {
    (s.len() == 1 || s.len() == 2) && all_digits(s)
}

pub open spec fn field_1_2_val(s: Seq<u8>) -> int {
    if s.len() == 1 {
        dval(s[0])
    } else {
        10 * dval(s[0]) + dval(s[1])
    }
}

/// An exactly-two-digit numeric field.
pub open spec fn field2_ok(s: Seq<u8>) -> bool {
    s.len() == 2 && all_digits(s)
}

pub open spec fn field2_val(s: Seq<u8>) -> int {
    10 * dval(s[0]) + dval(s[1])
}

/// An exactly-four-digit numeric field.
pub open spec fn field4_ok(s: Seq<u8>) -> bool {
    s.len() == 4 && all_digits(s)
}

pub open spec fn field4_val(s: Seq<u8>) -> int {
    1000 * dval(s[0]) + 100 * dval(s[1]) + 10 * dval(s[2]) + dval(s[3])
}

/// The day/month/year form of a statement line's date field: day and month
/// of one or two digits, a four-digit year, separated by slashes, naming a
/// real calendar day.
pub open spec fn spec_parse_dmy(s: Seq<u8>) -> Option<Date> {
    let f = split_on(s, SLASH);
    if f.len() == 3 && field_1_2_ok(f[0]) && field_1_2_ok(f[1]) && field4_ok(f[2]) {
        let d = Date {
            year: field4_val(f[2]) as u32,
            month: field_1_2_val(f[1]) as u8,
            day: field_1_2_val(f[0]) as u8,
        };
        if d.valid() {
            Some(d)
        } else {
            None
        }
    } else {
        None
    }
}

/// Checks that every byte of `s` is a decimal digit.
pub fn check_all_digits(s: &Vec<u8>) -> (r: bool)
    ensures
        r == all_digits(s@),
{
    let mut i: usize = 0;
    while i < s.len()
        invariant
            i <= s.len(),
            forall|j: int| 0 <= j < i ==> is_digit(s@[j]),
        decreases s.len() - i,
    {
        let b = s[i];
        if b < 48 || b > 57 {
            return false;
        }
        i += 1;
    }
    true
}

/// Value of a one- or two-digit field.
fn field_1_2(s: &Vec<u8>) -> (r: u8)
    requires
        field_1_2_ok(s@),
    ensures
        r as int == field_1_2_val(s@),
{
    if s.len() == 1 {
        s[0] - 48
    } else {
        10 * (s[0] - 48) + (s[1] - 48)
    }
}

/// Parses a date written day/month/year, as `spec_parse_dmy` describes.
pub fn parse_dmy(s: &Vec<u8>) -> (r: Option<Date>)
    ensures
        r == spec_parse_dmy(s@),
{
    let f = split_bytes_slash(s);
    if f.len() != 3 {
        return None;
    }
    proof {
        assert(f@[0].deep_view() =~= f@[0]@);
        assert(f@[1].deep_view() =~= f@[1]@);
        assert(f@[2].deep_view() =~= f@[2]@);
    }
    let df = &f[0];
    let mf = &f[1];
    let yf = &f[2];
    if !(df.len() == 1 || df.len() == 2) || !check_all_digits(df) {
        return None;
    }
    if !(mf.len() == 1 || mf.len() == 2) || !check_all_digits(mf) {
        return None;
    }
    if yf.len() != 4 || !check_all_digits(yf) {
        return None;
    }
    let day = field_1_2(df);
    let month = field_1_2(mf);
    let year: u32 = 1000 * ((yf[0] - 48) as u32) + 100 * ((yf[1] - 48) as u32)
        + 10 * ((yf[2] - 48) as u32) + ((yf[3] - 48) as u32);
    if month < 1 || month > 12 {
        return None;
    }
    if day < 1 || day > days_in_month(year, month) {
        return None;
    }
    Some(Date { year, month, day })
}

/// Splits on slashes; a thin front for the shared splitter.
fn split_bytes_slash(s: &Vec<u8>) -> (r: Vec<Vec<u8>>)
    ensures
        r.deep_view() == split_on(s@, SLASH),
{
    crate::text::split_bytes(s, SLASH)
}

/// The year and month one month before (`y`, `m`): December of the prior
/// year when `m` is January.
pub open spec fn prior_year_month(y: int, m: int) -> (int, int) {
    if m == 1 {
        (y - 1, 12)
    } else {
        (y, m - 1)
    }
}

} // verus!
