//! The invocation's configuration: the reporting date as text, parsed to a
//! calendar day. `yyyy-mm-dd` names the day itself; `yyyy-mm` names the
//! month and falls to its first day.

use vstd::prelude::*;

use crate::date::{field2_ok, field2_val, field4_ok, field4_val, Date, DASH};
use crate::text::split_on;

verus! {

/// Why the configured date was rejected.
#[derive(Clone, Copy, Debug, PartialEq, Eq, Structural)]
pub enum ConfigError {
    /// The text is neither `yyyy-mm-dd` nor `yyyy-mm` naming a real day.
    BadDateFormat,
}

/// The day the configured text names: `yyyy-mm-dd` directly, `yyyy-mm` as
/// that month's first day; `None` for any other shape.
pub open spec fn spec_config_date(s: Seq<u8>) -> Option<Date> {
    let f = split_on(s, DASH);
    if f.len() == 3 && field4_ok(f[0]) && field2_ok(f[1]) && field2_ok(f[2]) {
        let d = Date {
            year: field4_val(f[0]) as u32,
            month: field2_val(f[1]) as u8,
            day: field2_val(f[2]) as u8,
        };
        if d.valid() {
            Some(d)
        } else {
            None
        }
    } else if f.len() == 2 && field4_ok(f[0]) && field2_ok(f[1]) {
        let d = Date { year: field4_val(f[0]) as u32, month: field2_val(f[1]) as u8, day: 1 };
        if d.valid() {
            Some(d)
        } else {
            None
        }
    } else {
        None
    }
}

/// The invocation's settings: the reporting date text.
pub struct Config {
    pub date: Vec<u8>,
}

impl Config {
    /// Parses the configured reporting date, as `spec_config_date`
    /// describes; any other shape is rejected.
    pub fn get_date(&self) -> (r: Result<Date, ConfigError>)
        ensures
            match r {
                Result::Ok(d) => spec_config_date(self.date@) == Some(d),
                Result::Err(_) => spec_config_date(self.date@) is None,
            },
    {
        let f = crate::text::split_bytes(&self.date, DASH);
        if f.len() == 3 {
            proof {
                assert(f@[0].deep_view() =~= f@[0]@);
                assert(f@[1].deep_view() =~= f@[1]@);
                assert(f@[2].deep_view() =~= f@[2]@);
            }
            let yf = &f[0];
            let mf = &f[1];
            let df = &f[2];
            if yf.len() != 4 || !crate::date::check_all_digits(yf) {
                return Err(ConfigError::BadDateFormat);
            }
            if mf.len() != 2 || !crate::date::check_all_digits(mf) {
                return Err(ConfigError::BadDateFormat);
            }
            if df.len() != 2 || !crate::date::check_all_digits(df) {
                return Err(ConfigError::BadDateFormat);
            }
            let year: u32 = 1000 * ((yf[0] - 48) as u32) + 100 * ((yf[1] - 48) as u32) + 10 * ((
            yf[2] - 48) as u32) + ((yf[3] - 48) as u32);
            let month: u8 = 10 * (mf[0] - 48) + (mf[1] - 48);
            let day: u8 = 10 * (df[0] - 48) + (df[1] - 48);
            if month < 1 || month > 12 {
                return Err(ConfigError::BadDateFormat);
            }
            if day < 1 || day > crate::date::days_in_month(year, month) {
                return Err(ConfigError::BadDateFormat);
            }
            Ok(Date { year, month, day })
        } else if f.len() == 2 {
            proof {
                assert(f@[0].deep_view() =~= f@[0]@);
                assert(f@[1].deep_view() =~= f@[1]@);
            }
            let yf = &f[0];
            let mf = &f[1];
            if yf.len() != 4 || !crate::date::check_all_digits(yf) {
                return Err(ConfigError::BadDateFormat);
            }
            if mf.len() != 2 || !crate::date::check_all_digits(mf) {
                return Err(ConfigError::BadDateFormat);
            }
            let year: u32 = 1000 * ((yf[0] - 48) as u32) + 100 * ((yf[1] - 48) as u32) + 10 * ((
            yf[2] - 48) as u32) + ((yf[3] - 48) as u32);
            let month: u8 = 10 * (mf[0] - 48) + (mf[1] - 48);
            if month < 1 || month > 12 {
                return Err(ConfigError::BadDateFormat);
            }
            Ok(Date { year, month, day: 1 })
        } else {
            Err(ConfigError::BadDateFormat)
        }
    }
}

} // verus!
