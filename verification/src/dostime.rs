//! Calendar dates as zip records store them.

use vstd::prelude::*;

verus! {

/// The first second that a zip timestamp can express: 1980-01-01 00:00:00.
pub const DOS_EPOCH: u64 = 315532800;

/// The first second past what a zip timestamp can express: 2108-01-01
/// 00:00:00.
pub const DOS_END: u64 = 4354819200;

/// A day of the proleptic Gregorian calendar.
pub struct CivilDate {
    pub year: int,
    pub month: int,
    pub day: int,
}

/// The calendar date of the day that lies `days` days after 1970-01-01,
/// counted in 400-year eras that begin on a first of March.
pub open spec fn civil_from_days(days: int) -> CivilDate {
    let shifted = days + 719468;
    let era = shifted / 146097;
    let day_of_era = shifted % 146097;
    let year_of_era = (day_of_era - day_of_era / 1460 + day_of_era / 36524 - day_of_era / 146096)
        / 365;
    let day_of_year = day_of_era - (365 * year_of_era + year_of_era / 4 - year_of_era / 100);
    let shifted_month = (5 * day_of_year + 2) / 153;
    let day = day_of_year - (153 * shifted_month + 2) / 5 + 1;
    let month = if shifted_month < 10 {
        shifted_month + 3
    } else {
        shifted_month - 9
    };
    let year = year_of_era + era * 400 + if month <= 2 {
        1int
    } else {
        0int
    };
    CivilDate { year, month, day }
}

/// The zip date of a moment given in seconds since 1970, in UTC: years since
/// 1980 in the upper seven bits, then four bits of month and five of day.
/// Moments outside 1980 to 2107 take the nearest date that fits.
pub open spec fn dos_date(mtime: u64) -> u16 {
    if mtime < DOS_EPOCH {
        33
    } else if mtime >= DOS_END {
        65439
    } else {
        let date = civil_from_days(mtime as int / 86400);
        ((date.year - 1980) * 512 + date.month * 32 + date.day) as u16
    }
}

/// The zip time of day: five bits of hours, six of minutes, five of seconds
/// halved.
pub open spec fn dos_time(mtime: u64) -> u16 {
    if mtime < DOS_EPOCH {
        0
    } else if mtime >= DOS_END {
        49021
    } else {
        let second_of_day = mtime as int % 86400;
        (second_of_day / 3600 * 2048 + second_of_day % 3600 / 60 * 32 + second_of_day % 60 / 2) as u16
    }
}

/// Within the years that zip can express the calendar stays in range.
pub proof fn lemma_civil_in_range(days: int)
    requires
        3652 <= days < 50403,
    ensures
        1980 <= civil_from_days(days).year <= 2107,
        1 <= civil_from_days(days).month <= 12,
        1 <= civil_from_days(days).day <= 31,
{
    let shifted = days + 719468;
    let era = shifted / 146097;
    let day_of_era = shifted % 146097;
    let year_of_era = (day_of_era - day_of_era / 1460 + day_of_era / 36524 - day_of_era / 146096)
        / 365;
    let day_of_year = day_of_era - (365 * year_of_era + year_of_era / 4 - year_of_era / 100);
    let shifted_month = (5 * day_of_year + 2) / 153;
    assert(era == 4 || era == 5);
    assert(0 <= year_of_era <= 399);
    assert(0 <= day_of_year <= 365);
    assert(0 <= shifted_month <= 11);
}

/// The zip date and time of `mtime`.
pub fn dos_date_time(mtime: u64) -> (stamp: (u16, u16))
    ensures
        stamp.0 == dos_date(mtime),
        stamp.1 == dos_time(mtime),
{
    if mtime < DOS_EPOCH {
        return (33, 0);
    }
    if mtime >= DOS_END {
        return (65439, 49021);
    }
    let days: u64 = mtime / 86400;
    let second_of_day: u64 = mtime % 86400;
    proof {
        lemma_civil_in_range(days as int);
    }
    let shifted: u64 = days + 719468;
    let era: u64 = shifted / 146097;
    let day_of_era: u64 = shifted % 146097;
    let year_of_era: u64 = (day_of_era - day_of_era / 1460 + day_of_era / 36524 - day_of_era
        / 146096) / 365;
    assert(0 <= year_of_era <= 399);
    let day_of_year: u64 = day_of_era - (365 * year_of_era + year_of_era / 4 - year_of_era / 100);
    assert(0 <= day_of_year <= 365);
    let shifted_month: u64 = (5 * day_of_year + 2) / 153;
    let day: u64 = day_of_year - (153 * shifted_month + 2) / 5 + 1;
    let month: u64 = if shifted_month < 10 {
        shifted_month + 3
    } else {
        shifted_month - 9
    };
    let year: u64 = year_of_era + era * 400 + if month <= 2 {
        1
    } else {
        0
    };
    let date: u64 = (year - 1980) * 512 + month * 32 + day;
    let time: u64 = second_of_day / 3600 * 2048 + second_of_day % 3600 / 60 * 32 + second_of_day % 60
        / 2;
    (date as u16, time as u16)
}

} // verus!
