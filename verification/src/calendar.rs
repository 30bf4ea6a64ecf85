//! Calendar days as day numbers, the lookback window, and the week grid that
//! a window is laid out on.

use vstd::prelude::*;
use vstd::string::StringExecFns;

verus! {

/// Day number of the first day that a `Date` can hold: 1 January of the year
/// -262143.
pub const MIN_DAY: i32 = -95_746_129;

/// Day number of the last day that a `Date` can hold: 31 December of the year
/// 262142.
pub const MAX_DAY: i32 = 95_745_399;

/// Day number of 1 January 1970, the day of the epoch from which timestamps
/// count.
pub const EPOCH_DAY: i32 = 719_163;

/// Whether `n` is the day number of a day that a `Date` can hold.
pub open spec fn is_day_number(n: int) -> bool {
    MIN_DAY <= n <= MAX_DAY
}

/// A day of the proleptic Gregorian calendar, held as its day number:
/// 1 January of the year 1 is day 1, and each following day counts one more.
#[derive(Clone, Copy, Debug, PartialEq, Eq, Structural)]
pub struct Date {
    days: i32,
}

impl View for Date {
    type V = int;

    closed spec fn view(&self) -> int {
        self.days as int
    }
}

/// The month of the day with day number `n`, from 1 for January to 12 for
/// December, as chrono's calendar has it.
pub uninterp spec fn month_of_day(n: int) -> int;

/// The day with day number `n` written as year, month and day, as chrono
/// displays a date.
pub uninterp spec fn iso_text_of_day(n: int) -> Seq<char>;

/// The English three-letter name of month `m`.
pub open spec fn month_abbreviation(m: int) -> Seq<char> {
    if m == 1 {
        "Jan"@
    } else if m == 2 {
        "Feb"@
    } else if m == 3 {
        "Mar"@
    } else if m == 4 {
        "Apr"@
    } else if m == 5 {
        "May"@
    } else if m == 6 {
        "Jun"@
    } else if m == 7 {
        "Jul"@
    } else if m == 8 {
        "Aug"@
    } else if m == 9 {
        "Sep"@
    } else if m == 10 {
        "Oct"@
    } else if m == 11 {
        "Nov"@
    } else {
        "Dec"@
    }
}

/// chrono's `Datelike::month` of the `NaiveDate` that
/// `NaiveDate::from_num_days_from_ce_opt` gives for `days`. Trusted: the
/// result is the month that chrono's calendar assigns to that day, a number
/// from 1 to 12. Every day number from `MIN_DAY` to `MAX_DAY` has a
/// `NaiveDate`.
#[verifier::external_body]
fn chrono_month(days: i32) -> (m: u32)
    requires
        is_day_number(days as int),
    ensures
        m == month_of_day(days as int),
        1 <= m <= 12,
{
    chrono::Datelike::month(&chrono::NaiveDate::from_num_days_from_ce_opt(days).unwrap())
}

/// chrono's `Display` for the `NaiveDate` of `days`. Trusted: the text
/// depends on the day alone.
#[verifier::external_body]
fn chrono_iso_text(days: i32) -> (s: String)
    requires
        is_day_number(days as int),
    ensures
        s@ == iso_text_of_day(days as int),
{
    chrono::NaiveDate::from_num_days_from_ce_opt(days).unwrap().to_string()
}

/// chrono's `Local::now`, as the day number of its local calendar date.
/// Trusted: the call does not return where the clock stands before the
/// epoch, and the offset of a time zone is less than a day, so a day that
/// comes back is no earlier than the day before the epoch's; and it is a
/// day that a `Date` can hold. Which day it is depends on the clock and the
/// time zone of the machine.
#[verifier::external_body]
fn chrono_today() -> (n: i32)
    ensures
        EPOCH_DAY - 1 <= n <= MAX_DAY,
{
    chrono::Datelike::num_days_from_ce(&chrono::Local::now().date_naive())
}

/// Day number of the calendar day on which the instant `seconds` after the
/// epoch falls in UTC: a day has 86400 seconds.
pub open spec fn utc_day_of(seconds: int) -> int {
    seconds / 86_400 + EPOCH_DAY
}

/// Whether the instant `seconds` after the epoch has a calendar day in every
/// time zone: a time zone is less than a day away from UTC, so the local day
/// is the UTC day or one next to it, and both of those must be days that a
/// `Date` can hold.
pub open spec fn has_local_day(seconds: int) -> bool {
    is_day_number(utc_day_of(seconds) - 1) && is_day_number(utc_day_of(seconds) + 1)
}

/// chrono's `DateTime::from_timestamp` for `seconds` after the epoch, moved
/// to the machine's time zone with `DateTime::with_timezone`, as the day
/// number of its calendar date. Trusted: chrono has an instant for every
/// second of a day that has a `NaiveDate`; the offset of a time zone is less
/// than 86400 seconds either way, so the local day is the UTC day, the day
/// before it or the day after it. Which of the three it is depends on the
/// time zone of the machine.
#[verifier::external_body]
fn chrono_local_day(seconds: i64) -> (n: i32)
    requires
        has_local_day(seconds as int),
    ensures
        utc_day_of(seconds as int) - 1 <= n <= utc_day_of(seconds as int) + 1,
{
    chrono::Datelike::num_days_from_ce(
        &chrono::DateTime::from_timestamp(seconds, 0).unwrap().with_timezone(
            &chrono::Local,
        ).date_naive(),
    )
}

/// Index of the weekday of day `n`, from 0 for Sunday to 6 for Saturday.
pub open spec fn weekday_index(n: int) -> int {
    n % 7
}

impl Date {
    #[verifier::type_invariant]
    spec fn in_range(self) -> bool {
        is_day_number(self.days as int)
    }

    /// The day with day number `n`, if there is one.
    pub fn from_days_from_ce(n: i32) -> (r: Option<Date>)
        ensures
            r is Some <==> is_day_number(n as int),
            r matches Some(d) ==> d@ == n,
    {
        if MIN_DAY <= n && n <= MAX_DAY {
            Some(Date { days: n })
        } else {
            None
        }
    }

    /// The day number of this day.
    pub fn days_from_ce(&self) -> (n: i32)
        ensures
            n == self@,
            is_day_number(n as int),
    {
        proof {
            use_type_invariant(self);
        }
        self.days
    }

    /// The weekday of this day, from 0 for Sunday to 6 for Saturday.
    pub fn weekday_from_sunday(&self) -> (w: u8)
        ensures
            w == weekday_index(self@),
            w < 7,
    {
        proof {
            use_type_invariant(self);
        }
        // Day 1 is a Monday; shifting by a multiple of 7 keeps the remainder
        // and makes the dividend positive.
        let shifted: i32 = self.days + 95_746_133;
        (shifted % 7) as u8
    }

    /// The day `n` days after this one (before it, for a negative `n`), if
    /// there is such a day.
    pub fn plus_days(&self, n: i64) -> (r: Option<Date>)
        ensures
            r is Some <==> is_day_number(self@ + n),
            r matches Some(d) ==> d@ == self@ + n,
    {
        proof {
            use_type_invariant(self);
        }
        if n < -200_000_000 || n > 200_000_000 {
            return None;
        }
        let target: i64 = self.days as i64 + n;
        if MIN_DAY as i64 <= target && target <= MAX_DAY as i64 {
            Some(Date { days: target as i32 })
        } else {
            None
        }
    }

    /// The number of days from `earlier` to this day; negative if this day
    /// is the earlier one.
    pub fn days_since(&self, earlier: &Date) -> (n: i64)
        ensures
            n == self@ - earlier@,
    {
        proof {
            use_type_invariant(self);
            use_type_invariant(earlier);
        }
        self.days as i64 - earlier.days as i64
    }

    /// The month of this day, from 1 for January to 12 for December.
    pub fn month(&self) -> (m: u32)
        ensures
            m == month_of_day(self@),
            1 <= m <= 12,
    {
        proof {
            use_type_invariant(self);
        }
        chrono_month(self.days)
    }

    /// The English three-letter name of this day's month.
    pub fn month_name(&self) -> (s: String)
        ensures
            s@ == month_abbreviation(month_of_day(self@)),
    {
        let month = self.month();
        let name = if month == 1 {
            "Jan"
        } else if month == 2 {
            "Feb"
        } else if month == 3 {
            "Mar"
        } else if month == 4 {
            "Apr"
        } else if month == 5 {
            "May"
        } else if month == 6 {
            "Jun"
        } else if month == 7 {
            "Jul"
        } else if month == 8 {
            "Aug"
        } else if month == 9 {
            "Sep"
        } else if month == 10 {
            "Oct"
        } else if month == 11 {
            "Nov"
        } else {
            "Dec"
        };
        String::from_str(name)
    }

    /// This day written as year, month and day.
    pub fn iso_text(&self) -> (s: String)
        ensures
            s@ == iso_text_of_day(self@),
    {
        proof {
            use_type_invariant(self);
        }
        chrono_iso_text(self.days)
    }

    /// The calendar day that the machine's clock shows in its own time zone.
    /// Which day that is depends on the clock; it is no earlier than the day
    /// before the epoch's, for no clock stands before the epoch and no time
    /// zone is a day or more away from UTC.
    pub fn today() -> (d: Date)
        ensures
            EPOCH_DAY - 1 <= d@ <= MAX_DAY,
    {
        let n = chrono_today();
        Date { days: n }
    }

    /// The calendar day, in the machine's time zone, of the instant `seconds`
    /// after the epoch: the day on which the instant falls in UTC, or the
    /// day before or after it. `None` for an instant so far from the epoch
    /// that not each of those three is a day that a `Date` can hold.
    pub fn of_timestamp(seconds: i64) -> (r: Option<Date>)
        ensures
            r is Some <==> has_local_day(seconds as int),
            r matches Some(d) ==> utc_day_of(seconds as int) - 1 <= d@ <= utc_day_of(
                seconds as int,
            ) + 1,
    {
        // The first second of the second day that a `Date` can hold, and the
        // last second of the last day but one.
        let first: i64 = -96_465_291 * 86_400;
        let last: i64 = 95_026_235 * 86_400 + 86_399;
        if seconds < first || seconds > last {
            return None;
        }
        let n = chrono_local_day(seconds);
        Some(Date { days: n })
    }

    /// Whether this day comes strictly before `other`.
    pub fn is_before(&self, other: &Date) -> (b: bool)
        ensures
            b == (self@ < other@),
    {
        self.days < other.days
    }
}

/// The days over which activity is counted: from `lookback` days before
/// today up to today, both included.
#[derive(Clone, Copy, Debug)]
pub struct TimeWindow {
    start: Date,
    today: Date,
}

impl TimeWindow {
    #[verifier::type_invariant]
    spec fn ordered(self) -> bool {
        self.start@ <= self.today@
    }

    /// Day number of the first day of the window.
    pub closed spec fn first_day(&self) -> int {
        self.start@
    }

    /// Day number of the last day of the window.
    pub closed spec fn last_day(&self) -> int {
        self.today@
    }

    /// The number of days that the window looks back from its last day.
    pub open spec fn lookback(&self) -> int {
        self.last_day() - self.first_day()
    }

    /// The window that ends on `today` and looks back `lookback_days` days,
    /// unless that number is negative or the window would start before the
    /// first day that has a `Date`.
    pub fn ending(today: Date, lookback_days: i64) -> (w: Option<TimeWindow>)
        ensures
            w is Some <==> 0 <= lookback_days && is_day_number(today@ - lookback_days),
            w matches Some(x) ==> x.last_day() == today@ && x.first_day() == today@
                - lookback_days,
    {
        if lookback_days < 0 || lookback_days > 200_000_000 {
            proof {
                use_type_invariant(today);
            }
            return None;
        }
        match today.plus_days(-lookback_days) {
            Some(start) => Some(TimeWindow { start, today }),
            None => None,
        }
    }

    /// The window that ends on the day that the machine's clock shows and
    /// looks back `lookback_days` days. There is such a window for every
    /// lookback that reaches no further than from the day before the
    /// epoch's to the first day that has a `Date`; for a longer one it
    /// depends on the clock's day, and for a negative one there is none.
    pub fn ending_today(lookback_days: i64) -> (w: Option<TimeWindow>)
        ensures
            lookback_days < 0 ==> w is None,
            0 <= lookback_days <= EPOCH_DAY - 1 - MIN_DAY ==> w is Some,
            w matches Some(x) ==> x.lookback() == lookback_days && EPOCH_DAY - 1 <= x.last_day()
                <= MAX_DAY && is_day_number(x.first_day()),
    {
        let today = Date::today();
        proof {
            use_type_invariant(today);
        }
        TimeWindow::ending(today, lookback_days)
    }

    /// The first day of the window.
    pub fn start(&self) -> (d: Date)
        ensures
            d@ == self.first_day(),
    {
        self.start
    }

    /// The last day of the window.
    pub fn today(&self) -> (d: Date)
        ensures
            d@ == self.last_day(),
    {
        self.today
    }

    /// The number of days that the window looks back from its last day.
    pub fn lookback_days(&self) -> (n: i64)
        ensures
            n == self.lookback(),
            n >= 0,
    {
        proof {
            use_type_invariant(self);
        }
        self.today.days_since(&self.start)
    }
}

} // verus!
