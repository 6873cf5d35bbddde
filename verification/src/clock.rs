//! Wall-clock times of day and calendar dates.
//!
//! The files carry no offsets: a time is a bare `HH:MM` and a date a bare
//! `YYYY-MM-DD`. These two types are exactly that, and chrono is what decides
//! which of them exist.

use vstd::prelude::*;

use chrono::Datelike;

verus! {

pub const SECONDS_PER_DAY: u32 = 86400;

/// The earliest and latest years a calendar date may carry.
pub const MIN_YEAR: i32 = -262143;

pub const MAX_YEAR: i32 = 262142;

/// A time of day, to the second, counted from midnight.
#[derive(Debug, Clone, Copy, PartialEq, Eq, PartialOrd, Ord, Hash, Structural)]
pub struct TimeOfDay {
    seconds: u32,
}

impl View for TimeOfDay {
    type V = nat;

    /// Seconds since midnight; always below a day.
    closed spec fn view(&self) -> nat {
        if self.seconds < SECONDS_PER_DAY {
            self.seconds as nat
        } else {
            0
        }
    }
}

impl TimeOfDay {
    #[verifier::type_invariant]
    spec fn valid(self) -> bool {
        self.seconds < SECONDS_PER_DAY
    }

    /// A time of day always falls before the next midnight.
    pub proof fn lemma_bounded(&self)
        ensures
            self@ < SECONDS_PER_DAY,
    {
    }

    pub open spec fn hour_of(self) -> nat {
        self@ / 3600
    }

    pub open spec fn minute_of(self) -> nat {
        (self@ % 3600) / 60
    }

    /// The time at this hour, minute and second, if it is one.
    pub fn from_hms(hour: u32, minute: u32, second: u32) -> (time: Option<Self>)
        ensures
            time is Some <==> hour < 24 && minute < 60 && second < 60,
            time matches Some(t) ==> t@ == hour * 3600 + minute * 60 + second,
    {
        match seconds_of(hour, minute, second) {
            Some(seconds) => Some(TimeOfDay { seconds }),
            None => None,
        }
    }

    /// Midnight.
    pub fn midnight() -> (time: Self)
        ensures
            time@ == 0,
    {
        TimeOfDay { seconds: 0 }
    }

    /// The time this many seconds past midnight.
    pub fn from_seconds(seconds: u32) -> (time: Self)
        requires
            seconds < SECONDS_PER_DAY,
        ensures
            time@ == seconds,
    {
        TimeOfDay { seconds }
    }

    pub fn seconds_from_midnight(self) -> (seconds: u32)
        ensures
            seconds == self@,
            seconds < SECONDS_PER_DAY,
    {
        proof {
            use_type_invariant(&self);
        }
        self.seconds
    }

    pub fn hour(self) -> (hour: u32)
        ensures
            hour == self.hour_of(),
            hour < 24,
    {
        proof {
            use_type_invariant(&self);
        }
        self.seconds / 3600
    }

    pub fn minute(self) -> (minute: u32)
        ensures
            minute == self.minute_of(),
            minute < 60,
    {
        proof {
            use_type_invariant(&self);
        }
        (self.seconds % 3600) / 60
    }

    /// Strictly earlier in the day.
    pub fn is_before(self, other: Self) -> (before: bool)
        ensures
            before == (self@ < other@),
    {
        proof {
            use_type_invariant(&self);
            use_type_invariant(&other);
        }
        self.seconds < other.seconds
    }

    /// Same second of the day.
    pub fn same(self, other: Self) -> (equal: bool)
        ensures
            equal == (self@ == other@),
    {
        proof {
            use_type_invariant(&self);
            use_type_invariant(&other);
        }
        self.seconds == other.seconds
    }
}

/// The seconds past midnight of an hour, minute and second, where all three
/// are in range.
fn seconds_of(hour: u32, minute: u32, second: u32) -> (past_midnight: Option<u32>)
    ensures
        past_midnight == (if hour < 24 && minute < 60 && second < 60 {
            Some((hour * 3600 + minute * 60 + second) as u32)
        } else {
            None
        }),
{
    if hour < 24 && minute < 60 && second < 60 {
        Some(hour * 3600 + minute * 60 + second)
    } else {
        None
    }
}

pub open spec fn is_leap(year: int) -> bool {
    (year % 4 == 0 && year % 100 != 0) || year % 400 == 0
}

pub open spec fn days_in_month(year: int, month: int) -> int {
    if month == 2 {
        if is_leap(year) {
            29
        } else {
            28
        }
    } else if month == 4 || month == 6 || month == 9 || month == 11 {
        30
    } else {
        31
    }
}

/// A day of the proleptic Gregorian calendar within chrono's range.
pub open spec fn is_calendar_date(year: int, month: int, day: int) -> bool {
    &&& MIN_YEAR <= year <= MAX_YEAR
    &&& 1 <= month <= 12
    &&& 1 <= day <= days_in_month(year, month)
}

/// Days from 1970-01-01 to a date of the proleptic Gregorian calendar,
/// negative before it: years counted from March, in 400-year eras of
/// 146097 days.
#[verifier::opaque]
pub open spec fn days_from_civil(year: int, month: int, day: int) -> int {
    let y = if month <= 2 {
        year - 1
    } else {
        year
    };
    let era = y / 400;
    let yoe = y - era * 400;
    let mp = (month + 9) % 12;
    let doy = (153 * mp + 2) / 5 + day - 1;
    let doe = yoe * 365 + yoe / 4 - yoe / 100 + doy;
    era * 146097 + doe - 719468
}

/// Day of the week of a calendar date, Monday as 0: 1970-01-01 was a
/// Thursday.
pub open spec fn weekday_index(year: int, month: int, day: int) -> nat {
    ((days_from_civil(year, month, day) + 3) % 7) as nat
}

/// A day of the week.
#[derive(Debug, Clone, Copy, PartialEq, Eq, Hash, Structural)]
pub enum Weekday {
    Mon,
    Tue,
    Wed,
    Thu,
    Fri,
    Sat,
    Sun,
}

impl Weekday {
    /// Days after Monday.
    pub open spec fn index_of(self) -> nat {
        match self {
            Weekday::Mon => 0,
            Weekday::Tue => 1,
            Weekday::Wed => 2,
            Weekday::Thu => 3,
            Weekday::Fri => 4,
            Weekday::Sat => 5,
            Weekday::Sun => 6,
        }
    }

    pub fn num_days_from_monday(self) -> (index: u32)
        ensures
            index == self.index_of(),
            index < 7,
    {
        match self {
            Weekday::Mon => 0,
            Weekday::Tue => 1,
            Weekday::Wed => 2,
            Weekday::Thu => 3,
            Weekday::Fri => 4,
            Weekday::Sat => 5,
            Weekday::Sun => 6,
        }
    }

    /// The weekday this many days after Monday.
    pub fn from_index(index: u32) -> (day: Self)
        requires
            index < 7,
        ensures
            day.index_of() == index,
    {
        if index == 0 {
            Weekday::Mon
        } else if index == 1 {
            Weekday::Tue
        } else if index == 2 {
            Weekday::Wed
        } else if index == 3 {
            Weekday::Thu
        } else if index == 4 {
            Weekday::Fri
        } else if index == 5 {
            Weekday::Sat
        } else {
            Weekday::Sun
        }
    }
}

/// A calendar date.
#[derive(Debug, Clone, Copy, PartialEq, Eq, PartialOrd, Ord, Hash, Structural)]
pub struct CalendarDate {
    year: i32,
    month: u32,
    day: u32,
}

impl View for CalendarDate {
    type V = (int, int, int);

    /// Year, month and day; always a real date.
    closed spec fn view(&self) -> (int, int, int) {
        if is_calendar_date(self.year as int, self.month as int, self.day as int) {
            (self.year as int, self.month as int, self.day as int)
        } else {
            (1970, 1, 1)
        }
    }
}

/// `a` falls strictly before `b`.
pub open spec fn date_before(a: (int, int, int), b: (int, int, int)) -> bool {
    a.0 < b.0 || (a.0 == b.0 && (a.1 < b.1 || (a.1 == b.1 && a.2 < b.2)))
}

/// The day after `d`, or `None` past the last representable day.
pub open spec fn next_day(d: (int, int, int)) -> Option<(int, int, int)> {
    if d.2 < days_in_month(d.0, d.1) {
        Some((d.0, d.1, d.2 + 1))
    } else if d.1 < 12 {
        Some((d.0, d.1 + 1, 1))
    } else if d.0 < MAX_YEAR {
        Some((d.0 + 1, 1, 1))
    } else {
        None
    }
}

/// Where the March-based year `y` starts, in days of its 400-year cycle
/// count.
spec fn year_start(y: int) -> int {
    let era = y / 400;
    let yoe = y - era * 400;
    era * 146097 + yoe * 365 + yoe / 4 - yoe / 100
}

/// A March-based year lasts 366 days when the February closing it falls in a
/// leap year, else 365.
proof fn lemma_year_length(y: int)
    ensures
        year_start(y + 1) - year_start(y) == if is_leap(y + 1) {
            366int
        } else {
            365int
        },
{
    let q = y / 400;
    let r = y % 400;
    lemma_cycle(y, q, r);
    if r == 399 {
        lemma_cycle(y + 1, q + 1, 0);
        assert(year_start(y) == q * 146097 + 399 * 365 + 99 - 3);
        assert(year_start(y + 1) == (q + 1) * 146097);
    } else {
        lemma_cycle(y + 1, q, r + 1);
        lemma_step_quarter(r);
    }
}

/// A year's place in its 400-year cycle decides where it starts and whether
/// it is leap.
proof fn lemma_cycle(y: int, q: int, r: int)
    requires
        y == 400 * q + r,
        0 <= r < 400,
    ensures
        y / 400 == q,
        year_start(y) == q * 146097 + r * 365 + r / 4 - r / 100,
        is_leap(y) == ((r % 4 == 0 && r % 100 != 0) || r == 0),
{
    vstd::arithmetic::div_mod::lemma_fundamental_div_mod_converse(y, 400, q, r);
    assert(y % 4 == r % 4) by {
        vstd::arithmetic::div_mod::lemma_mod_multiples_vanish(100 * q, r, 4);
        assert(400 * q == 4 * (100 * q)) by (nonlinear_arith);
    }
    assert(y % 100 == r % 100) by {
        vstd::arithmetic::div_mod::lemma_mod_multiples_vanish(4 * q, r, 100);
        assert(400 * q == 100 * (4 * q)) by (nonlinear_arith);
    }
    assert(y % 400 == r);
}

/// Stepping within a cycle adds a leap day exactly on leap years.
proof fn lemma_step_quarter(r: int)
    requires
        0 <= r < 399,
    ensures
        (r + 1) / 4 - r / 4 - ((r + 1) / 100 - r / 100) == if ((r + 1) % 4 == 0 && (r + 1) % 100 != 0) {
            1int
        } else {
            0int
        },
{
}

/// Days from 1970-01-01, through the year start and the day of the
/// March-based year.
proof fn lemma_days_split(year: int, month: int, day: int)
    ensures
        days_from_civil(year, month, day) == year_start(if month <= 2 {
            year - 1
        } else {
            year
        }) + (153 * ((month + 9) % 12) + 2) / 5 + day - 1 - 719468,
{
    reveal(days_from_civil);
}

/// The day after a date is one day further on, and falls on the next
/// weekday.
pub proof fn law_next_day_is_one_day_on(d: (int, int, int))
    requires
        is_calendar_date(d.0, d.1, d.2),
        next_day(d) is Some,
    ensures
        day_gap(d, next_day(d)->0) == 1,
        weekday_index((next_day(d)->0).0, (next_day(d)->0).1, (next_day(d)->0).2) == (weekday_index(d.0, d.1, d.2) + 1)
            % 7,
{
    let n = next_day(d)->0;
    lemma_days_split(d.0, d.1, d.2);
    lemma_days_split(n.0, n.1, n.2);
    if d.2 < days_in_month(d.0, d.1) {
    } else if d.1 == 2 {
        lemma_year_length(d.0 - 1);
        assert(n == (d.0, 3int, 1int));
    } else if d.1 < 12 {
        assert(n == (d.0, d.1 + 1, 1int));
        assert(1 <= d.1 <= 11);
        if d.1 == 1 {} else if d.1 == 3 {} else if d.1 == 4 {} else if d.1 == 5 {} else if d.1 == 6 {} else if d.1 == 7 {}
        else if d.1 == 8 {} else if d.1 == 9 {} else if d.1 == 10 {} else {}
    } else {
        assert(n == (d.0 + 1, 1int, 1int));
    }
    let x = days_from_civil(d.0, d.1, d.2);
    assert(days_from_civil(n.0, n.1, n.2) == x + 1);
    assert((x + 1 + 3) % 7 == ((x + 3) % 7 + 1) % 7) by {
        vstd::arithmetic::div_mod::lemma_add_mod_noop(x + 3, 1, 7);
    }
}

impl CalendarDate {
    #[verifier::type_invariant]
    spec fn valid(self) -> bool {
        is_calendar_date(self.year as int, self.month as int, self.day as int)
    }

    pub proof fn lemma_valid(&self)
        ensures
            is_calendar_date(self@.0, self@.1, self@.2),
    {
    }

    /// The date with this year, month and day, if there is one.
    pub fn from_ymd(year: i32, month: u32, day: u32) -> (date: Option<Self>)
        ensures
            date is Some <==> is_calendar_date(year as int, month as int, day as int),
            date matches Some(d) ==> d@ == (year as int, month as int, day as int),
    {
        if date_exists(year, month, day) {
            Some(CalendarDate { year, month, day })
        } else {
            None
        }
    }

    pub fn year(self) -> (year: i32)
        ensures
            year == self@.0,
    {
        proof {
            use_type_invariant(&self);
        }
        self.year
    }

    pub fn month(self) -> (month: u32)
        ensures
            month == self@.1,
            1 <= month <= 12,
    {
        proof {
            use_type_invariant(&self);
        }
        self.month
    }

    pub fn day(self) -> (day: u32)
        ensures
            day == self@.2,
            1 <= day <= 31,
    {
        proof {
            use_type_invariant(&self);
        }
        self.day
    }

    /// Day of the week, Monday as 0.
    pub fn weekday(self) -> (index: u32)
        ensures
            index < 7,
            index == weekday_index(self@.0, self@.1, self@.2),
    {
        proof {
            use_type_invariant(&self);
        }
        chrono_weekday(self.year, self.month, self.day)
    }

    /// Strictly earlier.
    pub fn is_before(self, other: Self) -> (before: bool)
        ensures
            before == date_before(self@, other@),
    {
        proof {
            use_type_invariant(&self);
            use_type_invariant(&other);
        }
        self.year < other.year || (self.year == other.year && (self.month < other.month || (
        self.month == other.month && self.day < other.day)))
    }

    pub fn same(self, other: Self) -> (equal: bool)
        ensures
            equal == (self@ == other@),
    {
        proof {
            use_type_invariant(&self);
            use_type_invariant(&other);
        }
        self.year == other.year && self.month == other.month && self.day == other.day
    }

    /// The following day, or `None` after the last representable one.
    pub fn succ(self) -> (next: Option<Self>)
        ensures
            match next {
                Some(n) => next_day(self@) == Some(n@),
                None => next_day(self@) is None,
            },
    {
        proof {
            use_type_invariant(&self);
        }
        let last = days_in(self.year, self.month);
        if self.day < last {
            Some(CalendarDate { year: self.year, month: self.month, day: self.day + 1 })
        } else if self.month < 12 {
            Some(CalendarDate { year: self.year, month: self.month + 1, day: 1 })
        } else if self.year < MAX_YEAR {
            Some(CalendarDate { year: self.year + 1, month: 1, day: 1 })
        } else {
            None
        }
    }
}

/// The number of days in a month.
pub fn days_in(year: i32, month: u32) -> (days: u32)
    ensures
        days == days_in_month(year as int, month as int),
{
    if month == 2 {
        if (year % 4 == 0 && year % 100 != 0) || year % 400 == 0 {
            29
        } else {
            28
        }
    } else if month == 4 || month == 6 || month == 9 || month == 11 {
        30
    } else {
        31
    }
}

/// Whether a year, month and day name a day of the proleptic Gregorian
/// calendar within the years the library holds.
fn date_exists(year: i32, month: u32, day: u32) -> (exists: bool)
    ensures
        exists == is_calendar_date(year as int, month as int, day as int),
{
    if year < MIN_YEAR || year > MAX_YEAR || month < 1 || month > 12 || day < 1 {
        return false;
    }
    let shifted: i64 = year as i64 + 400000;
    proof {
        let y = year as int;
        assert(shifted == y + 400 * 1000);
        assert((y + 400 * 1000) % 4 == y % 4) by (nonlinear_arith);
        assert((y + 400 * 1000) % 100 == y % 100) by (nonlinear_arith);
        assert((y + 400 * 1000) % 400 == y % 400) by (nonlinear_arith);
    }
    let leap = (shifted % 4 == 0 && shifted % 100 != 0) || shifted % 400 == 0;
    let length: u32 = if month == 2 {
        if leap {
            29
        } else {
            28
        }
    } else if month == 4 || month == 6 || month == 9 || month == 11 {
        30
    } else {
        31
    };
    day <= length
}

/// The day of the week chrono gives a date, Monday as 0.
///
/// Claims that `Datelike::weekday` followed by `Weekday::num_days_from_monday`
/// gives the weekday the proleptic Gregorian calendar, which chrono keeps,
/// assigns the date: `weekday_index`.
#[verifier::external_body]
fn chrono_weekday(year: i32, month: u32, day: u32) -> (index: u32)
    requires
        is_calendar_date(year as int, month as int, day as int),
    ensures
        index < 7,
        index == weekday_index(year as int, month as int, day as int),
{
    match chrono::NaiveDate::from_ymd_opt(year, month, day) {
        Some(date) => date.weekday().num_days_from_monday(),
        None => 0,
    }
}

} // verus!

verus! {

/// The date `n` days after `d`, if it is representable.
pub open spec fn advance(d: (int, int, int), n: nat) -> Option<(int, int, int)>
    decreases n,
{
    if n == 0 {
        Some(d)
    } else {
        match next_day(d) {
            Some(next) => advance(next, (n - 1) as nat),
            None => None,
        }
    }
}

/// A wall-clock instant: a date and a time of day, with no offset.
pub type MomentView = ((int, int, int), nat);

/// `a` falls strictly before `b`.
pub open spec fn moment_before(a: MomentView, b: MomentView) -> bool {
    date_before(a.0, b.0) || (a.0 == b.0 && a.1 < b.1)
}

/// The instant `minutes` after `m`, if it is representable.
pub open spec fn moment_plus(m: MomentView, minutes: nat) -> Option<MomentView> {
    let total = m.1 + minutes * 60;
    match advance(m.0, total / 86400) {
        Some(d) => Some((d, total % 86400)),
        None => None,
    }
}

/// Days from `a` to `b` in the proleptic Gregorian calendar.
pub open spec fn day_gap(a: (int, int, int), b: (int, int, int)) -> int {
    days_from_civil(b.0, b.1, b.2) - days_from_civil(a.0, a.1, a.2)
}

/// Seconds from `a` to `b`.
pub open spec fn seconds_between(a: MomentView, b: MomentView) -> int {
    day_gap(a.0, b.0) * 86400 + b.1 - a.1
}

/// Asks chrono how many days lie from `from` to `to`
/// (`NaiveDate::signed_duration_since`, then `TimeDelta::num_days`).
///
/// Claims that the answer is the count of days between the two calendar
/// dates, `day_gap`, which `signed_duration_since` gives in whole days for
/// dates without a time.
#[verifier::external_body]
fn chrono_day_gap(from: CalendarDate, to: CalendarDate) -> (gap: i64)
    ensures
        gap == day_gap(from@, to@),
        from@ == to@ ==> gap == 0,
{
    let a = chrono::NaiveDate::from_ymd_opt(from.year, from.month, from.day);
    let b = chrono::NaiveDate::from_ymd_opt(to.year, to.month, to.day);
    match (a, b) {
        (Some(a), Some(b)) => b.signed_duration_since(a).num_days(),
        _ => 0,
    }
}

/// A date and a time of day, with no offset: what the files store.
#[derive(Debug, Clone, Copy, PartialEq, Eq)]
pub struct Moment {
    pub date: CalendarDate,
    pub time: TimeOfDay,
}

impl View for Moment {
    type V = MomentView;

    open spec fn view(&self) -> MomentView {
        (self.date@, self.time@)
    }
}

impl Moment {
    pub fn new(date: CalendarDate, time: TimeOfDay) -> (m: Self)
        ensures
            m@ == (date@, time@),
    {
        Moment { date, time }
    }

    pub fn is_before(self, other: Self) -> (before: bool)
        ensures
            before == moment_before(self@, other@),
    {
        self.date.is_before(other.date) || (self.date.same(other.date) && self.time.is_before(other.time))
    }

    /// The instant `minutes` later, or `None` past the last representable
    /// day.
    pub fn plus_minutes(self, minutes: u32) -> (later: Option<Self>)
        ensures
            match later {
                Some(m) => moment_plus(self@, minutes as nat) == Some(m@),
                None => moment_plus(self@, minutes as nat) is None,
            },
    {
        let total: u64 = self.time.seconds_from_midnight() as u64 + minutes as u64 * 60;
        let days: u64 = total / 86400;
        let rest: u64 = total % 86400;
        let mut date = self.date;
        let mut k: u64 = 0;
        assert(self@.1 + minutes as nat * 60 == total);
        while k < days
            invariant
                k <= days,
                days as nat == (self@.1 + minutes as nat * 60) / 86400,
                advance(self@.0, days as nat) == advance(date@, (days - k) as nat),
            decreases days - k,
        {
            match date.succ() {
                Some(next) => {
                    date = next;
                },
                None => {
                    assert(advance(date@, (days - k) as nat) is None);
                    assert(advance(self@.0, days as nat) is None);
                    assert((self@.1 + minutes as nat * 60) / 86400 == days as nat);
                    assert(moment_plus(self@, minutes as nat) is None);
                    return None;
                },
            }
            k = k + 1;
        }
        let time = TimeOfDay::from_seconds(rest as u32);
        Some(Moment { date, time })
    }

    /// Seconds from `earlier` to `self`, negative when `earlier` is later.
    pub fn seconds_since(self, earlier: Self) -> (seconds: i128)
        ensures
            seconds == seconds_between(earlier@, self@),
    {
        let gap = chrono_day_gap(earlier.date, self.date);
        gap as i128 * 86400 + self.time.seconds_from_midnight() as i128 - earlier.time.seconds_from_midnight() as i128
    }
}

/// The day before `d`, or `None` before the first representable day.
pub open spec fn previous_day(d: (int, int, int)) -> Option<(int, int, int)> {
    if d.2 > 1 {
        Some((d.0, d.1, d.2 - 1))
    } else if d.1 > 1 {
        Some((d.0, d.1 - 1, days_in_month(d.0, d.1 - 1)))
    } else if d.0 > MIN_YEAR {
        Some((d.0 - 1, 12, 31))
    } else {
        None
    }
}

impl CalendarDate {
    /// The day before, or `None` before the first representable day.
    pub fn pred(self) -> (previous: Option<Self>)
        ensures
            match previous {
                Some(p) => previous_day(self@) == Some(p@),
                None => previous_day(self@) is None,
            },
    {
        proof {
            use_type_invariant(&self);
        }
        if self.day > 1 {
            Some(CalendarDate { year: self.year, month: self.month, day: self.day - 1 })
        } else if self.month > 1 {
            Some(CalendarDate { year: self.year, month: self.month - 1, day: days_in(self.year, self.month - 1) })
        } else if self.year > MIN_YEAR {
            Some(CalendarDate { year: self.year - 1, month: 12, day: 31 })
        } else {
            None
        }
    }
}

} // verus!
