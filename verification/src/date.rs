//! Calendar dates, their day numbers and their texts.

use vstd::prelude::*;
use vstd::string::*;

use crate::cache::ttl::instant;
use crate::text::{
    decimal, digits_value, is_digit, lemma_decimal_value, lemma_digits_value_padded, pad_left,
};

verus! {

/// A day of the proleptic Gregorian calendar.
#[derive(Debug, Clone, Copy, PartialEq, Eq, Hash, Structural)]
pub struct Date {
    pub year: i32,
    pub month: u8,
    pub day: u8,
}

impl View for Date {
    type V = Date;

    open spec fn view(&self) -> Date {
        *self
    }
}

/// A year with a 29th of February.
pub open spec fn leap(year: int) -> bool {
    year % 4 == 0 && (year % 100 != 0 || year % 400 == 0)
}

/// How many days a month has.
pub open spec fn days_in_month(year: int, month: int) -> int {
    if month == 2 {
        if leap(year) {
            29
        } else {
            28
        }
    } else if month == 4 || month == 6 || month == 9 || month == 11 {
        30
    } else {
        31
    }
}

/// Year, month and day name a day between the years -9999 and 9999.
pub open spec fn valid_date(year: int, month: int, day: int) -> bool {
    -9999 <= year <= 9999 && 1 <= month <= 12 && 1 <= day <= days_in_month(year, month)
}

/// Days from the first day of the year 1 to the first day of `year`.
pub open spec fn days_before_year(year: int) -> int {
    365 * (year - 1) + (year - 1) / 4 - (year - 1) / 100 + (year - 1) / 400
}

/// Days from the first day of `year` to the first day of `month`.
pub open spec fn days_before_month(year: int, month: int) -> int {
    let shift: int = if leap(year) {
        1
    } else {
        0
    };
    if month <= 1 {
        0
    } else if month == 2 {
        31
    } else if month == 3 {
        59 + shift
    } else if month == 4 {
        90 + shift
    } else if month == 5 {
        120 + shift
    } else if month == 6 {
        151 + shift
    } else if month == 7 {
        181 + shift
    } else if month == 8 {
        212 + shift
    } else if month == 9 {
        243 + shift
    } else if month == 10 {
        273 + shift
    } else if month == 11 {
        304 + shift
    } else {
        334 + shift
    }
}

/// Days since 1970-01-01.
pub open spec fn day_number(year: int, month: int, day: int) -> int {
    days_before_year(year) + days_before_month(year, month) + day - 719163
}

/// `year` in at least four digits, then month and day in two each.
pub open spec fn iso_text(year: int, month: int, day: int) -> Seq<char> {
    pad_left(decimal(year as nat), 4, '0') + "-"@ + pad_left(decimal(month as nat), 2, '0') + "-"@
        + pad_left(decimal(day as nat), 2, '0')
}

impl Date {
    /// The three numbers name a day.
    pub open spec fn wf(self) -> bool {
        valid_date(self.year as int, self.month as int, self.day as int)
    }

    /// Days since 1970-01-01.
    pub open spec fn number(self) -> int {
        day_number(self.year as int, self.month as int, self.day as int)
    }

    /// The text `YYYY-MM-DD`; empty for a year before 0, which has none.
    pub open spec fn iso(self) -> Seq<char> {
        if self.year >= 0 {
            iso_text(self.year as int, self.month as int, self.day as int)
        } else {
            Seq::empty()
        }
    }

    /// `self` comes before `other`.
    pub open spec fn before(self, other: Date) -> bool {
        ||| self.year < other.year
        ||| self.year == other.year && self.month < other.month
        ||| self.year == other.year && self.month == other.month && self.day < other.day
    }
}

/// The first day that a date can name.
pub open spec fn first_day() -> Date {
    Date { year: (-9999) as i32, month: 1, day: 1 }
}

/// `time::Date::from_calendar_date`, with the month through
/// `time::Month::try_from`: it succeeds exactly on the days of the calendar
/// between the years -9999 and 9999.
#[verifier::external_body]
fn calendar_accepts(year: i32, month: u8, day: u8) -> (r: bool)
    ensures
        r == valid_date(year as int, month as int, day as int),
{
    match time::Month::try_from(month) {
        Ok(m) => time::Date::from_calendar_date(year, m, day).is_ok(),
        Err(_) => false,
    }
}

/// `time::Date - time::Date` in whole days: the difference of the day numbers.
#[verifier::external_body]
fn whole_days_between(later: Date, earlier: Date) -> (days: i64)
    requires
        later.wf(),
        earlier.wf(),
    ensures
        days == later.number() - earlier.number(),
{
    let month = |m: u8| time::Month::try_from(m).unwrap();
    let a = time::Date::from_calendar_date(later.year, month(later.month), later.day).unwrap();
    let b = time::Date::from_calendar_date(earlier.year, month(earlier.month), earlier.day).unwrap();
    (a - b).whole_days()
}

/// `time::Date::saturating_sub` of a number of days: the day that many days
/// earlier, or the first day that a date can name if there is none.
#[verifier::external_body]
fn saturating_back(from: Date, days: u32) -> (r: Date)
    requires
        from.wf(),
    ensures
        r.wf(),
        from.number() - days >= first_day().number() ==> r.number() == from.number() - days,
        from.number() - days < first_day().number() ==> r == first_day(),
{
    let month = time::Month::try_from(from.month).unwrap();
    let d = time::Date::from_calendar_date(from.year, month, from.day).unwrap();
    let r = d.saturating_sub(time::Duration::days(i64::from(days)));
    Date { year: r.year(), month: r.month() as u8, day: r.day() }
}

/// `time::Date::format` with `Iso8601::DATE`: `YYYY-MM-DD`, and an error for a
/// year before 0.
#[verifier::external_body]
fn iso8601_format(d: Date) -> (r: Option<String>)
    requires
        d.wf(),
    ensures
        r is Some == (d.year >= 0),
        r matches Some(s) ==> s@ == d.iso(),
{
    let month = time::Month::try_from(d.month).unwrap();
    let date = time::Date::from_calendar_date(d.year, month, d.day).unwrap();
    date.format(&time::format_description::well_known::Iso8601::DATE).ok()
}

/// What ISO 8601 parsing makes of a text: the day, or the text of the error.
pub uninterp spec fn iso8601_date(s: Seq<char>) -> Result<Date, Seq<char>>;

/// `time::Date::parse` with `Iso8601::DATE`, its error as text. The grammar
/// (calendar, ordinal and week dates, with and without separators) is left
/// unsaid; a day that comes out is one of the calendar.
#[verifier::external_body]
pub(crate) fn iso8601_parse(s: &str) -> (r: Result<Date, String>)
    ensures
        match r {
            Ok(d) => iso8601_date(s@) == Ok::<Date, Seq<char>>(d) && d.wf(),
            Err(e) => iso8601_date(s@) == Err::<Date, Seq<char>>(e@),
        },
{
    match time::Date::parse(s, &time::format_description::well_known::Iso8601::DATE) {
        Ok(d) => Ok(Date { year: d.year(), month: d.month() as u8, day: d.day() }),
        Err(e) => Err(e.to_string()),
    }
}

/// The instant that an RFC 3339 text names, in nanoseconds since 1970.
pub uninterp spec fn rfc3339_instant(s: Seq<char>) -> Option<int>;

/// `time::OffsetDateTime::parse` with `Rfc3339`, as nanoseconds since 1970:
/// the instant depends on the text alone. The grammar is left unsaid; seconds
/// since 1970 fit in 64 bits.
#[verifier::external_body]
fn rfc3339_parse(s: &str) -> (r: Option<i128>)
    ensures
        match r {
            Some(n) => rfc3339_instant(s@) == Some(n as int)
                && -10_000_000_000_000_000_000_000_000_000 < n
                < 10_000_000_000_000_000_000_000_000_000,
            None => rfc3339_instant(s@) is None,
        },
{
    let format = time::format_description::well_known::Rfc3339;
    match time::OffsetDateTime::parse(s, &format) {
        Ok(t) => Some(t.unix_timestamp_nanos()),
        Err(_) => None,
    }
}

/// The instant that an RFC 3339 text names, in nanoseconds since 1970, if it
/// names one.
pub fn read_instant(s: &str) -> (r: Option<i128>)
    ensures
        match r {
            Some(n) => rfc3339_instant(s@) == Some(n as int) && instant(n as int),
            None => rfc3339_instant(s@) is None,
        },
{
    rfc3339_parse(s)
}

impl Date {
    /// The day that the three numbers name, if they name one.
    pub fn from_calendar_date(year: i32, month: u8, day: u8) -> (r: Option<Date>)
        ensures
            match r {
                Some(d) => d == (Date { year, month, day }) && d.wf(),
                None => !valid_date(year as int, month as int, day as int),
            },
    {
        if calendar_accepts(year, month, day) {
            Some(Date { year, month, day })
        } else {
            None
        }
    }

    /// How many days `self` lies after `earlier`; negative if it lies before.
    pub fn days_since(self, earlier: Date) -> (days: i64)
        requires
            self.wf(),
            earlier.wf(),
        ensures
            days == self.number() - earlier.number(),
    {
        whole_days_between(self, earlier)
    }

    /// The day `days` days earlier, stopping at the first day there is.
    pub fn days_back(self, days: u32) -> (r: Date)
        requires
            self.wf(),
        ensures
            r.wf(),
            self.number() - days >= first_day().number() ==> r.number() == self.number() - days,
            self.number() - days < first_day().number() ==> r == first_day(),
    {
        saturating_back(self, days)
    }

    /// `YYYY-MM-DD`, or the empty text for a year before 0.
    pub fn to_iso(self) -> (out: String)
        requires
            self.wf(),
        ensures
            out@ == self.iso(),
    {
        match iso8601_format(self) {
            Some(s) => s,
            None => String::new(),
        }
    }

    /// Whether `self` comes before `other`.
    pub fn is_before(self, other: Date) -> (r: bool)
        ensures
            r == self.before(other),
    {
        self.year < other.year || (self.year == other.year && (self.month < other.month || (
        self.month == other.month && self.day < other.day)))
    }
}

/// The quotient by 4 grows by one exactly at the multiples of 4.
proof fn lemma_fourth_years(year: int)
    ensures
        year / 4 == (year - 1) / 4 + (if year % 4 == 0 {
            1int
        } else {
            0int
        }),
{
}

/// The quotient by 100 grows by one exactly at the multiples of 100, which are
/// multiples of 4.
proof fn lemma_hundredth_years(year: int)
    ensures
        year / 100 == (year - 1) / 100 + (if year % 100 == 0 {
            1int
        } else {
            0int
        }),
        year % 100 == 0 ==> year % 4 == 0,
{
}

/// The quotient by 400 grows by one exactly at the multiples of 400, which are
/// multiples of 100.
proof fn lemma_four_hundredth_years(year: int)
    ensures
        year / 400 == (year - 1) / 400 + (if year % 400 == 0 {
            1int
        } else {
            0int
        }),
        year % 400 == 0 ==> year % 100 == 0,
{
}

/// The year after `year` begins 365 or 366 days later.
proof fn lemma_year_step(year: int)
    ensures
        days_before_year(year + 1) == days_before_year(year) + 365 + (if leap(year) {
            1int
        } else {
            0int
        }),
{
    lemma_fourth_years(year);
    lemma_hundredth_years(year);
    lemma_four_hundredth_years(year);
}

/// The days of a 400-year era, counted from a first of March, split into the
/// year of the era and the day of that year.
proof fn lemma_year_of_era(doe: int, yoe: int, doy: int)
    requires
        0 <= doe < 146097,
        yoe == (doe - doe / 1460 + doe / 36524 - doe / 146096) / 365,
        doy == doe - (365 * yoe + yoe / 4 - yoe / 100),
    ensures
        0 <= yoe < 400,
        0 <= doy <= 365,
        doy == 365 ==> leap(yoe + 1),
{
    // Centuries, groups of four years, years: every part but the last of its
    // kind has the same length.
    let c = if doe / 36524 > 3 {
        3
    } else {
        doe / 36524
    };
    let r = doe - 36524 * c;
    let g = r / 1461;
    let t = r - 1461 * g;
    let k = if t / 365 > 3 {
        3
    } else {
        t / 365
    };
    assert(0 <= c <= 3 && 0 <= r <= 36524 && (r == 36524 ==> c == 3));
    assert(0 <= g <= 24 && 0 <= t <= 1460);
    assert(0 <= k <= 3 && 0 <= t - 365 * k <= 365 && (t - 365 * k == 365 ==> k == 3));
    lemma_era_quotients(doe, c, g, t, k);
    let whole = 100 * c + 4 * g + k;
    assert(yoe == whole);
    assert(yoe / 4 == 25 * c + g);
    assert(yoe / 100 == c);
    assert(doy == t - 365 * k);
    if doy == 365 {
        assert(t == 1460 && k == 3);
        if g == 24 {
            assert(r == 36524);
            assert(yoe + 1 == 400);
        } else {
            assert((yoe + 1) % 4 == 0);
            assert((yoe + 1) % 100 == 4 * g + 4);
        }
    }
}

/// The year of the era that the quotients name is the one that centuries,
/// groups and years give.
proof fn lemma_era_quotients(doe: int, c: int, g: int, t: int, k: int)
    requires
        0 <= doe < 146097,
        doe == 36524 * c + 1461 * g + t,
        0 <= c <= 3,
        0 <= g <= 24,
        0 <= t <= 1460,
        1461 * g + t <= 36524,
        1461 * g + t == 36524 ==> c == 3,
        0 <= k <= 3,
        0 <= t - 365 * k <= 365,
        t - 365 * k == 365 ==> k == 3,
    ensures
        (doe - doe / 1460 + doe / 36524 - doe / 146096) / 365 == 100 * c + 4 * g + k,
{
    let q = (24 * c + g + t) / 1460;
    assert(doe / 1460 == 25 * c + g + q);
    assert(0 <= q <= 1);
    assert(q == 0 ==> t < 1460);
    assert(q == 1 ==> t >= 1364);
    if 1461 * g + t == 36524 {
        assert(doe == 146096);
        assert(doe / 36524 == 4);
        assert(doe / 146096 == 1);
    } else {
        assert(doe / 36524 == c);
        assert(doe / 146096 == 0);
    }
    let n = doe - doe / 1460 + doe / 36524 - doe / 146096;
    let y = 100 * c + 4 * g + k;
    assert(n - 365 * y == t - 365 * k - q);
    assert(0 <= n - 365 * y < 365);
    assert(n / 365 == y);
}

/// The months counted from March, and the days of that year before each.
proof fn lemma_month_of_year(doy: int, mp: int, day: int, month: int, year: int)
    requires
        0 <= doy <= 365,
        mp == (5 * doy + 2) / 153,
        day == doy - (153 * mp + 2) / 5 + 1,
        month == if mp < 10 {
            mp + 3
        } else {
            mp - 9
        },
        doy == 365 ==> leap(year + 1),
    ensures
        1 <= month <= 12,
        month >= 3 ==> 1 <= day <= days_in_month(year, month) && days_before_month(year, month)
            + day == doy + 60 + (if leap(year) {
            1int
        } else {
            0int
        }),
        month <= 2 ==> 1 <= day <= days_in_month(year + 1, month) && days_before_month(
            year + 1,
            month,
        ) + day == doy - 305,
{
    assert(0 <= mp <= 11);
    if mp == 0 {
    } else if mp == 1 {
    } else if mp == 2 {
    } else if mp == 3 {
    } else if mp == 4 {
    } else if mp == 5 {
    } else if mp == 6 {
    } else if mp == 7 {
    } else if mp == 8 {
    } else if mp == 9 {
    } else if mp == 10 {
    } else {
    }
}

/// The number of a day of the year that begins in March of `y`.
proof fn lemma_day_of_march_year(y: int, doy: int, day: int, month: int, n: int)
    requires
        1 <= month <= 12,
        days_before_year(y + 1) + doy == n,
        month >= 3 ==> days_before_month(y, month) + day == doy + 60 + (if leap(y) {
            1int
        } else {
            0int
        }),
        month <= 2 ==> days_before_month(y + 1, month) + day == doy - 305,
    ensures
        day_number(
            if month <= 2 {
                y + 1
            } else {
                y
            },
            month,
            day,
        ) == n - 719468,
{
    lemma_year_step(y);
}

/// Adding a multiple of the divisor adds to the quotient alone.
proof fn lemma_quotient(x: int, d: int, k: int)
    requires
        d > 0,
    ensures
        (x + d * k) / d == x / d + k,
        (x + d * k) % d == x % d,
{
    vstd::arithmetic::div_mod::lemma_fundamental_div_mod(x, d);
    assert(d * (x / d) + d * k == d * (x / d + k)) by (nonlinear_arith);
    vstd::arithmetic::div_mod::lemma_fundamental_div_mod_converse(x + d * k, d, x / d + k, x % d);
}

/// Eras of 400 years are alike.
proof fn lemma_era(era: int, yoe: int)
    requires
        0 <= yoe < 400,
    ensures
        leap(yoe + era * 400 + 1) == leap(yoe + 1),
        days_before_year(yoe + era * 400 + 1) == 146097 * era + 365 * yoe + yoe / 4 - yoe / 100,
{
    let y = yoe + era * 400;
    lemma_quotient(yoe, 4, 100 * era);
    lemma_quotient(yoe, 100, 4 * era);
    lemma_quotient(yoe, 400, era);
    lemma_quotient(yoe + 1, 4, 100 * era);
    lemma_quotient(yoe + 1, 100, 4 * era);
    lemma_quotient(yoe + 1, 400, era);
}

/// The day number of the day `doy` of the year that begins in March of
/// `march_year`.
proof fn lemma_civil(era: int, doe: int, yoe: int, doy: int, mp: int, day: int, month: int)
    requires
        0 <= doe < 146097,
        yoe == (doe - doe / 1460 + doe / 36524 - doe / 146096) / 365,
        doy == doe - (365 * yoe + yoe / 4 - yoe / 100),
        mp == (5 * doy + 2) / 153,
        day == doy - (153 * mp + 2) / 5 + 1,
        month == if mp < 10 {
            mp + 3
        } else {
            mp - 9
        },
    ensures
        0 <= yoe < 400,
        0 <= doy <= 365,
        1 <= month <= 12,
        ({
            let y = yoe + era * 400 + (if month <= 2 {
                1int
            } else {
                0int
            });
            &&& 1 <= day <= days_in_month(y, month)
            &&& day_number(y, month, day) == era * 146097 + doe - 719468
        }),
{
    lemma_year_of_era(doe, yoe, doy);
    let y = yoe + era * 400;
    lemma_era(era, yoe);
    lemma_month_of_year(doy, mp, day, month, y);
    lemma_day_of_march_year(y, doy, day, month, era * 146097 + doe);
}

/// A date from its day number: years that begin in March, in eras of 400.
pub fn civil_from_days(z: i64) -> (r: (i64, u8, u8))
    requires
        z <= i64::MAX - 719_468,
    ensures
        1 <= r.1 <= 12,
        1 <= r.2 <= days_in_month(r.0 as int, r.1 as int),
        day_number(r.0 as int, r.1 as int, r.2 as int) == z,
{
    let shifted: i64 = z + 719_468;
    let era: i64 = if shifted >= 0 {
        shifted / 146_097
    } else {
        -((146_096 - shifted) / 146_097)
    };
    assert(-64_000_000_000_000 < era < 64_000_000_000_000);
    let doe: i64 = shifted - era * 146_097;
    assert(0 <= doe < 146_097);
    let yoe: i64 = (doe - doe / 1460 + doe / 36_524 - doe / 146_096) / 365;
    assert(0 <= yoe < 1000);
    let doy: i64 = doe - (365 * yoe + yoe / 4 - yoe / 100);
    proof {
        let mp = (5 * doy + 2) / 153;
        lemma_civil(
            era as int,
            doe as int,
            yoe as int,
            doy as int,
            mp,
            doy - (153 * mp + 2) / 5 + 1,
            if mp < 10 {
                mp + 3
            } else {
                mp - 9
            },
        );
    }
    let mp: i64 = (5 * doy + 2) / 153;
    let day: i64 = doy - (153 * mp + 2) / 5 + 1;
    let month: i64 = if mp < 10 {
        mp + 3
    } else {
        mp - 9
    };
    let year: i64 = if month <= 2 {
        yoe + era * 400 + 1
    } else {
        yoe + era * 400
    };
    (year, month as u8, day as u8)
}

/// `month` and `day` name a day of `year`, whatever the year.
pub open spec fn calendar_day(year: int, month: int, day: int) -> bool {
    1 <= month <= 12 && 1 <= day <= days_in_month(year, month)
}

/// One day lies before another.
pub open spec fn day_before(y1: int, m1: int, d1: int, y2: int, m2: int, d2: int) -> bool {
    y1 < y2 || (y1 == y2 && (m1 < m2 || (m1 == m2 && d1 < d2)))
}

/// Days follow each other as their numbers do.
proof fn lemma_day_order(y1: int, m1: int, d1: int, y2: int, m2: int, d2: int)
    requires
        calendar_day(y1, m1, d1),
        calendar_day(y2, m2, d2),
        day_before(y1, m1, d1, y2, m2, d2),
    ensures
        day_number(y1, m1, d1) < day_number(y2, m2, d2),
{
    lemma_year_step(y1);
    if y1 < y2 {
        lemma_years_apart(y1, y2);
    }
}

/// A day number names one day only.
pub proof fn law_day_number_is_unique(y1: int, m1: int, d1: int, y2: int, m2: int, d2: int)
    requires
        calendar_day(y1, m1, d1),
        calendar_day(y2, m2, d2),
        day_number(y1, m1, d1) == day_number(y2, m2, d2),
    ensures
        y1 == y2 && m1 == m2 && d1 == d2,
{
    if day_before(y1, m1, d1, y2, m2, d2) {
        lemma_day_order(y1, m1, d1, y2, m2, d2);
    } else if day_before(y2, m2, d2, y1, m1, d1) {
        lemma_day_order(y2, m2, d2, y1, m1, d1);
    }
}

/// `a` comes before `b` exactly if its day number is the smaller one.
pub proof fn law_calendar_order_is_day_order(a: Date, b: Date)
    requires
        a.wf(),
        b.wf(),
    ensures
        a.before(b) == (a.number() < b.number()),
        a == b <==> a.number() == b.number(),
{
    let (y1, m1, d1) = (a.year as int, a.month as int, a.day as int);
    let (y2, m2, d2) = (b.year as int, b.month as int, b.day as int);
    if day_before(y1, m1, d1, y2, m2, d2) {
        lemma_day_order(y1, m1, d1, y2, m2, d2);
    } else if day_before(y2, m2, d2, y1, m1, d1) {
        lemma_day_order(y2, m2, d2, y1, m1, d1);
    }
}

/// Days from 1970 on lie in years from 1970 on.
pub proof fn lemma_year_not_before(year: int, month: int, day: int)
    requires
        calendar_day(year, month, day),
        day_number(year, month, day) >= 0,
    ensures
        year >= 1970,
{
    if year < 1970 {
        lemma_day_order(year, month, day, 1970, 1, 1);
    }
}

/// An earlier year ends before a later one begins.
proof fn lemma_years_apart(a: int, b: int)
    requires
        a < b,
    ensures
        days_before_year(a + 1) <= days_before_year(b),
    decreases b - a,
{
    if a + 1 < b {
        lemma_years_apart(a, b - 1);
        lemma_year_step(b - 1);
    }
}

/// The text of a day holds digits and hyphens only.
pub proof fn lemma_iso_chars(d: Date, c: char)
    requires
        d.wf(),
        d.year >= 0,
        c != '-',
        !is_digit(c),
    ensures
        forall|i: int| 0 <= i < d.iso().len() ==> d.iso()[i] != c,
{
    let y = pad_left(decimal(d.year as nat), 4, '0');
    let m = pad_left(decimal(d.month as nat), 2, '0');
    let n = pad_left(decimal(d.day as nat), 2, '0');
    lemma_decimal_value(d.year as nat);
    lemma_decimal_value(d.month as nat);
    lemma_decimal_value(d.day as nat);
    lemma_digits_value_padded(decimal(d.year as nat), 4);
    lemma_digits_value_padded(decimal(d.month as nat), 2);
    lemma_digits_value_padded(decimal(d.day as nat), 2);
    reveal_strlit("-");
    let s = d.iso();
    assert forall|i: int| 0 <= i < s.len() implies s[i] != c by {
        if i < y.len() {
            assert(is_digit(y[i]));
        } else if i == y.len() {
        } else if i <= y.len() + m.len() {
            assert(is_digit(m[i - y.len() - 1]));
        } else if i == y.len() + m.len() + 1 {
        } else {
            assert(is_digit(n[i - y.len() - m.len() - 2]));
        }
    }
}

/// Days are numbered one after the other from the first of 1970: the day after a
/// day of the same month, the first of a month after the last of the one before,
/// and the first of a year after the last of the one before. Four hundred years
/// have 146097 days.
pub proof fn law_days_are_numbered_in_turn(year: int, month: int, day: int)
    requires
        calendar_day(year, month, day),
    ensures
        day_number(1970, 1, 1) == 0,
        calendar_day(year, month, day + 1) ==> day_number(year, month, day + 1) == day_number(
            year,
            month,
            day,
        ) + 1,
        !calendar_day(year, month, day + 1) && month < 12 ==> day_number(year, month + 1, 1)
            == day_number(year, month, day) + 1,
        !calendar_day(year, month, day + 1) && month == 12 ==> day_number(year + 1, 1, 1)
            == day_number(year, month, day) + 1,
        day_number(year + 400, month, day) == day_number(year, month, day) + 146097,
{
    lemma_year_step(year);
    lemma_four_hundred_years(year);
    lemma_month_step(year, month);
    assert(days_before_month(year + 400, month) == days_before_month(year, month));
}

/// The month after `month` begins as many days later as `month` has.
proof fn lemma_month_step(year: int, month: int)
    requires
        1 <= month <= 12,
    ensures
        month < 12 ==> days_before_month(year, month + 1) == days_before_month(year, month)
            + days_in_month(year, month),
        month == 12 ==> days_before_month(year, month) + days_in_month(year, month) == 365 + (
        if leap(year) {
            1int
        } else {
            0int
        }),
{
}

proof fn lemma_four_hundred_years(year: int)
    ensures
        days_before_year(year + 400) == days_before_year(year) + 146097,
        leap(year + 400) == leap(year),
{
    lemma_quotient(year - 1, 4, 100);
    lemma_quotient(year - 1, 100, 4);
    lemma_quotient(year - 1, 400, 1);
    lemma_quotient(year, 4, 100);
    lemma_quotient(year, 100, 4);
    lemma_quotient(year, 400, 1);
    assert(365 * (year + 400 - 1) == 365 * (year - 1) + 146000) by (nonlinear_arith);
}

/// Months have 28 to 31 days: seven have 31, among them the first and the last,
/// of two neighbours both have 31 only in the middle and at the turn of the year,
/// and February alone has fewer than 30, one more in a leap year. Of four years
/// in a row no more than one is a leap year.
pub proof fn law_how_long_months_are(year: int, month: int)
    requires
        1 <= month <= 12,
    ensures
        28 <= days_in_month(year, month) <= 31,
        days_in_month(year, month) < 30 <==> month == 2,
        days_in_month(year, 2) == 29 <==> leap(year),
        month < 12 && month != 2 && month != 1 && month != 7 ==> days_in_month(year, month)
            + days_in_month(year, month + 1) == 61,
        days_in_month(year, 1) == 31 && days_in_month(year, 3) == 31 && days_in_month(year, 12) == 31,
        days_in_month(year, 7) == days_in_month(year, 8),
        leap(year) ==> !leap(year + 1) && !leap(year + 2) && !leap(year + 3),
{
}

/// The text of a day has ten characters: four for the year, two for the month and
/// two for the day, with hyphens between them.
pub proof fn law_the_text_of_a_day_has_ten_characters(d: Date)
    requires
        d.wf(),
        d.year >= 0,
    ensures
        d.iso().len() == 10,
        d.iso()[4] == '-',
        d.iso()[7] == '-',
        digits_value(d.iso().subrange(0, 4)) == d.year,
        digits_value(d.iso().subrange(5, 7)) == d.month,
        digits_value(d.iso().subrange(8, 10)) == d.day,
{
    let y = pad_left(decimal(d.year as nat), 4, '0');
    let m = pad_left(decimal(d.month as nat), 2, '0');
    let n = pad_left(decimal(d.day as nat), 2, '0');
    lemma_decimal_value(d.year as nat);
    lemma_decimal_value(d.month as nat);
    lemma_decimal_value(d.day as nat);
    lemma_digits_value_padded(decimal(d.year as nat), 4);
    lemma_digits_value_padded(decimal(d.month as nat), 2);
    lemma_digits_value_padded(decimal(d.day as nat), 2);
    assert(decimal(d.year as nat).len() <= 4 && decimal(d.month as nat).len() <= 2 && decimal(
        d.day as nat,
    ).len() <= 2) by {
        reveal_with_fuel(decimal, 5);
    }
    reveal_strlit("-");
    assert(d.iso().subrange(0, 4) =~= y);
    assert(d.iso().subrange(5, 7) =~= m);
    assert(d.iso().subrange(8, 10) =~= n);
}

} // verus!
