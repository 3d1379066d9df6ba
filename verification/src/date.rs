use vstd::prelude::*;
use chrono::Datelike;

verus! {

/// A calendar date, as the race pages print it and the bot compares it.
#[derive(Clone, Copy, Debug, PartialEq, Eq, Structural)]
pub struct RaceDate {
    pub year: i32,
    pub month: u32,
    pub day: u32,
}

/// Whether date `a` comes before date `b`.
pub open spec fn date_before(a: RaceDate, b: RaceDate) -> bool {
    ||| a.year < b.year
    ||| a.year == b.year && a.month < b.month
    ||| a.year == b.year && a.month == b.month && a.day < b.day
}

/// The date that `chrono` parses from `text` with `format`, as (year, month,
/// day), where it parses one.
pub uninterp spec fn parsed_date(text: Seq<char>, format: Seq<char>) -> Option<(int, int, int)>;

/// `chrono::NaiveDate::parse_from_str`, the parsed date taken apart into year,
/// month and day; `None` where chrono returns an error. What chrono accepts
/// is not stated beyond the name.
#[verifier::external_body]
pub(crate) fn parse_date(text: &str, format: &str) -> (res: Option<RaceDate>)
    ensures
        match res {
            Some(d) => parsed_date(text@, format@) == Some((d.year as int, d.month as int, d.day as int)),
            None => parsed_date(text@, format@) is None,
        },
{
    chrono::NaiveDate::parse_from_str(text, format).ok().map(
        |d| RaceDate { year: d.year(), month: d.month(), day: d.day() },
    )
}

/// The date that `chrono::NaiveDate::default()` gives: 1 January 1970.
pub open spec fn default_date() -> RaceDate {
    RaceDate { year: 1970, month: 1, day: 1 }
}

/// The parsed date, or the default date where there is none.
pub open spec fn date_or_default(parsed: Option<(int, int, int)>) -> RaceDate {
    match parsed {
        Some((y, m, d)) => RaceDate { year: y as i32, month: m as u32, day: d as u32 },
        None => default_date(),
    }
}

/// The place of a date on the calendar, one number per (year, month, day):
/// the year counts most, then the month, then the day (month and day are
/// below 2^32, so each weighs less than one step of the field above it).
pub open spec fn calendar_position(d: RaceDate) -> int {
    d.year as int * 0x1_0000_0000_0000_0000 + d.month as int * 0x1_0000_0000 + d.day as int
}

/// A date lies before another exactly when it comes earlier on the
/// calendar: 2024-04-07 is not before 2024-03-25, 2024-03-24 is.
pub proof fn lemma_date_before_is_calendar_order(a: RaceDate, b: RaceDate)
    ensures
        date_before(a, b) <==> calendar_position(a) < calendar_position(b),
{
    let (ay, am, ad) = (a.year as int, a.month as int, a.day as int);
    let (by, bm, bd) = (b.year as int, b.month as int, b.day as int);
    let m: int = 0x1_0000_0000;
    assert(0 <= am < m && 0 <= bm < m && 0 <= ad < m && 0 <= bd < m);
    assert(calendar_position(a) == ay * (m * m) + am * m + ad);
    assert(calendar_position(b) == by * (m * m) + bm * m + bd);
    assert(ay < by ==> ay * (m * m) + am * m + ad < by * (m * m) + bm * m + bd) by (nonlinear_arith)
        requires
            0 <= am < m,
            0 <= bm < m,
            0 <= ad < m,
            0 <= bd < m,
            m > 0,
    ;
    assert(by < ay ==> by * (m * m) + bm * m + bd < ay * (m * m) + am * m + ad) by (nonlinear_arith)
        requires
            0 <= am < m,
            0 <= bm < m,
            0 <= ad < m,
            0 <= bd < m,
            m > 0,
    ;
    assert(am < bm ==> am * m + ad < bm * m + bd) by (nonlinear_arith)
        requires
            0 <= ad < m,
            0 <= bd < m,
    ;
    assert(bm < am ==> bm * m + bd < am * m + ad) by (nonlinear_arith)
        requires
            0 <= ad < m,
            0 <= bd < m,
    ;
}

impl RaceDate {
    /// 1 January 1970, the default date.
    pub fn unix_epoch() -> (d: RaceDate)
        ensures
            d == default_date(),
    {
        RaceDate { year: 1970, month: 1, day: 1 }
    }

    /// Whether this date comes before `other`.
    pub fn is_before(&self, other: &RaceDate) -> (res: bool)
        ensures
            res == date_before(*self, *other),
            res == (calendar_position(*self) < calendar_position(*other)),
    {
        proof {
            lemma_date_before_is_calendar_order(*self, *other);
        }
        self.year < other.year || (self.year == other.year && self.month < other.month) || (
        self.year == other.year && self.month == other.month && self.day < other.day)
    }
}

} // verus!
