use vstd::prelude::*;
use crate::date::{date_or_default, parse_date, parsed_date, RaceDate};
use crate::html::{selected_texts, selector_accepted, Document, Query};
use crate::markdown::{escape, lemma_escape_then_unescape, markdown_escaped, markdown_unescaped};
use crate::text::{
    before_first, chars_of, contains, is_white_space, lemma_before_first, lemma_trim_ends, lemma_trim_idempotent,
    lemma_trim_keeps_occurrences, prefix_before, string_of, trim, trimmed,
};

verus! {

broadcast use vstd::string::group_string_axioms;

/// A Formula 1 race: its name, its date and the page of its results.
#[derive(Debug)]
pub struct Race {
    pub name: String,
    pub date: RaceDate,
    pub url: String,
}

/// A race, by its text.
pub struct RaceData {
    pub name: Seq<char>,
    pub date: RaceDate,
    pub url: Seq<char>,
}

impl View for Race {
    type V = RaceData;

    open spec fn view(&self) -> RaceData {
        RaceData { name: self.name@, date: self.date, url: self.url@ }
    }
}

/// The format of the dates on the race pages, such as "25 Mar 2018".
pub open spec fn race_date_format() -> Seq<char> {
    "%d %b %Y"@
}

/// The date that a race page's date text stands for; 1 January 1970 where
/// chrono cannot read it.
pub open spec fn race_date(text: Seq<char>) -> RaceDate {
    date_or_default(parsed_date(trim(text), race_date_format()))
}

/// White space around a date's text does not change the date.
pub proof fn lemma_race_date_ignores_surrounding_space(text: Seq<char>)
    ensures
        race_date(text) == race_date(trim(text)),
{
    lemma_trim_idempotent(text);
}

impl Race {
    /// A race of the given name and url, on the date that `date` gives (see
    /// `race_date`).
    pub fn new(name: &str, date: &str, url: &str) -> (race: Race)
        ensures
            race@ == (RaceData { name: name@, date: race_date(date@), url: url@ }),
    {
        let date_text = string_of(&trimmed(&chars_of(date)));
        let date = match parse_date(date_text.as_str(), "%d %b %Y") {
            Some(d) => d,
            None => RaceDate::unix_epoch(),
        };
        Race { name: name.to_string(), date, url: url.to_string() }
    }
}

/// Why a race page gives no race.
#[derive(Clone, Copy, Debug, PartialEq, Eq, Structural)]
pub enum RaceError {
    /// scraper rejected the date selector; the caller is to stop.
    DateSelectorRejected,
    /// The page has no date element.
    DateNotFound,
    /// scraper rejected the race name selector; the caller is to stop.
    NameSelectorRejected,
    /// The page has no race name element.
    NameNotFound,
}

impl RaceError {
    /// The message that goes with the error.
    pub fn message(&self) -> (m: &'static str)
        ensures
            m@ == error_message(*self),
    {
        match self {
            RaceError::DateSelectorRejected => "Failed to parse date selector",
            RaceError::DateNotFound => "Failed to find date element",
            RaceError::NameSelectorRejected => "Failed to parse race name selector",
            RaceError::NameNotFound => "Failed to find race name element",
        }
    }
}

/// The message of each error.
pub open spec fn error_message(e: RaceError) -> Seq<char> {
    match e {
        RaceError::DateSelectorRejected => "Failed to parse date selector"@,
        RaceError::DateNotFound => "Failed to find date element"@,
        RaceError::NameSelectorRejected => "Failed to parse race name selector"@,
        RaceError::NameNotFound => "Failed to find race name element"@,
    }
}

/// The name that a race page's title gives: the part before " - RACE
/// RESULT", trimmed and escaped for MarkdownV2.
pub open spec fn race_name(title: Seq<char>) -> Seq<char> {
    markdown_escaped(trim(before_first(title, " - RACE RESULT"@)))
}

/// The race name reads back, once unescaped, as the title's text before the
/// first " - RACE RESULT", trimmed: so it never holds " - RACE RESULT", and
/// neither begins nor ends with white space.
pub proof fn lemma_race_name(title: Seq<char>)
    ensures
        markdown_unescaped(race_name(title)) == trim(before_first(title, " - RACE RESULT"@)),
        !contains(markdown_unescaped(race_name(title)), " - RACE RESULT"@),
        markdown_unescaped(race_name(title)).len() > 0 ==> !is_white_space(
            markdown_unescaped(race_name(title))[0],
        ) && !is_white_space(markdown_unescaped(race_name(title)).last()),
{
    reveal_strlit(" - RACE RESULT");
    let piece = before_first(title, " - RACE RESULT"@);
    lemma_escape_then_unescape(trim(piece));
    lemma_before_first(title, " - RACE RESULT"@);
    lemma_trim_keeps_occurrences(piece, " - RACE RESULT"@);
    lemma_trim_ends(piece);
}

/// What the result page at `url` tells of its race: the name from the first
/// `h1.ResultsArchiveTitle` element and the date from the first
/// `span.full-date` element.
pub open spec fn race_of_page(page: Seq<char>, url: Seq<char>) -> Result<RaceData, RaceError> {
    if !selector_accepted("span.full-date"@) {
        Err(RaceError::DateSelectorRejected)
    } else if selected_texts(page, "span.full-date"@).len() == 0 {
        Err(RaceError::DateNotFound)
    } else if !selector_accepted("h1.ResultsArchiveTitle"@) {
        Err(RaceError::NameSelectorRejected)
    } else if selected_texts(page, "h1.ResultsArchiveTitle"@).len() == 0 {
        Err(RaceError::NameNotFound)
    } else {
        Ok(
            RaceData {
                name: race_name(selected_texts(page, "h1.ResultsArchiveTitle"@)[0]),
                date: race_date(selected_texts(page, "span.full-date"@)[0]),
                url,
            },
        )
    }
}

/// Reads the race that the result page `page`, fetched from `url`,
/// describes.
pub fn get_race_data(page: &str, url: String) -> (res: Result<Race, RaceError>)
    ensures
        match res {
            Ok(race) => race_of_page(page@, url@) == Ok::<RaceData, RaceError>(race@),
            Err(e) => race_of_page(page@, url@) == Err::<RaceData, RaceError>(e),
        },
{
    let document = Document::parse(page);
    let date_selector = match Query::parse("span.full-date") {
        Some(q) => q,
        None => return Err(RaceError::DateSelectorRejected),
    };
    let dates = document.select_texts(&date_selector);
    if dates.len() == 0 {
        return Err(RaceError::DateNotFound);
    }
    let name_selector = match Query::parse("h1.ResultsArchiveTitle") {
        Some(q) => q,
        None => return Err(RaceError::NameSelectorRejected),
    };
    let titles = document.select_texts(&name_selector);
    if titles.len() == 0 {
        return Err(RaceError::NameNotFound);
    }
    assert(dates.deep_view()[0] == dates@[0]@);
    assert(titles.deep_view()[0] == titles@[0]@);
    let title = chars_of(titles[0].as_str());
    let before = prefix_before(&title, &chars_of(" - RACE RESULT"));
    let name = escape(string_of(&trimmed(&before)).as_str());
    Ok(Race::new(name.as_str(), dates[0].as_str(), url.as_str()))
}


/// How long the stored race list stays fresh: 365 days, in nanoseconds.
pub const RACE_DATA_LIFETIME_NANOS: i128 = 31_536_000_000_000_000;

/// Whether the stored race list is older than its lifetime: `modified` is
/// when the file was last written (nanoseconds since 1970; `None` where the
/// file or its time cannot be read, which counts as 1970) and `now` the
/// present time.
pub fn race_data_is_stale(modified: Option<i128>, now: i128) -> (stale: bool)
    requires
        modified matches Some(m) ==> m <= i128::MAX - RACE_DATA_LIFETIME_NANOS,
    ensures
        stale == (match modified {
            Some(m) => m + RACE_DATA_LIFETIME_NANOS,
            None => RACE_DATA_LIFETIME_NANOS as int,
        } < now),
{
    let written: i128 = match modified {
        Some(m) => m,
        None => 0,
    };
    written + RACE_DATA_LIFETIME_NANOS < now
}

} // verus!
