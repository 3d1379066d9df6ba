use vstd::prelude::*;
use crate::driver::{cells_found, cell_text, page_rows, page_rows_of, podium_emoji, CellLookup, CellView, Row};
use crate::html::{selected_html, selected_texts, selector_accepted, Document, Query};
use crate::text::{
    before_first, chars_of, decimal, escaped_everywhere, lemma_replace_char_escapes,
    lemma_replace_char_keeps_escapes, decimal_chars, nonblank_lines, nonblank_lines_of, parse_u8,
    parsed_u8, prefix_before, push_char, replace_char, replaced_char, same_text, string_of, trim,
    trimmed,
};

verus! {

broadcast use vstd::string::group_string_axioms;

/// One driver's line of a race result, with the number, laps and points
/// read as numbers.
pub struct Driver {
    pub position: String,
    pub number: u8,
    pub first_name: String,
    pub second_name: String,
    pub short_name: String,
    pub team: String,
    pub laps: u8,
    pub time: String,
    pub points: u8,
}

/// A `Driver`, with its texts by their views.
pub struct DriverData {
    pub position: Seq<char>,
    pub number: u8,
    pub first_name: Seq<char>,
    pub second_name: Seq<char>,
    pub short_name: Seq<char>,
    pub team: Seq<char>,
    pub laps: u8,
    pub time: Seq<char>,
    pub points: u8,
}

impl View for Driver {
    type V = DriverData;

    open spec fn view(&self) -> DriverData {
        DriverData {
            position: self.position@,
            number: self.number,
            first_name: self.first_name@,
            second_name: self.second_name@,
            short_name: self.short_name@,
            team: self.team@,
            laps: self.laps,
            time: self.time@,
            points: self.points,
        }
    }
}

/// The MarkdownV2 text that presents one driver's result, ending in a line
/// break; the numbers in decimal.
pub open spec fn driver_message(d: DriverData) -> Seq<char> {
    seq![podium_emoji(d.position, d.time)] + " *"@ + d.first_name + " "@ + d.second_name + "*▫️"@
        + d.short_name + "▫️"@ + decimal(d.number as nat) + " \n    ⚬ Position: "@ + d.position
        + " \n    ⚬ Team: "@ + d.team + " \n    ⚬ Points: "@ + decimal(d.points as nat)
        + " \n    ⚬ Laps: "@ + decimal(d.laps as nat) + " \n    ⚬ Time: "@ + d.time + " \n \n"@
}

fn decimal_text(n: u8) -> (s: String)
    ensures
        s@ == decimal(n as nat),
{
    string_of(&decimal_chars(n as u64))
}

impl Driver {
    /// A driver made of the given fields.
    pub fn new(
        position: String,
        number: u8,
        first_name: String,
        second_name: String,
        short_name: String,
        team: String,
        laps: u8,
        time: String,
        points: u8,
    ) -> (d: Driver)
        ensures
            d@ == (DriverData {
                position: position@,
                number,
                first_name: first_name@,
                second_name: second_name@,
                short_name: short_name@,
                team: team@,
                laps,
                time: time@,
                points,
            }),
    {
        Driver {
            position,
            number,
            first_name,
            second_name,
            short_name,
            team,
            laps,
            time,
            points,
        }
    }

    /// The MarkdownV2 message that presents this driver's result.
    pub fn to_string(&self) -> (s: String)
        ensures
            s@ == driver_message(self@),
            s@.len() > 0,
            self.position@ == "1"@ ==> s@[0] == '🏆',
            self.position@ == "2"@ ==> s@[0] == '🥈',
            self.position@ == "3"@ ==> s@[0] == '🥉',
            self.position@ != "1"@ && self.position@ != "2"@ && self.position@ != "3"@ ==> (s@[0]
                == '❌' <==> self.time@ == "DNF"@) && (s@[0] == '🏁' <==> self.time@ != "DNF"@),
    {
        proof {
            crate::driver::lemma_podium_emoji(self.position@, self.time@);
        }
        let emoji = if same_text(self.position.as_str(), "1") {
            '🏆'
        } else if same_text(self.position.as_str(), "2") {
            '🥈'
        } else if same_text(self.position.as_str(), "3") {
            '🥉'
        } else if same_text(self.time.as_str(), "DNF") {
            '❌'
        } else {
            '🏁'
        };
        let number = decimal_text(self.number);
        let points = decimal_text(self.points);
        let laps = decimal_text(self.laps);
        let mut s = String::new();
        push_char(&mut s, emoji);
        s.append(" *");
        s.append(self.first_name.as_str());
        s.append(" ");
        s.append(self.second_name.as_str());
        s.append("*▫️");
        s.append(self.short_name.as_str());
        s.append("▫️");
        s.append(number.as_str());
        s.append(" \n    ⚬ Position: ");
        s.append(self.position.as_str());
        s.append(" \n    ⚬ Team: ");
        s.append(self.team.as_str());
        s.append(" \n    ⚬ Points: ");
        s.append(points.as_str());
        s.append(" \n    ⚬ Laps: ");
        s.append(laps.as_str());
        s.append(" \n    ⚬ Time: ");
        s.append(self.time.as_str());
        s.append(" \n \n");
        assert(s@ =~= driver_message(self@));
        s
    }
}

/// The race name that a race page's title gives: each `-` escaped with a
/// backslash, then the part before "2024".
pub open spec fn race_name(title: Seq<char>) -> Seq<char> {
    before_first(replace_char(title, '-', "\\-"@), "2024"@)
}

/// The race name of a race page: from its first `h1.ResultsArchiveTitle`
/// element, "Undefined race" where there is none; `None` where scraper
/// rejects the selector.
pub open spec fn race_name_of_page(page: Seq<char>) -> Option<Seq<char>> {
    if !selector_accepted("h1.ResultsArchiveTitle"@) {
        None
    } else if selected_texts(page, "h1.ResultsArchiveTitle"@).len() == 0 {
        Some("Undefined race"@)
    } else {
        Some(race_name(selected_texts(page, "h1.ResultsArchiveTitle"@)[0]))
    }
}

/// Reads the race name of a race page.
pub fn get_race_name(page: &str) -> (res: Option<String>)
    ensures
        match res {
            Some(name) => race_name_of_page(page@) == Some(name@),
            None => race_name_of_page(page@) is None,
        },
{
    let document = Document::parse(page);
    let selector = match Query::parse("h1.ResultsArchiveTitle") {
        Some(q) => q,
        None => return None,
    };
    let titles = document.select_texts(&selector);
    if titles.len() == 0 {
        return Some("Undefined race".to_string());
    }
    assert(titles.deep_view()[0] == titles@[0]@);
    let escaped = replaced_char(&chars_of(titles[0].as_str()), '-', &chars_of("\\-"));
    let name = prefix_before(&escaped, &chars_of("2024"));
    Some(string_of(&name))
}

/// The text of cell `n` of a row; `None` where it cannot be read.
pub open spec fn cell_value(cells: Seq<CellView>, n: int) -> Option<Seq<char>> {
    match cell_text(cells, n) {
        Ok(text) => Some(text),
        Err(_) => None,
    }
}

/// The text of the row's `td:nth-child(nth_child)` cell; `None` where it
/// cannot be read.
pub fn get_text_from_nth_child(row: &Row, nth_child: usize) -> (res: Option<String>)
    ensures
        match res {
            Some(text) => cell_value(row@, nth_child as int) == Some(text@),
            None => cell_value(row@, nth_child as int) is None,
        },
{
    if 1 <= nth_child && nth_child <= row.cells.len() {
        match &row.cells[nth_child - 1] {
            CellLookup::Found(text) => Some(text.clone()),
            _ => None,
        }
    } else {
        None
    }
}

/// `time` with each `.` and then each `+` escaped with a backslash.
pub open spec fn escaped_time(time: Seq<char>) -> Seq<char> {
    replace_char(replace_char(time, '.', "\\."@), '+', "\\+"@)
}

/// The driver that a results row describes, with number (cell 3), laps (6)
/// and points (8) read as numbers; `None` where a cell cannot be read, a
/// number does not parse, or the name (cell 4) has fewer than three
/// non-blank lines.
pub open spec fn row_driver(cells: Seq<CellView>) -> Option<DriverData> {
    match (
        cell_value(cells, 2),
        cell_value(cells, 3),
        cell_value(cells, 5),
        cell_value(cells, 6),
        cell_value(cells, 7),
        cell_value(cells, 8),
        cell_value(cells, 4),
    ) {
        (Some(position), Some(number), Some(team), Some(laps), Some(time), Some(points), Some(name)) => {
            let names = nonblank_lines(name);
            match (parsed_u8(number), parsed_u8(laps), parsed_u8(points)) {
                (Some(number), Some(laps), Some(points)) => if names.len() < 3 {
                    None
                } else {
                    Some(
                        DriverData {
                            position: trim(position),
                            number,
                            first_name: names[0],
                            second_name: names[1],
                            short_name: names[2],
                            team,
                            laps,
                            time: escaped_time(time),
                            points,
                        },
                    )
                },
                _ => None,
            }
        },
        _ => None,
    }
}

/// A row describes a driver exactly when cells 2 to 8 hold text, cells 3,
/// 6 and 8 parse as numbers and the name cell (4) has at least three
/// non-blank lines; the driver then holds those values, and its time is cell
/// 7 with every `.` and every `+` behind a backslash.
pub proof fn lemma_row_driver(cells: Seq<CellView>)
    ensures
        row_driver(cells) is Some <==> cells_found(cells) && parsed_u8(cells[2]->Found_0) is Some
            && parsed_u8(cells[5]->Found_0) is Some && parsed_u8(cells[7]->Found_0) is Some
            && nonblank_lines(cells[3]->Found_0).len() >= 3,
        row_driver(cells) matches Some(d) ==> {
            &&& d.position == trim(cells[1]->Found_0)
            &&& parsed_u8(cells[2]->Found_0) == Some(d.number)
            &&& d.first_name == nonblank_lines(cells[3]->Found_0)[0]
            &&& d.second_name == nonblank_lines(cells[3]->Found_0)[1]
            &&& d.short_name == nonblank_lines(cells[3]->Found_0)[2]
            &&& d.team == cells[4]->Found_0
            &&& parsed_u8(cells[5]->Found_0) == Some(d.laps)
            &&& d.time == escaped_time(cells[6]->Found_0)
            &&& escaped_everywhere(d.time, '.')
            &&& escaped_everywhere(d.time, '+')
            &&& parsed_u8(cells[7]->Found_0) == Some(d.points)
        },
{
    if cells.len() >= 7 {
        let time = cells[6]->Found_0;
        reveal_strlit("\\.");
        reveal_strlit("\\+");
        assert("\\."@ == seq!['\\', '.']);
        assert("\\+"@ == seq!['\\', '+']);
        lemma_replace_char_escapes(time, '.');
        lemma_replace_char_keeps_escapes(replace_char(time, '.', "\\."@), '.', '+');
        lemma_replace_char_escapes(replace_char(time, '.', "\\."@), '+');
    }
}

/// Reads the driver that a results row describes.
pub fn parse_driver_from_row(row: &Row) -> (res: Option<Driver>)
    ensures
        match res {
            Some(d) => row_driver(row@) == Some(d@),
            None => row_driver(row@) is None,
        },
        res matches Some(d) ==> escaped_everywhere(d.time@, '.') && escaped_everywhere(
            d.time@,
            '+',
        ) && d.time@ == escaped_time(row@[6]->Found_0),
{
    proof {
        lemma_row_driver(row@);
    }
    let position = get_text_from_nth_child(row, 2);
    let number = get_text_from_nth_child(row, 3);
    let team = get_text_from_nth_child(row, 5);
    let laps = get_text_from_nth_child(row, 6);
    let time = get_text_from_nth_child(row, 7);
    let points = get_text_from_nth_child(row, 8);
    let name = get_text_from_nth_child(row, 4);
    match (position, number, team, laps, time, points, name) {
        (Some(position), Some(number), Some(team), Some(laps), Some(time), Some(points), Some(name)) => {
            let number = parse_u8(&chars_of(number.as_str()));
            let laps = parse_u8(&chars_of(laps.as_str()));
            let points = parse_u8(&chars_of(points.as_str()));
            match (number, laps, points) {
                (Some(number), Some(laps), Some(points)) => {
                    let names = nonblank_lines_of(&chars_of(name.as_str()));
                    if names.len() < 3 {
                        return None;
                    }
                    let ghost name_views = names.deep_view();
                    assert(name_views[0] == names@[0]@) by {
                        crate::text::lemma_chars_deep_view(&names@[0]);
                    }
                    assert(name_views[1] == names@[1]@) by {
                        crate::text::lemma_chars_deep_view(&names@[1]);
                    }
                    assert(name_views[2] == names@[2]@) by {
                        crate::text::lemma_chars_deep_view(&names@[2]);
                    }
                    let dots = replaced_char(&chars_of(time.as_str()), '.', &chars_of("\\."));
                    let time = replaced_char(&dots, '+', &chars_of("\\+"));
                    Some(
                        Driver::new(
                            string_of(&trimmed(&chars_of(position.as_str()))),
                            number,
                            string_of(&names[0]),
                            string_of(&names[1]),
                            string_of(&names[2]),
                            team,
                            laps,
                            string_of(&time),
                            points,
                        ),
                    )
                },
                _ => None,
            }
        },
        _ => None,
    }
}

/// The drivers of all rows, where every row describes one.
pub open spec fn all_row_drivers(rows: Seq<Seq<CellView>>) -> Option<Seq<DriverData>>
    decreases rows.len(),
{
    if rows.len() == 0 {
        Some(Seq::empty())
    } else {
        match (all_row_drivers(rows.drop_last()), row_driver(rows.last())) {
            (Some(before), Some(d)) => Some(before.push(d)),
            _ => None,
        }
    }
}

proof fn lemma_all_row_drivers_none(rows: Seq<Seq<CellView>>, k: int)
    requires
        0 <= k <= rows.len(),
        all_row_drivers(rows.take(k)) is None,
    ensures
        all_row_drivers(rows) is None,
    decreases rows.len(),
{
    if k == rows.len() {
        assert(rows.take(k) =~= rows);
    } else {
        assert(rows.drop_last().take(k) =~= rows.take(k));
        lemma_all_row_drivers_none(rows.drop_last(), k);
    }
}

/// Drivers, by their views.
pub open spec fn drivers_view(drivers: Seq<Driver>) -> Seq<DriverData> {
    drivers.map_values(|d: Driver| d@)
}

/// The drivers of a race page: the rows (`tbody tr`) of a fresh parse of the
/// HTML of its first `.resultsarchive-table` element; `None` where there is
/// no such element, scraper rejects a selector, or a row does not describe a
/// driver.
pub open spec fn results_of_page(page: Seq<char>) -> Option<Seq<DriverData>> {
    if !selector_accepted(".resultsarchive-table"@) || selected_html(
        page,
        ".resultsarchive-table"@,
    ).len() == 0 || !selector_accepted("tbody tr"@) {
        None
    } else {
        all_row_drivers(page_rows(selected_html(page, ".resultsarchive-table"@)[0], "tbody tr"@))
    }
}

/// Reads every driver of a race page.
pub fn get_results(page: &str) -> (res: Option<Vec<Driver>>)
    ensures
        match res {
            Some(drivers) => results_of_page(page@) == Some(drivers_view(drivers@)),
            None => results_of_page(page@) is None,
        },
{
    let document = Document::parse(page);
    let table_selector = match Query::parse(".resultsarchive-table") {
        Some(q) => q,
        None => return None,
    };
    let tables = document.select_html(&table_selector);
    if tables.len() == 0 {
        return None;
    }
    assert(tables.deep_view()[0] == tables@[0]@);
    let table = Document::parse(tables[0].as_str());
    let row_selector = match Query::parse("tbody tr") {
        Some(q) => q,
        None => return None,
    };
    let rows = page_rows_of(&table, &row_selector);
    let ghost row_views = rows@.map_values(|r: Row| r@);
    let mut drivers: Vec<Driver> = Vec::new();
    assert(results_of_page(page@) == all_row_drivers(row_views));
    assert(row_views.take(0) =~= Seq::<Seq<CellView>>::empty());
    assert(drivers_view(drivers@) =~= Seq::<DriverData>::empty());
    for i in 0..rows.len()
        invariant
            results_of_page(page@) == all_row_drivers(row_views),
            row_views == rows@.map_values(|r: Row| r@),
            all_row_drivers(row_views.take(i as int)) == Some(drivers_view(drivers@)),
    {
        assert(row_views.take(i + 1).drop_last() =~= row_views.take(i as int));
        assert(row_views.take(i + 1).last() == rows@[i as int]@);
        match parse_driver_from_row(&rows[i]) {
            Some(d) => {
                let ghost before = drivers_view(drivers@);
                drivers.push(d);
                assert(drivers_view(drivers@) =~= before.push(drivers@.last()@));
            },
            None => {
                proof {
                    lemma_all_row_drivers_none(row_views, i + 1);
                }
                return None;
            },
        }
    }
    assert(row_views.take(rows@.len() as int) =~= row_views);
    Some(drivers)
}

/// The messages of `drivers`, one after another.
pub open spec fn drivers_text(drivers: Seq<DriverData>) -> Seq<char>
    decreases drivers.len(),
{
    if drivers.len() == 0 {
        Seq::empty()
    } else {
        drivers_text(drivers.drop_last()) + driver_message(drivers.last())
    }
}

/// The drivers' text is each driver's message, one after another, for any
/// drivers: none gives nothing, one gives its message, and two lists in a
/// row give their texts in a row.
pub proof fn lemma_drivers_text(a: Seq<DriverData>, b: Seq<DriverData>)
    ensures
        drivers_text(Seq::empty()) == Seq::<char>::empty(),
        a.len() == 1 ==> drivers_text(a) == driver_message(a[0]),
        drivers_text(a + b) == drivers_text(a) + drivers_text(b),
    decreases b.len(),
{
    if a.len() == 1 {
        assert(a.drop_last() =~= Seq::<DriverData>::empty());
        assert(drivers_text(a.drop_last()) == Seq::<char>::empty());
        assert(a.last() == a[0]);
        assert(drivers_text(a) =~= Seq::<char>::empty() + driver_message(a[0]));
    }
    if b.len() == 0 {
        assert(a + b =~= a);
        assert(drivers_text(a) + drivers_text(b) =~= drivers_text(a));
    } else {
        lemma_drivers_text(a, b.drop_last());
        assert((a + b).drop_last() =~= a + b.drop_last());
        assert((a + b).last() == b.last());
        assert(drivers_text(a + b) =~= drivers_text(a) + drivers_text(b));
    }
}

/// The message that announces a race's results: the race name, an empty
/// line, then the drivers' messages hidden as one spoiler.
pub open spec fn results_message(race_name: Seq<char>, drivers: Seq<DriverData>) -> Seq<char> {
    race_name + "\n\n"@ + "||"@ + drivers_text(drivers) + "||"@
}

/// The message that announces a race's results, with the drivers of
/// `results_page` and the race name of `name_page`; `None` where either
/// cannot be read.
pub fn prepare_bot_message(results_page: &str, name_page: &str) -> (res: Option<String>)
    ensures
        match res {
            Some(text) => results_of_page(results_page@) matches Some(drivers)
                && race_name_of_page(name_page@) matches Some(name) && text@ == results_message(
                name,
                drivers,
            ),
            None => results_of_page(results_page@) is None || race_name_of_page(name_page@) is None,
        },
{
    let drivers = match get_results(results_page) {
        Some(d) => d,
        None => return None,
    };
    let race_name = match get_race_name(name_page) {
        Some(n) => n,
        None => return None,
    };
    let mut text = String::new();
    text.append(race_name.as_str());
    text.append("\n\n");
    text.append("||");
    let ghost head = text@;
    let ghost views = drivers_view(drivers@);
    for i in 0..drivers.len()
        invariant
            views == drivers_view(drivers@),
            head == race_name@ + "\n\n"@ + "||"@,
            text@ == head + drivers_text(views.take(i as int)),
    {
        let message = drivers[i].to_string();
        assert(views.take(i + 1).drop_last() =~= views.take(i as int));
        assert(views.take(i + 1).last() == drivers@[i as int]@);
        text.append(message.as_str());
        assert(text@ =~= head + drivers_text(views.take(i + 1)));
    }
    assert(views.take(drivers@.len() as int) =~= views);
    text.append("||");
    assert(text@ =~= results_message(race_name@, views));
    Some(text)
}

} // verus!
