use vstd::prelude::*;
use crate::html::{first_inner_texts, selected_texts, selector_accepted, Document, Query};
use crate::markdown::{
    escape, is_markdown_special, lemma_escape_then_unescape, lemma_escaped_specials_follow_backslash,
    markdown_escaped, markdown_unescaped,
};
use crate::text::{
    chars_of, decimal, decimal_chars, nonblank_lines, nonblank_lines_of, push_char, same_text,
    string_of, trim, trimmed,
};

verus! {

broadcast use vstd::string::group_string_axioms;

/// One driver's line of a race result, as the results table shows it.
pub struct Driver {
    pub position: String,
    pub number: String,
    pub first_name: String,
    pub second_name: String,
    pub short_name: String,
    pub team: String,
    pub laps: String,
    pub time: String,
    pub points: String,
}

/// The text of each field of a `Driver`.
pub struct DriverData {
    pub position: Seq<char>,
    pub number: Seq<char>,
    pub first_name: Seq<char>,
    pub second_name: Seq<char>,
    pub short_name: Seq<char>,
    pub team: Seq<char>,
    pub laps: Seq<char>,
    pub time: Seq<char>,
    pub points: Seq<char>,
}

impl View for Driver {
    type V = DriverData;

    open spec fn view(&self) -> DriverData {
        DriverData {
            position: self.position@,
            number: self.number@,
            first_name: self.first_name@,
            second_name: self.second_name@,
            short_name: self.short_name@,
            team: self.team@,
            laps: self.laps@,
            time: self.time@,
            points: self.points@,
        }
    }
}

/// The emoji that opens a driver's message: a trophy or medal for the first
/// three places, a cross for a driver who did not finish, a flag otherwise.
pub open spec fn podium_emoji(position: Seq<char>, time: Seq<char>) -> char {
    if position == "1"@ {
        '🏆'
    } else if position == "2"@ {
        '🥈'
    } else if position == "3"@ {
        '🥉'
    } else if time == "DNF"@ {
        '❌'
    } else {
        '🏁'
    }
}

/// The trophy goes to the winner alone (position text "1"), the medals to
/// positions "2" and "3"; any other position gets the cross when the driver
/// did not finish (time "DNF") and the flag otherwise.
pub proof fn lemma_podium_emoji(position: Seq<char>, time: Seq<char>)
    ensures
        podium_emoji(position, time) == '🏆' <==> position == "1"@,
        podium_emoji(position, time) == '🥈' <==> position == "2"@,
        podium_emoji(position, time) == '🥉' <==> position == "3"@,
        position != "1"@ && position != "2"@ && position != "3"@ ==> (podium_emoji(position, time)
            == '❌' <==> time == "DNF"@) && (podium_emoji(position, time) == '🏁' <==> time
            != "DNF"@),
{
    reveal_strlit("1");
    reveal_strlit("2");
    reveal_strlit("3");
    assert("1"@ != "2"@ && "1"@ != "3"@ && "2"@ != "3"@) by {
        assert("1"@[0] != "2"@[0] && "1"@[0] != "3"@[0] && "2"@[0] != "3"@[0]);
    }
}

/// The MarkdownV2 text that presents one driver's result, ending in a line
/// break.
pub open spec fn driver_message(d: DriverData) -> Seq<char> {
    seq![podium_emoji(d.position, d.time)] + " *"@ + d.first_name + " "@ + d.second_name + "*▫️"@
        + d.short_name + "▫️"@ + d.number + " \n    ⚬ Position: "@ + d.position
        + " \n    ⚬ Team: "@ + d.team + " \n    ⚬ Points: "@ + d.points + " \n    ⚬ Laps: "@
        + d.laps + " \n    ⚬ Time: "@ + d.time + " \n \n"@
}

impl Driver {
    /// A driver made of the given fields.
    pub fn new(
        position: String,
        number: String,
        first_name: String,
        second_name: String,
        short_name: String,
        team: String,
        laps: String,
        time: String,
        points: String,
    ) -> (d: Driver)
        ensures
            d@ == (DriverData {
                position: position@,
                number: number@,
                first_name: first_name@,
                second_name: second_name@,
                short_name: short_name@,
                team: team@,
                laps: laps@,
                time: time@,
                points: points@,
            }),
    {
        Driver {
            position,
            number,
            first_name,
            second_name,
            short_name,
            team,
            laps,
            time,
            points,
        }
    }

    /// The MarkdownV2 message that presents this driver's result.
    pub fn to_string(&self) -> (s: String)
        ensures
            s@ == driver_message(self@),
            s@.len() > 0,
            self.position@ == "1"@ ==> s@[0] == '🏆',
            self.position@ == "2"@ ==> s@[0] == '🥈',
            self.position@ == "3"@ ==> s@[0] == '🥉',
            self.position@ != "1"@ && self.position@ != "2"@ && self.position@ != "3"@ ==> (s@[0]
                == '❌' <==> self.time@ == "DNF"@) && (s@[0] == '🏁' <==> self.time@ != "DNF"@),
    {
        proof {
            lemma_podium_emoji(self.position@, self.time@);
        }
        let emoji = if same_text(self.position.as_str(), "1") {
            '🏆'
        } else if same_text(self.position.as_str(), "2") {
            '🥈'
        } else if same_text(self.position.as_str(), "3") {
            '🥉'
        } else if same_text(self.time.as_str(), "DNF") {
            '❌'
        } else {
            '🏁'
        };
        let mut s = String::new();
        push_char(&mut s, emoji);
        s.append(" *");
        s.append(self.first_name.as_str());
        s.append(" ");
        s.append(self.second_name.as_str());
        s.append("*▫️");
        s.append(self.short_name.as_str());
        s.append("▫️");
        s.append(self.number.as_str());
        s.append(" \n    ⚬ Position: ");
        s.append(self.position.as_str());
        s.append(" \n    ⚬ Team: ");
        s.append(self.team.as_str());
        s.append(" \n    ⚬ Points: ");
        s.append(self.points.as_str());
        s.append(" \n    ⚬ Laps: ");
        s.append(self.laps.as_str());
        s.append(" \n    ⚬ Time: ");
        s.append(self.time.as_str());
        s.append(" \n \n");
        assert(s@ =~= driver_message(self@));
        s
    }
}

/// What looking up a row's `td:nth-child(n)` cell finds.
pub enum CellLookup {
    /// scraper rejected the cell's selector.
    SelectorRejected,
    /// The row has no such cell.
    NotFound,
    /// The text of the cell.
    Found(String),
}

/// What a cell lookup finds, as text.
pub enum CellView {
    SelectorRejected,
    NotFound,
    Found(Seq<char>),
}

impl View for CellLookup {
    type V = CellView;

    open spec fn view(&self) -> CellView {
        match self {
            CellLookup::SelectorRejected => CellView::SelectorRejected,
            CellLookup::NotFound => CellView::NotFound,
            CellLookup::Found(text) => CellView::Found(text@),
        }
    }
}

/// One row of a results table: `cells[n - 1]` is what the lookup of the
/// row's `td:nth-child(n)` cell found.
pub struct Row {
    pub cells: Vec<CellLookup>,
}

impl View for Row {
    type V = Seq<CellView>;

    open spec fn view(&self) -> Seq<CellView> {
        self.cells@.map_values(|c: CellLookup| c@)
    }
}

/// The text of cell `n` (counted from 1) of a row, or the error message for
/// a cell that cannot be read.
pub open spec fn cell_text(cells: Seq<CellView>, n: int) -> Result<Seq<char>, Seq<char>> {
    if 1 <= n <= cells.len() {
        match cells[n - 1] {
            CellView::SelectorRejected => Err("Failed to parse selector"@),
            CellView::NotFound => Err("Failed to find element"@),
            CellView::Found(text) => Ok(text),
        }
    } else {
        Err("Failed to find element"@)
    }
}

/// A `Result` of text and error message, by its text.
pub open spec fn text_result(r: Result<String, &'static str>) -> Result<Seq<char>, Seq<char>> {
    match r {
        Ok(t) => Ok(t@),
        Err(e) => Err(e@),
    }
}

/// A `Result` of driver and error message, by its text.
pub open spec fn driver_result(r: Result<Driver, &'static str>) -> Result<DriverData, Seq<char>> {
    match r {
        Ok(d) => Ok(d@),
        Err(e) => Err(e@),
    }
}

/// The text of the row's `td:nth-child(nth_child)` cell.
pub fn get_text_from_nth_child(row: &Row, nth_child: usize) -> (res: Result<String, &'static str>)
    ensures
        text_result(res) == cell_text(row@, nth_child as int),
{
    if 1 <= nth_child && nth_child <= row.cells.len() {
        match &row.cells[nth_child - 1] {
            CellLookup::SelectorRejected => Err("Failed to parse selector"),
            CellLookup::NotFound => Err("Failed to find element"),
            CellLookup::Found(text) => Ok(text.clone()),
        }
    } else {
        Err("Failed to find element")
    }
}

/// The driver that a results row describes: position (cell 2, trimmed),
/// number (3), name (4: its first three non-blank lines, trimmed, are the
/// first name, second name and short name), team (5), laps (6), time (7,
/// escaped for MarkdownV2) and points (8). The first cell that cannot be
/// read, in the order 2, 3, 5, 6, 7, 8, 4, gives the error; a name of fewer
/// than three lines gives "Failed to parse driver name".
pub open spec fn row_driver(cells: Seq<CellView>) -> Result<DriverData, Seq<char>> {
    match cell_text(cells, 2) {
        Err(e) => Err(e),
        Ok(position) => match cell_text(cells, 3) {
            Err(e) => Err(e),
            Ok(number) => match cell_text(cells, 5) {
                Err(e) => Err(e),
                Ok(team) => match cell_text(cells, 6) {
                    Err(e) => Err(e),
                    Ok(laps) => match cell_text(cells, 7) {
                        Err(e) => Err(e),
                        Ok(time) => match cell_text(cells, 8) {
                            Err(e) => Err(e),
                            Ok(points) => match cell_text(cells, 4) {
                                Err(e) => Err(e),
                                Ok(name) => {
                                    let names = nonblank_lines(name);
                                    if names.len() < 3 {
                                        Err("Failed to parse driver name"@)
                                    } else {
                                        Ok(
                                            DriverData {
                                                position: trim(position),
                                                number,
                                                first_name: names[0],
                                                second_name: names[1],
                                                short_name: names[2],
                                                team,
                                                laps,
                                                time: markdown_escaped(time),
                                                points,
                                            },
                                        )
                                    }
                                },
                            },
                        },
                    },
                },
            },
        },
    }
}

/// Whether cells 2 to 8 of a row all hold text.
pub open spec fn cells_found(cells: Seq<CellView>) -> bool {
    &&& cells.len() >= 8
    &&& cells[1] is Found
    &&& cells[2] is Found
    &&& cells[3] is Found
    &&& cells[4] is Found
    &&& cells[5] is Found
    &&& cells[6] is Found
    &&& cells[7] is Found
}

/// A row describes a driver exactly when cells 2 to 8 hold text and the
/// name cell (4) has at least three non-blank lines; the driver is then made
/// of those texts: position is cell 2 trimmed, number cell 3, the names the
/// first three non-blank lines of cell 4, team cell 5, laps cell 6, points
/// cell 8, and the time is cell 7 escaped for MarkdownV2, whatever it holds:
/// every special character of it, `+` and `.` alike, stands behind a
/// backslash, and unescaping gives cell 7 back.
pub proof fn lemma_row_driver(cells: Seq<CellView>)
    ensures
        row_driver(cells) is Ok <==> cells_found(cells) && nonblank_lines(
            cells[3]->Found_0,
        ).len() >= 3,
        row_driver(cells) matches Ok(d) ==> {
            &&& d.position == trim(cells[1]->Found_0)
            &&& d.number == cells[2]->Found_0
            &&& d.first_name == nonblank_lines(cells[3]->Found_0)[0]
            &&& d.second_name == nonblank_lines(cells[3]->Found_0)[1]
            &&& d.short_name == nonblank_lines(cells[3]->Found_0)[2]
            &&& d.team == cells[4]->Found_0
            &&& d.laps == cells[5]->Found_0
            &&& d.time == markdown_escaped(cells[6]->Found_0)
            &&& markdown_unescaped(d.time) == cells[6]->Found_0
            &&& forall|i: int|
                0 <= i < d.time.len() && is_markdown_special(#[trigger] d.time[i]) && d.time[i]
                    != '\\' ==> i > 0 && d.time[i - 1] == '\\'
            &&& d.points == cells[7]->Found_0
        },
{
    if cells.len() >= 7 {
        lemma_escape_then_unescape(cells[6]->Found_0);
        lemma_escaped_specials_follow_backslash(cells[6]->Found_0);
    }
}

/// Reads the driver that a results row describes.
pub fn parse_driver_from_row(row: &Row) -> (res: Result<Driver, &'static str>)
    ensures
        driver_result(res) == row_driver(row@),
        res is Ok <==> cells_found(row@) && nonblank_lines(row@[3]->Found_0).len() >= 3,
        res matches Ok(d) ==> d.time@ == markdown_escaped(row@[6]->Found_0) && d.position@ == trim(
            row@[1]->Found_0,
        ) && d.number@ == row@[2]->Found_0 && d.team@ == row@[4]->Found_0 && d.laps@ == row@[5]->Found_0
            && d.points@ == row@[7]->Found_0 && d.first_name@ == nonblank_lines(row@[3]->Found_0)[0]
            && d.second_name@ == nonblank_lines(row@[3]->Found_0)[1] && d.short_name@
            == nonblank_lines(row@[3]->Found_0)[2],
{
    proof {
        lemma_row_driver(row@);
    }
    let position = match get_text_from_nth_child(row, 2) {
        Ok(t) => t,
        Err(e) => return Err(e),
    };
    let number = match get_text_from_nth_child(row, 3) {
        Ok(t) => t,
        Err(e) => return Err(e),
    };
    let team = match get_text_from_nth_child(row, 5) {
        Ok(t) => t,
        Err(e) => return Err(e),
    };
    let laps = match get_text_from_nth_child(row, 6) {
        Ok(t) => t,
        Err(e) => return Err(e),
    };
    let time = match get_text_from_nth_child(row, 7) {
        Ok(t) => escape(t.as_str()),
        Err(e) => return Err(e),
    };
    let points = match get_text_from_nth_child(row, 8) {
        Ok(t) => t,
        Err(e) => return Err(e),
    };
    let name = match get_text_from_nth_child(row, 4) {
        Ok(t) => t,
        Err(e) => return Err(e),
    };
    let names = nonblank_lines_of(&chars_of(name.as_str()));
    if names.len() < 3 {
        return Err("Failed to parse driver name");
    }
    let ghost name_views = names.deep_view();
    assert(name_views[0] == names@[0]@) by {
        crate::text::lemma_chars_deep_view(&names@[0]);
    }
    assert(name_views[1] == names@[1]@) by {
        crate::text::lemma_chars_deep_view(&names@[1]);
    }
    assert(name_views[2] == names@[2]@) by {
        crate::text::lemma_chars_deep_view(&names@[2]);
    }
    let position = string_of(&trimmed(&chars_of(position.as_str())));
    Ok(
        Driver::new(
            position,
            number,
            string_of(&names[0]),
            string_of(&names[1]),
            string_of(&names[2]),
            team,
            laps,
            time,
            points,
        ),
    )
}

/// The selector of a row's `n`-th cell: `td:nth-child(n)`.
pub open spec fn nth_child_selector(n: nat) -> Seq<char> {
    "td:nth-child("@ + decimal(n) + ")"@
}

/// The number of cells of a results row that are looked up.
pub const ROW_CELLS: usize = 8;

/// What the lookup of cell `n` of the `r`-th row (rows: the matches of
/// `row_selector` in `page`) finds.
pub open spec fn page_cell(page: Seq<char>, row_selector: Seq<char>, r: int, n: nat) -> CellView {
    if !selector_accepted(nth_child_selector(n)) {
        CellView::SelectorRejected
    } else {
        match first_inner_texts(page, row_selector, nth_child_selector(n))[r] {
            Some(text) => CellView::Found(text),
            None => CellView::NotFound,
        }
    }
}

/// The rows of `page` that `row_selector` matches, each with the lookups of
/// its first `ROW_CELLS` cells.
pub open spec fn page_rows(page: Seq<char>, row_selector: Seq<char>) -> Seq<Seq<CellView>> {
    Seq::new(
        selected_texts(page, row_selector).len(),
        |r: int| Seq::new(ROW_CELLS as nat, |k: int| page_cell(page, row_selector, r, (k + 1) as nat)),
    )
}

/// The selector `td:nth-child(n)`.
fn nth_child_selector_text(n: u64) -> (s: String)
    ensures
        s@ == nth_child_selector(n as nat),
{
    let mut s = String::new();
    s.append("td:nth-child(");
    let digits = string_of(&decimal_chars(n));
    s.append(digits.as_str());
    s.append(")");
    s
}

/// The rows of `doc` that `rows` matches, each with the lookups of its first
/// `ROW_CELLS` cells.
pub(crate) fn page_rows_of(doc: &Document, rows: &Query) -> (res: Vec<Row>)
    ensures
        res@.map_values(|r: Row| r@) == page_rows(doc@, rows@),
{
    let count: usize = doc.select_texts(rows).len();
    let mut columns: Vec<Option<Vec<Option<String>>>> = Vec::new();
    for k in 0..ROW_CELLS
        invariant
            columns@.len() == k,
            forall|j: int|
                0 <= j < k ==> match #[trigger] columns@[j] {
                    None => !selector_accepted(nth_child_selector((j + 1) as nat)),
                    Some(col) => selector_accepted(nth_child_selector((j + 1) as nat))
                        && col.deep_view() == first_inner_texts(
                        doc@,
                        rows@,
                        nth_child_selector((j + 1) as nat),
                    ) && col@.len() == count,
                },
            count == selected_texts(doc@, rows@).len(),
    {
        let selector = nth_child_selector_text((k + 1) as u64);
        match Query::parse(selector.as_str()) {
            Some(cell) => columns.push(Some(doc.select_first_inner_texts(rows, &cell))),
            None => columns.push(None),
        }
    }
    let mut res: Vec<Row> = Vec::new();
    for r in 0..count
        invariant
            columns@.len() == ROW_CELLS,
            forall|j: int|
                0 <= j < ROW_CELLS ==> match #[trigger] columns@[j] {
                    None => !selector_accepted(nth_child_selector((j + 1) as nat)),
                    Some(col) => selector_accepted(nth_child_selector((j + 1) as nat))
                        && col.deep_view() == first_inner_texts(
                        doc@,
                        rows@,
                        nth_child_selector((j + 1) as nat),
                    ) && col@.len() == count,
                },
            count == selected_texts(doc@, rows@).len(),
            res@.len() == r,
            forall|i: int| 0 <= i < r ==> (#[trigger] res@[i])@ == page_rows(doc@, rows@)[i],
    {
        let mut cells: Vec<CellLookup> = Vec::new();
        for k in 0..ROW_CELLS
            invariant
                columns@.len() == ROW_CELLS,
                forall|j: int|
                    0 <= j < ROW_CELLS ==> match #[trigger] columns@[j] {
                        None => !selector_accepted(nth_child_selector((j + 1) as nat)),
                        Some(col) => selector_accepted(nth_child_selector((j + 1) as nat))
                            && col.deep_view() == first_inner_texts(
                            doc@,
                            rows@,
                            nth_child_selector((j + 1) as nat),
                        ) && col@.len() == count,
                    },
                r < count,
                cells@.len() == k,
                forall|j: int|
                    0 <= j < k ==> (#[trigger] cells@[j])@ == page_cell(
                        doc@,
                        rows@,
                        r as int,
                        (j + 1) as nat,
                    ),
        {
            let cell = match &columns[k] {
                None => CellLookup::SelectorRejected,
                Some(col) => match &col[r] {
                    Some(text) => CellLookup::Found(text.clone()),
                    None => CellLookup::NotFound,
                },
            };
            proof {
                let j = k as int;
                match columns@[j] {
                    None => {},
                    Some(col) => {
                        assert(col.deep_view()[r as int] == col@[r as int].deep_view());
                    },
                }
            }
            cells.push(cell);
        }
        let row = Row { cells };
        assert(row@ =~= page_rows(doc@, rows@)[r as int]);
        res.push(row);
    }
    assert(res@.map_values(|r: Row| r@) =~= page_rows(doc@, rows@));
    res
}

/// The drivers of the rows that describe one, in order; rows that do not
/// are left out.
pub open spec fn parsed_drivers(rows: Seq<Seq<CellView>>) -> Seq<DriverData>
    decreases rows.len(),
{
    if rows.len() == 0 {
        Seq::empty()
    } else {
        let before = parsed_drivers(rows.drop_last());
        match row_driver(rows.last()) {
            Ok(d) => before.push(d),
            Err(_) => before,
        }
    }
}

/// The indices of the rows that describe a driver, in order.
spec fn driver_rows(rows: Seq<Seq<CellView>>) -> Seq<int>
    decreases rows.len(),
{
    if rows.len() == 0 {
        Seq::empty()
    } else {
        let before = driver_rows(rows.drop_last());
        match row_driver(rows.last()) {
            Ok(_) => before.push(rows.len() - 1),
            Err(_) => before,
        }
    }
}

proof fn lemma_driver_rows(rows: Seq<Seq<CellView>>)
    ensures
        driver_rows(rows).len() == parsed_drivers(rows).len(),
        forall|j: int|
            0 <= j < driver_rows(rows).len() ==> 0 <= #[trigger] driver_rows(rows)[j] < rows.len()
                && row_driver(rows[driver_rows(rows)[j]]) == Ok::<DriverData, Seq<char>>(
                parsed_drivers(rows)[j],
            ),
        forall|j: int, k: int|
            0 <= j < k < driver_rows(rows).len() ==> #[trigger] driver_rows(rows)[j]
                < #[trigger] driver_rows(rows)[k],
        forall|i: int|
            0 <= i < rows.len() && (#[trigger] row_driver(rows[i])) is Ok ==> exists|j: int|
                0 <= j < driver_rows(rows).len() && #[trigger] driver_rows(rows)[j] == i,
    decreases rows.len(),
{
    if rows.len() > 0 {
        let before = rows.drop_last();
        lemma_driver_rows(before);
        let picked = driver_rows(rows);
        let old_picked = driver_rows(before);
        let drivers = parsed_drivers(rows);
        let old_drivers = parsed_drivers(before);
        assert forall|j: int| 0 <= j < picked.len() implies 0 <= #[trigger] picked[j] < rows.len()
            && row_driver(rows[picked[j]]) == Ok::<DriverData, Seq<char>>(drivers[j]) by {
            if j < old_picked.len() {
                assert(picked[j] == old_picked[j]);
                assert(drivers[j] == old_drivers[j]);
                assert(rows[old_picked[j]] == before[old_picked[j]]);
            }
        }
        assert forall|j: int, k: int| 0 <= j < k < picked.len() implies #[trigger] picked[j]
            < #[trigger] picked[k] by {
            if k < old_picked.len() {
                assert(picked[j] == old_picked[j]);
                assert(picked[k] == old_picked[k]);
            } else {
                assert(picked[j] == old_picked[j]);
            }
        }
        assert forall|i: int| 0 <= i < rows.len() && (#[trigger] row_driver(rows[i])) is Ok implies exists|
            j: int,
        | 0 <= j < picked.len() && #[trigger] picked[j] == i by {
            if i < rows.len() - 1 {
                assert(before[i] == rows[i]);
                assert(row_driver(before[i]) is Ok);
                let j = choose|j: int| 0 <= j < old_picked.len() && #[trigger] old_picked[j] == i;
                assert(picked[j] == old_picked[j]);
            } else {
                assert(rows[i] == rows.last());
                assert(picked[picked.len() - 1] == i);
            }
        }
    }
}

/// No row that describes a driver is left out: the drivers that the rows
/// give are those of the rows that describe one (any driver, whatever his
/// time), one for each such row, in row order; only rows that cannot be
/// read give none.
pub proof fn lemma_parsed_drivers_keep_every_driver(rows: Seq<Seq<CellView>>)
    ensures
        exists|picked: Seq<int>|
            {
                &&& #[trigger] picked.len() == parsed_drivers(rows).len()
                &&& forall|j: int|
                    0 <= j < picked.len() ==> 0 <= #[trigger] picked[j] < rows.len() && row_driver(
                        rows[picked[j]],
                    ) == Ok::<DriverData, Seq<char>>(parsed_drivers(rows)[j])
                &&& forall|j: int, k: int|
                    0 <= j < k < picked.len() ==> #[trigger] picked[j] < #[trigger] picked[k]
                &&& forall|i: int|
                    0 <= i < rows.len() && (#[trigger] row_driver(rows[i])) is Ok ==> exists|j: int|
                        0 <= j < picked.len() && #[trigger] picked[j] == i
            },
{
    lemma_driver_rows(rows);
    let picked = driver_rows(rows);
    assert(picked.len() == parsed_drivers(rows).len());
}

/// The drivers of the rows in `rows` that describe one, in order.
pub fn drivers_of_rows(rows: &Vec<Row>) -> (res: Vec<Driver>)
    ensures
        res@.map_values(|d: Driver| d@) == parsed_drivers(rows@.map_values(|r: Row| r@)),
        exists|picked: Seq<int>|
            {
                &&& #[trigger] picked.len() == res@.len()
                &&& forall|j: int|
                    0 <= j < picked.len() ==> 0 <= #[trigger] picked[j] < rows@.len() && row_driver(
                        rows@[picked[j]]@,
                    ) == Ok::<DriverData, Seq<char>>(res@[j]@)
                &&& forall|j: int, k: int|
                    0 <= j < k < picked.len() ==> #[trigger] picked[j] < #[trigger] picked[k]
                &&& forall|i: int|
                    0 <= i < rows@.len() && (#[trigger] row_driver(rows@[i]@)) is Ok ==> exists|
                        j: int,
                    | 0 <= j < picked.len() && #[trigger] picked[j] == i
            },
{
    let mut res: Vec<Driver> = Vec::new();
    for i in 0..rows.len()
        invariant
            res@.map_values(|d: Driver| d@) == parsed_drivers(
                rows@.map_values(|r: Row| r@).take(i as int),
            ),
    {
        let ghost views = rows@.map_values(|r: Row| r@);
        assert(views.take(i + 1).drop_last() =~= views.take(i as int));
        assert(views.take(i + 1).last() == rows@[i as int]@);
        let ghost before = res@.map_values(|d: Driver| d@);
        match parse_driver_from_row(&rows[i]) {
            Ok(d) => {
                res.push(d);
                assert(res@.map_values(|d: Driver| d@) =~= before.push(res@.last()@));
            },
            Err(_) => {},
        }
    }
    assert(rows@.map_values(|r: Row| r@).take(rows@.len() as int) =~= rows@.map_values(
        |r: Row| r@,
    ));
    proof {
        let views = rows@.map_values(|r: Row| r@);
        lemma_driver_rows(views);
        let picked = driver_rows(views);
        let drivers = res@.map_values(|d: Driver| d@);
        assert forall|j: int| 0 <= j < picked.len() implies 0 <= #[trigger] picked[j] < rows@.len()
            && row_driver(rows@[picked[j]]@) == Ok::<DriverData, Seq<char>>(res@[j]@) by {
            assert(views[picked[j]] == rows@[picked[j]]@);
            assert(drivers[j] == res@[j]@);
        }
        assert forall|i: int| 0 <= i < rows@.len() && (#[trigger] row_driver(rows@[i]@)) is Ok implies exists|
            j: int,
        | 0 <= j < picked.len() && #[trigger] picked[j] == i by {
            assert(views[i] == rows@[i]@);
            assert(row_driver(views[i]) is Ok);
        }
        assert(picked.len() == res@.len());
    }
    res
}

} // verus!
