use vstd::prelude::*;
use crate::driver::{
    page_rows, page_rows_of, parse_driver_from_row, row_driver, CellView, Driver, DriverData, Row,
};
use crate::html::{selected_texts, selector_accepted, Document, Query};
use crate::race_results::drivers_view;

verus! {

/// The drivers of all rows, where every row describes one.
pub open spec fn all_row_drivers(rows: Seq<Seq<CellView>>) -> Option<Seq<DriverData>>
    decreases rows.len(),
{
    if rows.len() == 0 {
        Some(Seq::empty())
    } else {
        match (all_row_drivers(rows.drop_last()), row_driver(rows.last())) {
            (Some(before), Ok(d)) => Some(before.push(d)),
            _ => None,
        }
    }
}

proof fn lemma_all_row_drivers_none(rows: Seq<Seq<CellView>>, k: int)
    requires
        0 <= k <= rows.len(),
        all_row_drivers(rows.take(k)) is None,
    ensures
        all_row_drivers(rows) is None,
    decreases rows.len(),
{
    if k == rows.len() {
        assert(rows.take(k) =~= rows);
    } else {
        assert(rows.drop_last().take(k) =~= rows.take(k));
        lemma_all_row_drivers_none(rows.drop_last(), k);
    }
}

/// What a race's result page gives: no drivers where the page has no table,
/// or no left results column; otherwise the drivers of all `tbody tr` rows.
/// `None` where scraper rejects a selector or a row does not describe a
/// driver.
pub open spec fn results_of_page(page: Seq<char>) -> Option<Seq<DriverData>> {
    if !selector_accepted("table"@) {
        None
    } else if selected_texts(page, "table"@).len() == 0 {
        Some(Seq::empty())
    } else if !selector_accepted("div.resultsarchive-col-left"@) {
        None
    } else if selected_texts(page, "div.resultsarchive-col-left"@).len() == 0 {
        Some(Seq::empty())
    } else if !selector_accepted("tbody tr"@) {
        None
    } else {
        all_row_drivers(page_rows(page, "tbody tr"@))
    }
}

/// Reads every driver of a race's result page.
pub fn get_results(page: &str) -> (res: Option<Vec<Driver>>)
    ensures
        match res {
            Some(drivers) => results_of_page(page@) == Some(drivers_view(drivers@)),
            None => results_of_page(page@) is None,
        },
{
    let document = Document::parse(page);
    let table = match Query::parse("table") {
        Some(q) => q,
        None => return None,
    };
    if document.select_texts(&table).len() == 0 {
        let none: Vec<Driver> = Vec::new();
        assert(drivers_view(none@) =~= Seq::<DriverData>::empty());
        return Some(none);
    }
    let left_side = match Query::parse("div.resultsarchive-col-left") {
        Some(q) => q,
        None => return None,
    };
    if document.select_texts(&left_side).len() == 0 {
        let none: Vec<Driver> = Vec::new();
        assert(drivers_view(none@) =~= Seq::<DriverData>::empty());
        return Some(none);
    }
    let row_selector = match Query::parse("tbody tr") {
        Some(q) => q,
        None => return None,
    };
    let rows = page_rows_of(&document, &row_selector);
    let ghost row_views = rows@.map_values(|r: Row| r@);
    let mut drivers: Vec<Driver> = Vec::new();
    assert(results_of_page(page@) == all_row_drivers(row_views));
    assert(row_views.take(0) =~= Seq::<Seq<CellView>>::empty());
    assert(drivers_view(drivers@) =~= Seq::<DriverData>::empty());
    for i in 0..rows.len()
        invariant
            results_of_page(page@) == all_row_drivers(row_views),
            row_views == rows@.map_values(|r: Row| r@),
            all_row_drivers(row_views.take(i as int)) == Some(drivers_view(drivers@)),
    {
        assert(row_views.take(i + 1).drop_last() =~= row_views.take(i as int));
        assert(row_views.take(i + 1).last() == rows@[i as int]@);
        match parse_driver_from_row(&rows[i]) {
            Ok(d) => {
                let ghost before = drivers_view(drivers@);
                drivers.push(d);
                assert(drivers_view(drivers@) =~= before.push(drivers@.last()@));
            },
            Err(_) => {
                proof {
                    lemma_all_row_drivers_none(row_views, i + 1);
                }
                return None;
            },
        }
    }
    assert(row_views.take(rows@.len() as int) =~= row_views);
    Some(drivers)
}

} // verus!
