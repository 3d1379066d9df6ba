use vstd::prelude::*;
use crate::driver::{drivers_of_rows, page_rows, page_rows_of, parsed_drivers, Driver, DriverData};
use crate::html::{selected_texts, selector_accepted, Document, Query};

verus! {

/// What a race's result page gives: no drivers where the page has no table,
/// or no left results column; otherwise the drivers of the `tbody tr` rows
/// that describe one. An error names a selector that scraper rejected, for
/// which the caller is to stop.
pub open spec fn results_of_page(page: Seq<char>) -> Result<Seq<DriverData>, Seq<char>> {
    if !selector_accepted("table"@) {
        Err("Failed to parse table selector"@)
    } else if selected_texts(page, "table"@).len() == 0 {
        Ok(Seq::empty())
    } else if !selector_accepted("div.resultsarchive-col-left"@) {
        Err("Failed to parse race table selector"@)
    } else if selected_texts(page, "div.resultsarchive-col-left"@).len() == 0 {
        Ok(Seq::empty())
    } else if !selector_accepted("tbody tr"@) {
        Err("Failed to parse row selector"@)
    } else {
        Ok(parsed_drivers(page_rows(page, "tbody tr"@)))
    }
}

/// Drivers, by their text.
pub open spec fn drivers_view(drivers: Seq<Driver>) -> Seq<DriverData> {
    drivers.map_values(|d: Driver| d@)
}

/// Reads every driver of a race's result page.
pub fn get_results(page: &str) -> (res: Result<Vec<Driver>, &'static str>)
    ensures
        match res {
            Ok(drivers) => results_of_page(page@) == Ok::<Seq<DriverData>, Seq<char>>(
                drivers_view(drivers@),
            ),
            Err(e) => results_of_page(page@) == Err::<Seq<DriverData>, Seq<char>>(e@),
        },
{
    let document = Document::parse(page);
    let table = match Query::parse("table") {
        Some(q) => q,
        None => return Err("Failed to parse table selector"),
    };
    if document.select_texts(&table).len() == 0 {
        let none: Vec<Driver> = Vec::new();
        assert(drivers_view(none@) =~= Seq::<DriverData>::empty());
        return Ok(none);
    }
    let left_side = match Query::parse("div.resultsarchive-col-left") {
        Some(q) => q,
        None => return Err("Failed to parse race table selector"),
    };
    if document.select_texts(&left_side).len() == 0 {
        let none: Vec<Driver> = Vec::new();
        assert(drivers_view(none@) =~= Seq::<DriverData>::empty());
        return Ok(none);
    }
    let row = match Query::parse("tbody tr") {
        Some(q) => q,
        None => return Err("Failed to parse row selector"),
    };
    let rows = page_rows_of(&document, &row);
    Ok(drivers_of_rows(&rows))
}

} // verus!
