use f1_bot::date::RaceDate;
use f1_bot::prepare_files::f1_official_results_links;
use f1_bot::race::{get_race_data, Race, RaceError};
use f1_bot::race_results::get_results;

const RESULT_ROWS: &str = r#"
<tr>
  <td class="limiter"></td>
  <td class="dark">1</td>
  <td class="dark hide-for-mobile">5</td>
  <td class="dark bold">
    <span class="hide-for-tablet">Sebastian</span>
    <span class="hide-for-mobile">Vettel</span>
    <span class="uppercase hide-for-desktop">VET</span>
  </td>
  <td class="semi-bold uppercase hide-for-tablet">Ferrari</td>
  <td class="bold hide-for-mobile">58</td>
  <td class="dark bold">1:29:33.283</td>
  <td class="bold">25</td>
  <td class="limiter"></td>
</tr>
<tr>
  <td class="limiter"></td>
  <td class="dark">2</td>
  <td class="dark hide-for-mobile">44</td>
  <td class="dark bold">
    <span class="hide-for-tablet">Lewis</span>
    <span class="hide-for-mobile">Hamilton</span>
    <span class="uppercase hide-for-desktop">HAM</span>
  </td>
  <td class="semi-bold uppercase hide-for-tablet">Mercedes</td>
  <td class="bold hide-for-mobile">58</td>
  <td class="dark bold">+5.036s</td>
  <td class="bold">18</td>
  <td class="limiter"></td>
</tr>
<tr>
  <td class="limiter"></td>
  <td class="dark">NC</td>
</tr>
"#;

fn results_page() -> String {
    format!(
        r#"<html><head><title>2018 AUSTRALIAN GRAND PRIX</title></head><body>
<div class="resultsarchive-wrapper">
<div class="resultsarchive-col-left">
<h1 class="ResultsArchiveTitle">FORMULA 1 2018 ROLEX AUSTRALIAN GRAND PRIX - RACE RESULT</h1>
<p class="date"><span class="full-date">25 Mar 2018</span></p>
<table class="resultsarchive-table"><thead><tr><th>Pos</th></tr></thead><tbody>{}</tbody></table>
</div></div></body></html>"#,
        RESULT_ROWS
    )
}

#[test]
fn results_page_gives_drivers_in_order() {
    let drivers = get_results(&results_page()).unwrap();
    assert_eq!(drivers.len(), 2);
    assert_eq!(drivers[0].first_name, "Sebastian");
    assert_eq!(drivers[0].second_name, "Vettel");
    assert_eq!(drivers[0].short_name, "VET");
    assert_eq!(drivers[0].team, "Ferrari");
    assert_eq!(drivers[0].time, "1:29:33\\.283");
    assert_eq!(drivers[1].position, "2");
    assert_eq!(drivers[1].number, "44");
    assert_eq!(drivers[1].time, "\\+5\\.036s");
    assert_eq!(drivers[1].points, "18");
}

#[test]
fn page_without_table_gives_no_drivers() {
    let page = "<html><body><div class=\"resultsarchive-col-left\"><p>Soon</p></div></body></html>";
    assert_eq!(get_results(page).unwrap().len(), 0);
}

#[test]
fn page_without_left_column_gives_no_drivers() {
    let page = format!("<html><body><table><tbody>{}</tbody></table></body></html>", RESULT_ROWS);
    assert_eq!(get_results(&page).unwrap().len(), 0);
}

#[test]
fn race_page_gives_name_and_date() {
    let url = "https://www.formula1.com/en/results.html/2018/races/979/australia/race-result.html";
    let race = get_race_data(&results_page(), url.to_string()).unwrap();
    assert_eq!(race.name, "FORMULA 1 2018 ROLEX AUSTRALIAN GRAND PRIX");
    assert_eq!(race.date, RaceDate { year: 2018, month: 3, day: 25 });
    assert_eq!(race.url, url);
}

#[test]
fn race_name_is_escaped_and_cut() {
    let page = "<h1 class=\"ResultsArchiveTitle\">  FORMULA 1 GRAN PREMIO DELL'EMILIA-ROMAGNA 2024 - RACE RESULT - RACE RESULT</h1><span class=\"full-date\"> 19 May 2024 </span>";
    let race = get_race_data(page, "u".to_string()).unwrap();
    assert_eq!(race.name, "FORMULA 1 GRAN PREMIO DELL'EMILIA\\-ROMAGNA 2024");
    assert_eq!(race.date, RaceDate { year: 2024, month: 5, day: 19 });
}

#[test]
fn race_page_errors() {
    let no_date = "<h1 class=\"ResultsArchiveTitle\">A</h1>";
    let e = get_race_data(no_date, "u".to_string()).err().unwrap();
    assert_eq!(e, RaceError::DateNotFound);
    assert_eq!(e.message(), "Failed to find date element");
    let no_name = "<span class=\"full-date\">25 Mar 2018</span>";
    let e = get_race_data(no_name, "u".to_string()).err().unwrap();
    assert_eq!(e, RaceError::NameNotFound);
    assert_eq!(e.message(), "Failed to find race name element");
    assert_eq!(RaceError::DateSelectorRejected.message(), "Failed to parse date selector");
    assert_eq!(RaceError::NameSelectorRejected.message(), "Failed to parse race name selector");
}

#[test]
fn race_date_falls_back_to_1970() {
    let race = Race::new("Name", "sometime in March", "u");
    assert_eq!(race.date, RaceDate { year: 1970, month: 1, day: 1 });
    assert_eq!(race.date, RaceDate::unix_epoch());
    let race = Race::new("Name", " 01 Jan 2023\n", "u");
    assert_eq!(race.date, RaceDate { year: 2023, month: 1, day: 1 });
    assert_eq!(race.name, "Name");
    let race = Race::new("Name", "31 Feb 2023", "u");
    assert_eq!(race.date, RaceDate::unix_epoch());
}

#[test]
fn overview_links_are_absolute_and_unique() {
    let page = r#"<html><body>
<a href="/en/results.html/2018/races/979/australia/race-result.html">Australia</a>
<a href="/en/results.html/2018/drivers.html">Drivers</a>
<a>No link</a>
<a href="/en/results.html/2018/races/980/bahrain/race-result.html">Bahrain</a>
<a href="/en/results.html/2018/races/979/australia/race-result.html">Australia again</a>
<a href="/races/other">Other</a>
</body></html>"#;
    let links = f1_official_results_links(page).unwrap();
    assert_eq!(
        links,
        vec![
            "https://www.formula1.com/en/results.html/2018/races/979/australia/race-result.html"
                .to_string(),
            "https://www.formula1.com/en/results.html/2018/races/980/bahrain/race-result.html"
                .to_string(),
        ]
    );
    for link in &links {
        assert!(link.starts_with("https://www.formula1.com"));
    }
}

#[test]
fn overview_without_links() {
    assert!(f1_official_results_links("<p>nothing</p>").unwrap().is_empty());
}

fn unescape(text: &str) -> String {
    let mut out = String::new();
    let mut chars = text.chars();
    while let Some(c) = chars.next() {
        if c == '\\' {
            out.push(chars.next().unwrap());
        } else {
            out.push(c);
        }
    }
    out
}

#[test]
fn escaped_race_name_reads_back() {
    let name = "a_b*c[d]e(f)g~h`i>j#k+l-m=n|o{p}q.r!s\\t";
    let page = format!(
        "<h1 class=\"ResultsArchiveTitle\">{} - RACE RESULT</h1><span class=\"full-date\">1 Jan 2000</span>",
        name
    );
    let race = get_race_data(&page, "u".to_string()).unwrap();
    assert_eq!(
        race.name,
        "a\\_b\\*c\\[d\\]e\\(f\\)g\\~h\\`i\\>j\\#k\\+l\\-m\\=n\\|o\\{p\\}q\\.r\\!s\\\\t"
    );
    assert_eq!(unescape(&race.name), name);
}
