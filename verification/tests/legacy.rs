use f1_bot::driver::{CellLookup, Row};
use f1_bot::parse;
use f1_bot::request_to_website;

fn found(text: &str) -> CellLookup {
    CellLookup::Found(text.to_string())
}

fn row(number: &str, time: &str) -> Row {
    Row {
        cells: vec![
            found(""),
            found("1 "),
            found(number),
            found("\nSebastian\nVettel\nVET\n"),
            found("Ferrari"),
            found("58"),
            found(time),
            found("+25"),
        ],
    }
}

const ROWS: &str = r#"<tr><td></td><td>1</td><td>5</td><td>
<span>Sebastian</span>
<span>Vettel</span>
<span>VET</span>
</td><td>Ferrari</td><td>58</td><td>1:29:33.283</td><td>25</td></tr>
<tr><td></td><td>2</td><td>44</td><td>
<span>Lewis</span>
<span>Hamilton</span>
<span>HAM</span>
</td><td>Mercedes</td><td>58</td><td>+5.036s</td><td>18</td></tr>"#;

fn page(title: &str) -> String {
    format!(
        r#"<html><body><div class="resultsarchive-col-left"><h1 class="ResultsArchiveTitle">{}</h1>
<table class="resultsarchive-table"><tbody>{}</tbody></table></div></body></html>"#,
        title, ROWS
    )
}

#[test]
fn legacy_row_reads_numbers() {
    let d = parse::parse_driver_from_row(&row("5", "1:29:33.283")).unwrap();
    assert_eq!(d.position, "1");
    assert_eq!(d.number, 5);
    assert_eq!(d.first_name, "Sebastian");
    assert_eq!(d.second_name, "Vettel");
    assert_eq!(d.short_name, "VET");
    assert_eq!(d.team, "Ferrari");
    assert_eq!(d.laps, 58);
    assert_eq!(d.time, "1:29:33\\.283");
    assert_eq!(d.points, 25);
}

#[test]
fn legacy_row_escapes_plus_and_dot() {
    let d = parse::parse_driver_from_row(&row("5", "+1 Lap.")).unwrap();
    assert_eq!(d.time, "\\+1 Lap\\.");
}

#[test]
fn legacy_row_rejects_bad_numbers() {
    assert!(parse::parse_driver_from_row(&row("256", "x")).is_none());
    assert!(parse::parse_driver_from_row(&row("-1", "x")).is_none());
    assert!(parse::parse_driver_from_row(&row("", "x")).is_none());
    assert!(parse::parse_driver_from_row(&row("+", "x")).is_none());
    assert_eq!(parse::parse_driver_from_row(&row("0255", "x")).unwrap().number, 255);
}

#[test]
fn legacy_nth_child() {
    let r = Row { cells: vec![found("a"), CellLookup::NotFound] };
    assert_eq!(parse::get_text_from_nth_child(&r, 1), Some("a".to_string()));
    assert_eq!(parse::get_text_from_nth_child(&r, 2), None);
    assert_eq!(parse::get_text_from_nth_child(&r, 3), None);
}

#[test]
fn legacy_message_prints_numbers() {
    let d = parse::Driver::new(
        "DNF".to_string(),
        7,
        "Kimi".to_string(),
        "Raikkonen".to_string(),
        "RAI".to_string(),
        "Ferrari".to_string(),
        0,
        "DNF".to_string(),
        100,
    );
    assert_eq!(
        d.to_string(),
        "❌ *Kimi Raikkonen*▫️RAI▫️7 \n    ⚬ Position: DNF \n    ⚬ Team: Ferrari \n    ⚬ Points: 100 \n    ⚬ Laps: 0 \n    ⚬ Time: DNF \n \n"
    );
}

#[test]
fn legacy_race_name() {
    let name = parse::get_race_name(&page("FORMULA 1 EMILIA-ROMAGNA 2024 - RACE RESULT")).unwrap();
    assert_eq!(name, "FORMULA 1 EMILIA\\-ROMAGNA ");
    assert_eq!(parse::get_race_name("<p>x</p>").unwrap(), "Undefined race");
}

#[test]
fn legacy_results_and_message() {
    let drivers = parse::get_results(&page("T")).unwrap();
    assert_eq!(drivers.len(), 2);
    assert_eq!(drivers[1].first_name, "Lewis");
    assert_eq!(drivers[1].number, 44);
    assert_eq!(drivers[1].time, "\\+5\\.036s");
    assert!(parse::get_results("<p>no table</p>").is_none());
    let p = page("Race 2024 - RACE RESULT");
    let text = parse::prepare_bot_message(&p, &p).unwrap();
    let expected = format!("Race \n\n||{}{}||", drivers[0].to_string(), drivers[1].to_string());
    assert_eq!(text, expected);
}

#[test]
fn legacy_website_results() {
    let drivers = request_to_website::get_results(&page("T")).unwrap();
    assert_eq!(drivers.len(), 2);
    assert_eq!(drivers[0].second_name, "Vettel");
    assert_eq!(request_to_website::get_results("<p>x</p>").unwrap().len(), 0);
    let broken = format!(
        r#"<div class="resultsarchive-col-left"><table><tbody>{}<tr><td></td><td>3</td></tr></tbody></table></div>"#,
        ROWS
    );
    assert!(request_to_website::get_results(&broken).is_none());
}
