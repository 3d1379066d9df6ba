use f1_bot::driver::{
    drivers_of_rows, get_text_from_nth_child, parse_driver_from_row, CellLookup, Driver, Row,
};

fn found(text: &str) -> CellLookup {
    CellLookup::Found(text.to_string())
}

fn driver(position: &str, time: &str) -> Driver {
    Driver::new(
        position.to_string(),
        "5".to_string(),
        "Sebastian".to_string(),
        "Vettel".to_string(),
        "VET".to_string(),
        "Ferrari".to_string(),
        "58".to_string(),
        time.to_string(),
        "25".to_string(),
    )
}

fn vettel_row() -> Row {
    Row {
        cells: vec![
            found(""),
            found(" 1 "),
            found("5"),
            found("\n  Sebastian\n  Vettel\r\n\n   VET\n"),
            found("Ferrari"),
            found("58"),
            found("1:29:33.283"),
            found("25"),
        ],
    }
}

#[test]
fn new_keeps_every_field() {
    let d = driver("1", "1:29:33.283");
    assert_eq!(d.position, "1");
    assert_eq!(d.number, "5");
    assert_eq!(d.first_name, "Sebastian");
    assert_eq!(d.second_name, "Vettel");
    assert_eq!(d.short_name, "VET");
    assert_eq!(d.team, "Ferrari");
    assert_eq!(d.laps, "58");
    assert_eq!(d.time, "1:29:33.283");
    assert_eq!(d.points, "25");
}

#[test]
fn message_of_the_winner() {
    let d = driver("1", "1:29:33\\.283");
    assert_eq!(
        d.to_string(),
        "🏆 *Sebastian Vettel*▫️VET▫️5 \n    ⚬ Position: 1 \n    ⚬ Team: Ferrari \n    ⚬ Points: 25 \n    ⚬ Laps: 58 \n    ⚬ Time: 1:29:33\\.283 \n \n"
    );
}

#[test]
fn message_emoji_by_position_and_time() {
    assert!(driver("2", "x").to_string().starts_with('🥈'));
    assert!(driver("3", "x").to_string().starts_with('🥉'));
    assert!(driver("4", "DNF").to_string().starts_with('❌'));
    assert!(driver("4", "+5s").to_string().starts_with('🏁'));
    assert!(driver("1", "DNF").to_string().starts_with('🏆'));
    assert!(driver("NC", "DNF").to_string().starts_with('❌'));
}

#[test]
fn nth_child_lookup() {
    let row = Row {
        cells: vec![found("a"), CellLookup::NotFound, CellLookup::SelectorRejected],
    };
    assert_eq!(get_text_from_nth_child(&row, 1), Ok("a".to_string()));
    assert_eq!(get_text_from_nth_child(&row, 2), Err("Failed to find element"));
    assert_eq!(get_text_from_nth_child(&row, 3), Err("Failed to parse selector"));
    assert_eq!(get_text_from_nth_child(&row, 4), Err("Failed to find element"));
    assert_eq!(get_text_from_nth_child(&row, 0), Err("Failed to find element"));
}

#[test]
fn row_becomes_driver() {
    let d = parse_driver_from_row(&vettel_row()).unwrap();
    assert_eq!(d.position, "1");
    assert_eq!(d.number, "5");
    assert_eq!(d.first_name, "Sebastian");
    assert_eq!(d.second_name, "Vettel");
    assert_eq!(d.short_name, "VET");
    assert_eq!(d.team, "Ferrari");
    assert_eq!(d.laps, "58");
    assert_eq!(d.time, "1:29:33\\.283");
    assert_eq!(d.points, "25");
}

#[test]
fn row_time_is_escaped_for_markdown() {
    let mut row = vettel_row();
    row.cells[6] = found("+5.036s");
    let d = parse_driver_from_row(&row).unwrap();
    assert_eq!(d.time, "\\+5\\.036s");
}

#[test]
fn row_with_short_name_fails() {
    let mut row = vettel_row();
    row.cells[3] = found("Sebastian\n \nVettel\n");
    assert_eq!(parse_driver_from_row(&row).err(), Some("Failed to parse driver name"));
}

#[test]
fn row_errors_come_in_cell_order() {
    let mut row = vettel_row();
    row.cells[3] = CellLookup::SelectorRejected;
    row.cells[7] = CellLookup::NotFound;
    assert_eq!(parse_driver_from_row(&row).err(), Some("Failed to find element"));
    let mut row = vettel_row();
    row.cells[3] = CellLookup::NotFound;
    row.cells[4] = CellLookup::SelectorRejected;
    assert_eq!(parse_driver_from_row(&row).err(), Some("Failed to parse selector"));
    let short = Row { cells: vec![found(""), found("1")] };
    assert_eq!(parse_driver_from_row(&short).err(), Some("Failed to find element"));
}

#[test]
fn rows_without_driver_are_left_out() {
    let mut broken = vettel_row();
    broken.cells[1] = CellLookup::NotFound;
    let mut second = vettel_row();
    second.cells[1] = found("2");
    let drivers = drivers_of_rows(&vec![vettel_row(), broken, second]);
    assert_eq!(drivers.len(), 2);
    assert_eq!(drivers[0].position, "1");
    assert_eq!(drivers[1].position, "2");
}
