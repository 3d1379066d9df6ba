use f1_bot::bot::{bot_step, update_message, BotAction, BotEvent, RETRY_SECONDS};
use f1_bot::date::RaceDate;
use f1_bot::driver::Driver;
use f1_bot::race::{race_data_is_stale, Race, RACE_DATA_LIFETIME_NANOS};

fn race(name: &str, year: i32, month: u32, day: u32) -> Race {
    Race { name: name.to_string(), date: RaceDate { year, month, day }, url: format!("u/{}", name) }
}

fn driver(position: &str, first: &str) -> Driver {
    Driver::new(
        position.to_string(),
        "1".to_string(),
        first.to_string(),
        "X".to_string(),
        "XXX".to_string(),
        "Team".to_string(),
        "50".to_string(),
        "1:00".to_string(),
        "10".to_string(),
    )
}

fn season() -> Vec<Race> {
    vec![race("Bahrain", 2024, 3, 2), race("Jeddah", 2024, 3, 9), race("Melbourne", 2024, 3, 24)]
}

#[test]
fn update_message_wraps_drivers_in_spoiler() {
    let drivers = vec![driver("1", "Max"), driver("2", "Sergio")];
    let text = update_message(&drivers, "Bahrain Grand Prix");
    let expected = format!(
        "Bahrain Grand Prix\n\n||{}{}||",
        drivers[0].to_string(),
        drivers[1].to_string()
    );
    assert_eq!(text, expected);
    assert_eq!(update_message(&Vec::new(), "Name"), "Name\n\n||||");
}

#[test]
fn start_skips_past_races() {
    let today = RaceDate { year: 2024, month: 3, day: 9 };
    match bot_step(&season(), &today, BotEvent::Started) {
        BotAction::FetchResults { race } => assert_eq!(race, 1),
        _ => panic!("expected a fetch"),
    }
    let today = RaceDate { year: 2024, month: 3, day: 1 };
    match bot_step(&season(), &today, BotEvent::Started) {
        BotAction::FetchResults { race } => assert_eq!(race, 0),
        _ => panic!("expected a fetch"),
    }
}

#[test]
fn season_ends_when_no_race_is_left() {
    let today = RaceDate { year: 2025, month: 1, day: 1 };
    match bot_step(&season(), &today, BotEvent::Started) {
        BotAction::SendSeasonEnded { text } => assert_eq!(
            text,
            "Season ended 😭\nTo receive the results of next season races, please send me /results before the next f1 year. 🏁"
        ),
        _ => panic!("expected the end of the season"),
    }
    match bot_step(&Vec::new(), &today, BotEvent::Started) {
        BotAction::SendSeasonEnded { .. } => {},
        _ => panic!("expected the end of the season"),
    }
}

#[test]
fn missing_results_are_asked_for_again() {
    let today = RaceDate { year: 2024, month: 3, day: 1 };
    match bot_step(&season(), &today, BotEvent::ResultsFetched { race: 2, drivers: Vec::new() }) {
        BotAction::RetryLater { race, seconds } => {
            assert_eq!(race, 2);
            assert_eq!(seconds, RETRY_SECONDS);
            assert_eq!(seconds, 1200);
        },
        _ => panic!("expected a retry"),
    }
    match bot_step(&season(), &today, BotEvent::Waited { race: 2 }) {
        BotAction::FetchResults { race } => assert_eq!(race, 2),
        _ => panic!("expected a fetch"),
    }
}

#[test]
fn results_are_sent_then_the_next_race_follows() {
    let today = RaceDate { year: 2024, month: 3, day: 1 };
    let drivers = vec![driver("1", "Max")];
    let expected = update_message(&drivers, "Jeddah");
    match bot_step(&season(), &today, BotEvent::ResultsFetched { race: 1, drivers }) {
        BotAction::SendResults { race, text } => {
            assert_eq!(race, 1);
            assert_eq!(text, expected);
        },
        _ => panic!("expected results"),
    }
    match bot_step(&season(), &today, BotEvent::ResultsSent { race: 1 }) {
        BotAction::FetchResults { race } => assert_eq!(race, 2),
        _ => panic!("expected a fetch"),
    }
    match bot_step(&season(), &today, BotEvent::ResultsSent { race: 2 }) {
        BotAction::SendSeasonEnded { .. } => {},
        _ => panic!("expected the end of the season"),
    }
}

#[test]
fn race_data_goes_stale_after_a_year() {
    let year = RACE_DATA_LIFETIME_NANOS;
    assert_eq!(year, 365 * 24 * 60 * 60 * 1_000_000_000);
    assert!(race_data_is_stale(None, year + 1));
    assert!(!race_data_is_stale(None, year));
    assert!(!race_data_is_stale(Some(100), year + 100));
    assert!(race_data_is_stale(Some(100), year + 101));
    assert!(!race_data_is_stale(Some(-5), 0));
}
