use vstd::prelude::*;
use crate::date::{date_before, RaceDate};
use crate::driver::{driver_message, Driver, DriverData};
use crate::race::Race;
use crate::race_results::drivers_view;

verus! {

broadcast use vstd::string::group_string_axioms;

/// The messages of `drivers`, one after another.
pub open spec fn drivers_text(drivers: Seq<DriverData>) -> Seq<char>
    decreases drivers.len(),
{
    if drivers.len() == 0 {
        Seq::empty()
    } else {
        drivers_text(drivers.drop_last()) + driver_message(drivers.last())
    }
}

/// The drivers' text is each driver's message, one after another, for any
/// drivers: none gives nothing, one gives its message, and two lists in a
/// row give their texts in a row.
pub proof fn lemma_drivers_text(a: Seq<DriverData>, b: Seq<DriverData>)
    ensures
        drivers_text(Seq::empty()) == Seq::<char>::empty(),
        a.len() == 1 ==> drivers_text(a) == driver_message(a[0]),
        drivers_text(a + b) == drivers_text(a) + drivers_text(b),
    decreases b.len(),
{
    if a.len() == 1 {
        assert(a.drop_last() =~= Seq::<DriverData>::empty());
        assert(drivers_text(a.drop_last()) == Seq::<char>::empty());
        assert(a.last() == a[0]);
        assert(drivers_text(a) =~= Seq::<char>::empty() + driver_message(a[0]));
    }
    if b.len() == 0 {
        assert(a + b =~= a);
        assert(drivers_text(a) + drivers_text(b) =~= drivers_text(a));
    } else {
        lemma_drivers_text(a, b.drop_last());
        assert((a + b).drop_last() =~= a + b.drop_last());
        assert((a + b).last() == b.last());
        assert(drivers_text(a + b) =~= drivers_text(a) + drivers_text(b));
    }
}

/// The message that announces a race's results: the race name, an empty
/// line, then the drivers' messages hidden as one spoiler.
pub open spec fn results_message(race_name: Seq<char>, drivers: Seq<DriverData>) -> Seq<char> {
    race_name + "\n\n"@ + "||"@ + drivers_text(drivers) + "||"@
}

/// The message that the bot sends once no race of the season is left.
pub open spec fn season_ended_message() -> Seq<char> {
    "Season ended 😭\nTo receive the results of next season races, please send me /results before the next f1 year. 🏁"@
}

/// How long the bot waits before it asks again for results that are not out
/// yet: 20 minutes.
pub const RETRY_SECONDS: u64 = 1200;

/// The text of the message that announces `race_name`'s results.
pub fn update_message(drivers: &Vec<Driver>, race_name: &str) -> (text: String)
    ensures
        text@ == results_message(race_name@, drivers_view(drivers@)),
        text@ == race_name@ + "\n\n"@ + "||"@ + drivers_text(drivers_view(drivers@)) + "||"@,
{
    let mut text = String::new();
    text.append(race_name);
    text.append("\n\n");
    text.append("||");
    let ghost head = text@;
    for i in 0..drivers.len()
        invariant
            head == race_name@ + "\n\n"@ + "||"@,
            text@ == head + drivers_text(drivers_view(drivers@).take(i as int)),
    {
        let message = drivers[i].to_string();
        let ghost views = drivers_view(drivers@);
        assert(views.take(i + 1).drop_last() =~= views.take(i as int));
        assert(views.take(i + 1).last() == drivers@[i as int]@);
        text.append(message.as_str());
        assert(text@ =~= head + drivers_text(views.take(i + 1)));
    }
    assert(drivers_view(drivers@).take(drivers@.len() as int) =~= drivers_view(drivers@));
    text.append("||");
    assert(text@ =~= results_message(race_name@, drivers_view(drivers@)));
    text
}

/// What the bot does next.
pub enum BotAction {
    /// Fetch the results of race `race`.
    FetchResults { race: usize },
    /// Wait `seconds`, then fetch the results of race `race` again.
    RetryLater { race: usize, seconds: u64 },
    /// Send `text`, the results of race `race`.
    SendResults { race: usize, text: String },
    /// Send `text`: the season is over.
    SendSeasonEnded { text: String },
}

/// What has just happened to the bot.
pub enum BotEvent {
    /// A chat asked for results.
    Started,
    /// The results of race `race` came in (none where they are not out yet).
    ResultsFetched { race: usize, drivers: Vec<Driver> },
    /// The wait before asking again for race `race`'s results is over.
    Waited { race: usize },
    /// The results of race `race` went out.
    ResultsSent { race: usize },
}

/// Whether the races from `from` up to `to` all took place before `today`.
pub open spec fn all_past(races: Seq<Race>, today: RaceDate, from: int, to: int) -> bool {
    forall|i: int| from <= i < to ==> date_before(#[trigger] races[i].date, today)
}

/// Whether `action` goes on with the first race, from `from` on, that does not
/// lie before `today`, or ends the season where there is none.
pub open spec fn is_next_race(
    races: Seq<Race>,
    today: RaceDate,
    from: int,
    action: BotAction,
) -> bool {
    match action {
        BotAction::FetchResults { race } => {
            &&& from <= race < races.len()
            &&& !date_before(races[race as int].date, today)
            &&& all_past(races, today, from, race as int)
        },
        BotAction::SendSeasonEnded { text } => {
            &&& text@ == season_ended_message()
            &&& all_past(races, today, from, races.len() as int)
        },
        _ => false,
    }
}

/// Whether `event` speaks of a race of the list.
pub open spec fn event_in_range(event: &BotEvent, count: int) -> bool {
    match event {
        BotEvent::Started => true,
        BotEvent::ResultsFetched { race, drivers } => race < count,
        BotEvent::Waited { race } => race < count,
        BotEvent::ResultsSent { race } => race < count,
    }
}

/// Once the results of race `race` went out, the bot never comes back to it
/// or to an earlier race: it goes on with a later race that is not over, and
/// every race it passes over lies before `today`; or it ends the season, all
/// later races being over.
pub proof fn lemma_bot_moves_on(races: Seq<Race>, today: RaceDate, race: int, action: BotAction)
    requires
        is_next_race(races, today, race + 1, action),
    ensures
        action matches BotAction::FetchResults { race: next } ==> next > race && !date_before(
            races[next as int].date,
            today,
        ) && all_past(races, today, race + 1, next as int),
        action is SendSeasonEnded ==> all_past(races, today, race + 1, races.len() as int),
{
}

/// Which race comes next is never a matter of choice: two actions that both
/// go on from `from` are the same fetch, or both end the season.
pub proof fn lemma_next_race_is_unique(
    races: Seq<Race>,
    today: RaceDate,
    from: int,
    a: BotAction,
    b: BotAction,
)
    requires
        is_next_race(races, today, from, a),
        is_next_race(races, today, from, b),
    ensures
        a matches BotAction::FetchResults { race: x } ==> b matches BotAction::FetchResults {
            race: y,
        } && x == y,
        a is SendSeasonEnded ==> b is SendSeasonEnded,
{
    match (a, b) {
        (BotAction::FetchResults { race: x }, BotAction::FetchResults { race: y }) => {
            if x < y {
                assert(date_before(races[x as int].date, today));
            } else if y < x {
                assert(date_before(races[y as int].date, today));
            }
        },
        (BotAction::FetchResults { race: x }, _) => {
            assert(date_before(races[x as int].date, today));
        },
        (_, BotAction::FetchResults { race: y }) => {
            assert(date_before(races[y as int].date, today));
        },
        _ => {},
    }
}

/// The first race, from `from` on, that does not lie before `today`.
fn next_race(races: &Vec<Race>, today: &RaceDate, from: usize) -> (action: BotAction)
    requires
        from <= races@.len(),
    ensures
        is_next_race(races@, *today, from as int, action),
{
    let mut i: usize = from;
    while i < races.len()
        invariant
            from <= i <= races@.len(),
            all_past(races@, *today, from as int, i as int),
        decreases races@.len() - i,
    {
        if !races[i].date.is_before(today) {
            return BotAction::FetchResults { race: i };
        }
        i = i + 1;
    }
    BotAction::SendSeasonEnded {
        text: "Season ended 😭\nTo receive the results of next season races, please send me /results before the next f1 year. 🏁".to_string(),
    }
}

/// The bot's decision after `event`, for the season's `races` and the date
/// `today`: a request starts with the first race that is not over; results
/// that are not out yet are asked for again after `RETRY_SECONDS`; results
/// that are out are sent, and the bot goes on with the race after.
pub fn bot_step(races: &Vec<Race>, today: &RaceDate, event: BotEvent) -> (action: BotAction)
    requires
        event_in_range(&event, races@.len() as int),
    ensures
        match event {
            BotEvent::Started => is_next_race(races@, *today, 0, action),
            BotEvent::ResultsFetched { race, drivers } => if drivers@.len() == 0 {
                action == (BotAction::RetryLater { race, seconds: RETRY_SECONDS })
            } else {
                action matches BotAction::SendResults { race: r, text } && r == race && text@
                    == results_message(races@[race as int].name@, drivers_view(drivers@))
            },
            BotEvent::Waited { race } => action == (BotAction::FetchResults { race }),
            BotEvent::ResultsSent { race } => is_next_race(races@, *today, race + 1, action),
        },
{
    let count: usize = races.len();
    match event {
        BotEvent::Started => next_race(races, today, 0),
        BotEvent::ResultsFetched { race, drivers } => {
            if drivers.len() == 0 {
                BotAction::RetryLater { race, seconds: RETRY_SECONDS }
            } else {
                BotAction::SendResults {
                    race,
                    text: update_message(&drivers, races[race].name.as_str()),
                }
            }
        },
        BotEvent::Waited { race } => BotAction::FetchResults { race },
        BotEvent::ResultsSent { race } => {
            assert(race < count);
            next_race(races, today, race + 1)
        },
    }
}

} // verus!
