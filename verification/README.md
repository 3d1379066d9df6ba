# f1_bot

A Telegram bot that posts Formula 1 race results, with its page reading and
decisions verified in Verus.

- `src/` is the verified library: reading the formula1.com pages (race
  links, race name and date, the results table), the MarkdownV2 messages,
  the bot's decision after each event, and when the stored race list is
  stale. HTML parsing and CSS selection come from `scraper`, date parsing
  from `chrono` and MarkdownV2 escaping from `teloxide`, each behind a
  trusted wrapper whose contract is stated beside it.
- `app/` is the program: downloads, the JSON race file, the Telegram loop.
- `tests/` runs the library on sample pages and rows.
