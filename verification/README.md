# tablebot

A Discord league-table bot: per-server standings, match results with an undo
history, form guides, head-to-head records, round-robin and knockout
schedules, a "what does my team need" predictor, and a small website showing
each server's live table.

## Layout

- `src/` — the verified library (Verus). The league's logic lives here with
  its contracts: ranking and rendering the table (`table_utils`),
  validating and entering results (`validator`, `standings`, `commands`),
  the undo history and result log (`history`, `fixtures`), schedule
  generation (`schedule`) and why it is fair (`fairness`), managing named
  schedules (`season`), the scenario search (`predict`), what the read-only
  commands show (`views`), and text helpers (`text`).
- `tests/` — tests of the library on concrete values.
- `app/` — the program around it: the Discord commands (`bot.rs`), the JSON
  files under `data/<server id>/` (`store.rs`) and the website (`web.rs`).
  Besides I/O it keeps message wording and layout (including cutting long
  replies to Discord's size), simple argument guards such as "at least two
  teams", and the points-per-game projection of `/predict`, which uses
  floating point.

## Configuration

The bot reads `DISCORD_TOKEN`, optionally `GUILD_IDS` (or `GUILD_ID`),
`WEB_PORT` (default 8080), `WEB_BASE_URL` and `DEFAULT_GUILD_ID`, from the
environment or a `.env` file.
