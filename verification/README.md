# radar-bot

A Matrix bot that watches local news feeds and public warnings. It fetches RSS
and Atom feeds and Bluesky searches, keeps what happens close to a reference
address, and posts it in digests. It also sends warnings of the German
authorities and of the German weather service, earthquakes and other disasters at
once, and a weather forecast every day.

## Layout

- `src/` is the library: every rule of the bot, written and proved in Verus.
- `tests/` runs the library on concrete values.
- `app/` is the bot around it: the configuration file, HTTP, SQLite and Matrix.

## The library

| Modules | What they hold |
| --- | --- |
| `text`, `bytes`, `num`, `ieee` | texts, numbers, and floating-point numbers by their bits |
| `html`, `url`, `json`, `dates` | what feeds, pages and services are written in |
| `words`, `streets`, `distance` | spelling, street names in German texts, and distances |
| `markup`, `readable`, `feed`, `article`, `sources` | from feeds, pages and posts to items |
| `config`, `filter`, `geocode`, `pipeline` | which items matter, and how much |
| `cluster`, `candidates`, `ledger`, `digest` | incidents, the queue, and what is posted |
| `alerts`, `dwd`, `disasters`, `weather` | warnings and forecasts |
| `schedule`, `commands`, `stats` | times of day, commands, and counts |

What the library takes from other crates (JSON from `serde_json`, feeds from
`feed-rs`, dates from `chrono`) stands behind small functions whose contracts say
what is relied on. Laws that hold of several functions together are the public
proof functions whose names begin with `law_`.
