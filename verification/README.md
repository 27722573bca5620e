# slog_extlog

External logs and statistics for `slog`: logs that are types, and counters,
gauges and bucket counters that those logs update.  The logic is written in
Verus and proved against its contracts; the parts that talk to the outside
world are ordinary Rust.

## Layout

- `src/` — the verified library.
  - `stats/change.rs`: changes to a statistic value (increment, decrement,
    set) and how bucket values are bumped.
  - `stats/buckets.rs`: bucket limits and which buckets a value lands in.
  - `stats/defn.rs`: statistic definitions and the trigger record a log gives
    for each statistic it updates.
  - `stats/groups.rs`: joining tag values into group keys and splitting them.
  - `stats/stat.rs`: the state of one statistic and how a trigger changes it.
  - `stats/tracker.rs`: the set of tracked statistics, keyed by name.
  - `stats/report.rs`: snapshots of current values and data for logging them.
  - `stats/config.rs`: the statistics configuration and its builder, and the
    tag format of the default formatter.
  - `stats/laws.rs`: properties that span the tracker's operations.
  - `attrs.rs`: numbers, log levels, actions, fixed groups and log
    identifiers as they appear in attribute text.
  - `derive_input.rs`: checking and gathering the `LogDetails`,
    `FixedFields`, `StatTrigger`, `StatGroup` and `BucketBy` attributes of a
    log type.
  - `slog_test.rs`: which logs lie in a range of identifiers, and their order.
  - `json.rs`: JSON values, and whether an actual value holds every item of
    an expected one (and where it first does not).
- `app/` — ordinary Rust around the library: the `StatisticsLogger` (a
  `slog::Logger` with a shared tracker and a timer that logs the statistics),
  the `ExtLoggable` and `StatTrigger` traits and macros for users, the code
  generation behind `#[derive(ExtLoggable)]`, and the test helpers that read
  logs as JSON.
- `tests/` — tests of the library on concrete values.

Bucket limits and bucketed values are `f64`s held as their bits
(`f64::to_bits`); the library compares them as `<=` on `f64` does.
