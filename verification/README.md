# StellarGate

The settlement core of a Stellar payment gateway: payment intents, the credits
that settle them, idempotency keys, merchants and API keys, webhook deliveries,
and the health of the background tasks. Every function of the library carries a
contract that Verus proves.

## Layout

- `src/` is the library. `db` holds the tables and the operations on them;
  an operation is a function of the rows, its arguments and the moment at which
  it happens. The modules whose names end in `_laws`, and the functions whose
  names start with `law_`, state what holds across operations: a payment settles
  once, a cursor neither skips nor repeats, an acknowledged delivery is never
  pruned, an upgrade runs once. `health`, `timestamp`, `reading`,
  `julian`, `money`, `text` and `table` are what it rests on.
- `app/` is the server: it loads rows from SQLite, calls the library inside one
  transaction, and stores what changed.
- `tests/` runs the library on concrete values.

## What is trusted

One item: `secs_since_epoch` in `src/health.rs`, which reads the system clock.
Nothing is assumed of the reading.
