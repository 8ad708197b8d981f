# hft

A single-instrument matching engine with pre-trade risk, a durable journal,
event publication and multi-instrument routing, verified with Verus.

| Path | What it holds |
| --- | --- |
| `src/types.rs` | Orders, commands, execution reports |
| `src/book/` | Price-time order book, its state export, its laws |
| `src/risk/` | Reservations, limits, fills, state export, its laws |
| `src/probe.rs` | The probing table that both indexes share |
| `src/queue.rs` | Bounded queue |
| `src/journal/` | Record codec, channel, persistence worker, recovery |
| `src/events/` | One event batch for each command |
| `src/router/` | Route table, dispatch, shards |
| `src/engine/` | Admission, journal and checkpoint lifecycle |
| `src/bench/` | Benchmark cells with provable checksums |
| `app/` | Command line, files, and the glue around a gateway |
| `tests/` | Tests of the library |

Models are views: a book is two sequences of price levels, a risk engine its
accounts and reservations, a journal its sequence of records. Every public
function states over these views what it returns and what it changes; those that
store records also state the writes and flushes that they ask of the sink, in
order. The functions whose names begin with `law_` state what holds across them.

`bench::suite::run_suite` gives one line of JSON for each cell, in a fixed order;
the records of cells that run outside the library are handed to it. In `app/`,
the ends of a journal and the engine share their storage behind a lock, and give
themselves up when they are dropped.

The library calls two things that Verus does not see: `crc32c::crc32c`, of which
it takes only that equal bytes have equal checksums, and the monotonic clock of
the standard library, of which it takes nothing.

A gateway, the wire format and snapshot encoding are provided from outside. The
library takes their answers as plain values: what the gateway says of a
command's sequence, the top of its book before and after, its reports and its
result.
