# high_perf_trading

A price-time priority matching engine with a risk gateway, written in Verus.

- `src/` is the verified library. Its main parts:
  - `order_book`: the limit order book of one symbol (slab-backed FIFO levels),
    with a mathematical model and the laws of matching (limit respected,
    price-time priority, cancel undoes rest, a snapshot restores every
    level with its time priority);
  - `engine`: commands to events, numbered by a server sequence, with journal
    replay and restore from a snapshot;
  - `risk` (engine side) and `accounts` (gateway side): positions, limits,
    buying-power reservations and their settlement;
  - `codec`, `frame`, `wire`, `persistence`: the binary client protocol, the
    length-prefixed framing, and the checksummed journal and snapshot layouts,
    each with its round-trip law;
  - `gateway`, `protocol`, `auth`, `session`, `metrics`: the gateway's
    decisions, the gateway-engine messages, API keys, sessions and counters.
- `tests/` holds the tests, run against the compiled library.
- `app/` holds the processes around the library (engine server, gateway,
  single-process server, bench client): sockets, files, async tasks, serde
  formats and command-line parsing.
