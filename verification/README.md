# protohackers

Servers for the first seven Protohackers problems, with the protocol logic of each
written in Verus and verified against its specification.

- `src/` — the verified library, one module per problem:
  `smoke_test` (echo), `prime_time` (primality answers), `means_to_an_end`
  (price log and 9-byte messages), `budget_chat` (names, room membership and the
  texts sent), `unusual_database` (the key-value store behind the UDP server),
  `mob_in_the_middle` (Boguscoin address rewriting) and `speed_daemon`
  (`wire`: byte formats; `client`: the per-connection protocol state machine;
  `engine`: observations, ticketed days, dispatchers and pending tickets).
- `app/` — the executable: sockets, tasks, channels and timers (tokio), JSON
  parsing and printing (serde_json), the shared chat room's lock (parking_lot).
- `tests/` — tests of the library on concrete values.

Run `app` with the problem number as its only argument.
