# recipes

Small network programs (echo server and client, TCP relay, UDP clock round
trip, ttcp transmitter, reconnecting client, sudoku server, memcached
footprint benchmark) whose logic lives in a library verified with Verus.

- `src/` is the verified library:
  - `memcached/db.rs`: the item store, a map from key bytes to items kept in
    hash buckets, with the laws that relate `set`, `get` and `delete`;
  - `relay.rs`: the buffer of one direction of the TCP relay, whose ghost
    state shows that the relay forwards the stream unchanged;
  - `sudoku_server.rs`: reading requests out of buffered bytes, writing
    answers, and the accept backoff of the listener;
  - `roundtrip.rs`, `ttcp.rs`, `reconnect.rs`, `footprint.rs`: the messages,
    schedules and items of the other programs.
- `app/` holds the programs themselves: argument parsing, sockets, threads,
  the async runtime and the C++ sudoku solver. `app/main.rs` picks a program
  by its first argument.
- `tests/` exercises the library.
