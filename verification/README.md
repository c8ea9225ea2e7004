# rip

A RIP version 2 router (RFC 2453, Section 3 and the subnet-mask rules of
Section 4.3, without garbage collection). Updates go out every second; a
route times out after six seconds; triggered updates are not batched; a
periodic update goes out in messages of at most 25 entries.

- `src/` is the library, verified with Verus:
  - `bytes.rs`: big-endian integers; reads through nom, writes through
    byteorder.
  - `proto/`: the wire format: `Command`, `Entry` (twenty bytes),
    `Message` (a four-byte header and entries), with their round trips.
  - `config.rs`: neighbors as the configuration names them.
  - `table.rs`: the routing table and its distance-vector rules. Each
    event (a response, a timeout, the periodic tick) changes the table
    and yields a list of `Action`s for the caller to carry out.
- `app/` is the program: configuration (serde, toml), UDP sockets and
  timers (tokio), printing, and carrying out the table's actions.
- `tests/` runs the library on concrete values.
