# Redistill

An in-memory key-value store that speaks the Redis protocol, written in Rust and verified with
Verus.

- `src/` is the library. Every function states what it does in its contract, and Verus proves it.
  - `store.rs` holds the keys in shards; `model.rs` is the state that the contracts speak of.
  - `eviction.rs` keeps the store within its memory limit and sweeps expired keys.
  - `scan.rs` walks the keys by a cursor, shard by shard and each in the order that `order.rs` gives
    them; `glob.rs` matches patterns.
  - `request.rs`, `command.rs`, `dispatch.rs`, `resp.rs` and the `*_commands.rs` files take a request
    from its bytes to its reply.
  - `snapshot.rs` writes the live keys as bytes and reads them back.
  - `laws.rs` and `scan_laws.rs` state what holds of several functions together.
  - `octets.rs`, `digest.rs`, `fields.rs`, `shard_map.rs`, `pool.rs`, `secret.rs`, `chance.rs` and
    `clock.rs` state what is relied on of other crates and of the clock. Each such item is marked
    "Trusted" and is not proved.
- `app/` is the server around the library: sockets, TLS, files, signals and configuration.
- `tests/` runs the library.

The store is changed through an exclusive reference. The server shares it between connections
behind a lock.
