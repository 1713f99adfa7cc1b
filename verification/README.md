# mainline

A node of the Mainline distributed hash table, verified with Verus.

- `src/` is the library. `rpc::Rpc` is the node: queries that walk the network, store queries that
  wait for acknowledgements, the routing table and its upkeep, and the answers to other nodes'
  requests. It does no input or output of its own.
- `src/state.rs` says, on mathematical values, what each operation makes of a node; `src/rpc/` is
  proved to do just that.
- `src/integrity.rs` proves the invariant that every node keeps, `src/laws/` what holds over several
  operations.
- `src/buffer.rs`, `src/cache.rs` and `src/crypto.rs` hold the calls into `bytes`, `lru`,
  `sha1_smol` and `ed25519_dalek`, and what is believed of them.
- `app/` puts the node on a UDP socket: clock, random bytes, host names, channels and logging.
- `tests/` runs the library on concrete values, also as a small network of nodes.
