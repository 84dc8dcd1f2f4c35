# sdle

A local-first shopping list: clients keep their lists in SQLite and exchange whole
CRDT states with a small server cluster, which places lists on a consistent hash
ring and replicates them under read and write quorums.

## Layout

- `src/` — the library, verified with Verus.
  - `crdt/` — grow-only and positive-negative counters, last-writer-wins
    registers, items, and the add-wins map of items that makes up a list; each
    merge is proved associative and idempotent, and commutative between states
    whose registers never hold two values under one stamp.
  - `sorted_map.rs` — maps keyed by `u128` kept as strictly sorted vectors, the
    representation behind the counters and the ring.
  - `hash_ring.rs` — virtual-node placement, preference lists, coordinators.
  - `server.rs` — membership tables, failure tracking, quorum bookkeeping.
  - `in_flight.rs` — the replication requests a coordinator waits on.
  - `storage.rs` — what the stores compute between reading rows and writing them.
  - `client.rs`, `cli.rs`, `proxy.rs` — what the client shows, what each input of
    the terminal interface does, and how the proxy routes frames.
  - `ids.rs`, `message.rs` — identifier texts, the MD5 digest, and messages.
- `app/` — the program: sockets, SQLite, JSON, threads and the terminal.
- `tests/` — tests of the library.

## Behaviour worth knowing

- A server that joins the ring takes over the stored lists whose ring positions lie
  after its predecessor's position, up to and including its own; when the
  predecessor's position is not below its own, that range runs round the end of
  the ring (`storage::in_old_data_range`).
- The main menu takes `c` to create a list and `a` to open one by id; the list
  view takes `a` to add an item and `r` to refresh.
