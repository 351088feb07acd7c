# simple_key_store

An in-memory `key:value` store whose entries may expire, verified with Verus.

- `src/` is the verified library:
  - `storage.rs`: the pairs (a `HashMap`) and their queued expirations, with
    `get`, `insert`, `remove` and the cleanup of expired keys; contracts are
    stated over `contents()` (each key with its data and expiry time) and
    `pending()` (the queued expirations).
  - `heap.rs`: the min-heap that queues expirations, earliest first.
  - `expiring_key.rs`, `value.rs`: the entries of the queue and of the map.
  - `shared.rs`: the storage behind a lock, the stop flag of the background
    cleanup, and the decision of how long the cleanup sleeps.
  - `laws.rs`: properties that span several operations.
  - `clock.rs`: the clock that expiry times (ticks, in nanoseconds since the
    storage was created) are read from.
- `tests/` exercises the library.
- `app/` holds the thread-safe `KeyStore` with its background thread, which
  drives the verified library.
