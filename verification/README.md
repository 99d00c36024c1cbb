# sponsor_allocator

A sponsor allocation engine with round-robin and performance-based
strategies, verified with Verus.

- `src/` is the verified library: the model of candidates and pool contents
  (`model.rs`), the bounded pool (`pool.rs`), the allocation strategies
  (`strategy.rs`), the service with its outbox events (`service.rs`,
  `events.rs`), the records a saved service consists of (`storage.rs`), and
  properties spanning several operations (`laws.rs`). Accounts are
  identified by the 128 bits of their UUID.
- `app/` holds what Verus does not check: serde and thiserror forms of the
  library's types, the PostgreSQL repository, and a demonstration run.
- `tests/` exercises the library.
