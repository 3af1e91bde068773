# thingdb

An entity database in the style of an entity-component system, with its core logic
verified by Verus.

- `src/` is the verified library: the key layout of every record (`storage`), the
  archetype cache (`archetype`, `ids`), the transaction write buffer (`tx`, `bytemap`)
  and the batch that commits it (`commit`), query selection (`query`), edge traversal
  (`edge`), and the `Attribute`, `Edge` and `Entity` traits.
- `app/` wraps the library with the RocksDB store, asynchronous transactions that
  answer the buffer's reads from the store, queries that deserialize with postcard,
  blueprints, and the `World` handle.
- `tests/` runs the library on concrete values.
