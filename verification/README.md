# neon_shmem

A chained hash table with a fixed number of buckets that stands in memory lent to it, such as a
shared memory area, verified with Verus.

- `src/hash.rs`: `HashMapInit` describes a table and lays out its area; `HashMapAccess` uses it.
- `src/hash/model.rs`: the mathematical model of a table, over which the contracts speak.
- `src/hash/table.rs`: the table over borrowed slices; `src/hash/entry.rs`: views of one entry.
- `src/hash/layout.rs`: how an area is carved into parts.
- `src/hash/hasher.rs`: what hashes keys.
- `src/hash/laws.rs`: what holds of the operations taken together.
- `app/`: cuts the parts out of real memory.

The table does not lock: callers that share one take turns.
