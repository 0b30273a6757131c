# ic-stable-replog

A map from byte strings to byte strings with built-in change tracking, verified
with [Verus](https://github.com/verus-lang/verus). Every key has a stable entry
ID and every change is logged, so that clients (browser apps, local databases,
indexers) can replicate the map incrementally:

- `changes_since(cursor, limit)` returns the changes behind a cursor, or `None`
  where the changelog was compacted or cleared past it;
- `snapshot_page(after_key, limit)` returns the map page by page, in key order,
  for a first sync or a resync;
- `compact` empties the changelog, `clear` the whole map.

The map is held in four structures of `ic-stable-structures`: a key index and a
value store (`BTreeMap`), the changelog (`Log`) and the counters (`Cell`). Each
lives in memory of its own, which `RepLogMap::init` takes and
`RepLogMap::into_memories` gives back. While a map is open its memories are on the
heap: what is done to it reaches other memory, such as a canister's stable memory,
when the map is saved there. `RepLogMap::try_init` is `init` for memories whose
changelog or counters may not be those of a map.

## Layout

- `src/` is the verified library. `src/storage.rs` holds everything that is
  believed of `ic-stable-structures`; the rest is proved from it. `src/model.rs`
  says what a map holds and what each operation makes of it, `src/laws.rs` and
  `src/history.rs` what holds of every map, step by step and over a history.
  `src/sync.rs` and `src/sync_by_id.rs` prove that a client which follows a map in
  requests of any size, while the map goes on changing, and is not told to resync,
  holds the contents of the map once it has caught up; `src/snapshot.rs`, `src/resync.rs` and `src/resync_by_id.rs` that one
  which reads the map page by page first does too, and `src/late_values.rs` that
  none is left without a value where a client files rows before it has their values.
- `app/` is ordinary Rust around it: errors and stored forms that implement
  traits of other crates, loading a map from any `Memory` and saving it there, also
  around every single call, and keys and values of other types than bytes.
- `tests/` runs the library on the real structures.
