# ddnet_snapshot

Snapshot deltas for the DDNet game engine, with their behaviour stated in
Verus contracts and proved.

A snapshot is a flat sequence of `i32`s: a header, item offsets, and the
items, each a key (type and ID) followed by its payload. A delta between two
snapshots lists the keys that were deleted and an update record for every item
that is new or changed (changed items carry the word-wise difference to their
old payload).

## Layout

- `src/snap.rs`: the snapshot layout as spec functions, and a checked
  read-only view.
- `src/key_table.rs`: the open-addressing table from keys to indices that the
  delta algorithm uses as scratch space.
- `src/delta_spec.rs`: what the delta between two snapshots is.
- `src/unpack_spec.rs`: what applying a delta to a base snapshot yields.
- `src/delta.rs`: creating and applying deltas (`CSnapshotDelta`).
- `src/unpacked.rs`: the items that applying a delta yields.
- `src/builder.rs`: the decisions of the snapshot builder (life cycle,
  retries under the next ID, dropped items, item store in use).
- `src/laws.rs`: proofs that relate the operations, chief among them that
  applying the delta from `a` to `b` to `a` gives back the items of `b`.
- `app/`: the item stores of the snapshot builder, which come from the
  `libtw2-snapshot` crate, driven by the verified decisions, and the building
  of the snapshot that applying a delta yields. `libtw2-snapshot` and
  `libtw2-common` are not published on crates.io, so the library cannot
  depend on them: their item stores stay in `app/`, and the library hands
  them plain values (the items to add, the steps to take) and takes plain
  values back (what each step did).
