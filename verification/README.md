# jam

Zero-copy views over little-endian byte buffers, verified with Verus.

- `src/value.rs`: the `Value` trait (values in fixed-size slots, read and
  written through a cursor) and its implementations for `u8`, `u16`, `u32`,
  `u64` (little-endian), `bool`, `Option`, `Result`, pairs and fixed-size
  arrays, with the laws that a read of a write gives the value back and
  touches no byte past the slot.
- `src/object.rs`: the `Object` and `SizedObject` traits for typed views over
  borrowed bytes, and `Field`, a one-slot object.
- `src/array.rs`: `ArrayV` (values), `ArrayO` (fixed-size objects) and
  `ArrayI` (an offset table), with their cursors and the laws that iteration
  yields the elements in index order and then stays ended.
- `src/internal.rs`, `src/rt.rs`: the slicing and cursor primitives, with
  `usize` and `u32` offsets.
- `src/generate.rs`: the generator's field types and the update of a source
  file after its marker line.
- `app/lib.rs`: file and environment access for that update, and the `f32` /
  `f64` slots.
