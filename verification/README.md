# slc_oxide

The slc replay format for Geometry Dash bots, as a Verus-verified library.

The library reads and writes replays as byte buffers:

- `src/v2`: SLC2 replays. Inputs are packed into blobs of states of one
  byte size; `Replay::write_inner` plans the blobs and writes them, and
  `Replay::read` reads them back.
- `src/v3`: SLC3 replays. A header, a 64-byte metadata block, atoms and a
  footer. The built-in action atom packs its actions into run-length
  encoded sections (`section.rs`, `builtin.rs`); other atoms are kept as
  opaque bytes (`atom.rs`).
- `src/action.rs`, `src/replay.rs`: generic actions and replays, which both
  versions convert to, and which write either version.
- `src/bytes.rs`: little-endian integers in byte sequences.

Tick rates are held as the bit patterns of their `f64` values.

The contracts state what each function reads, writes or returns, down to
the bytes. Among what they prove: a replay written in either version reads
back as it was (SLC2 keeps no seeds), a refused write says which action or
atom was refused, and `GenericReplay::order_inputs` sorts by frame while
keeping the order of actions on one frame.

`app/` holds what works on streams and floats: readers and writers over
`std::io`, error types that display, and descriptions of actions.
