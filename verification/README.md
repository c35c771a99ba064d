# debank_trace

Block export for the debank pipeline, written in Verus: for one block it builds
the block record, the transaction records, the traces and events of every
transaction, the storage contracts, the validation hash and the hashed state
diff, with each step's result stated in its contract and proved.

## Layout

- `src/` is the verified library.
  - `hexfmt`, `quantity`, `bytes`: hex, decimal and byte-string helpers.
  - `hashing`: MD5 identifiers and the SHA-1 validation hash.
  - `debank`: the records of a block file and `BlockFile::validation`.
  - `state_diff`: the executor's account diff and the hashed storage diff.
  - `parity`: parity traces turned into a trace tree.
  - `arena`: the walk over a re-executed transaction's call-trace arena.
  - `block`: the export of a whole block.
  - `trace_api`: the choices made by the trace RPC methods.
- `tests/` runs the library on concrete values.
- `app/` holds what Verus does not see: serde and RLP copies of the records, the
  JSON header, the clock, and the checks made before calling the library.

The laws of the library are the public proof functions whose names start with
`law_`.
