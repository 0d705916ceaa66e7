# rezip

Takes deflate (gzip) streams apart and puts them back together, so that a compressed
file can be stored as its plain bytes plus a small trace of how the encoder chose its
codes. The library is written in Verus: each function carries a contract, and Verus
proves the code against it.

## Layout

- `src/` — the verified library.
  - Reading and writing streams: `bit` (bit readers and writers), `huffman` and
    `code_tree` (code lengths and trees), `parse` (blocks and codes), `serialise`
    (decompression and writing blocks back), `round_trip` (writing back the blocks that
    were read gives the same bits, unless a run of 258 was coded with symbol 284), `gzip` (the file header), `circles` (the sliding dictionary),
    `seen`, `lengths`, `encode`, `decodes`.
  - Guessing what an encoder did: `all_refs`, `sixteen_refs`, `back_map`, `bad_table`
    (where earlier bytes repeat), `picker`, `lookahead`, `technique`, `emulate` (gzip's
    own choices), `bestguess`, `infer`, `obscure`, `iters`, `three`, `sixteen`.
  - Traces: `trace` (what a guesser got right, and restoring codes from that) and
    `serialise_trace` (the stored form of a trace).
  - `zero`: re-storing a gzip file as stored blocks cut at rsync-friendly boundaries.
- `tests/` — tests of the library.
- `app/` — the command-line program: `cat`, `dump` and `zero`, with the file I/O and
  argument handling that the library leaves out.
