# simpledb

A small storage engine written in Verus: 8 KB slotted pages, B+ tree leaf and internal
nodes built on them, an in-memory pager, and a B+ tree that ties them together. Every
function carries a contract that Verus proves.

## Layout

- `src/utils/byte.rs` — little-endian reads and writes of `u16`/`u32`.
- `src/btree/key.rs` — byte-wise lexicographic key order.
- `src/btree/tuple.rs` — the tuple encoding: a 5-byte header (a flags byte, then the
  key and value lengths as `u16`) followed by the key and value bytes.
- `src/page/` — the slotted page. `layout.rs` reads a page's bytes as a header, a slot
  array and tuples; `view.rs` models a well-formed page as a sorted list of entries plus
  its header fields and states the page laws (a put then a lookup, a remove then a
  lookup); `page.rs` holds the executable page with its contracts.
- `src/btree/leaf.rs`, `src/btree/internal.rs` — leaf and internal node views over pages,
  with splits and the laws they keep.
- `src/pager/pager.rs` — the page store.
- `src/btree/tree.rs` — the tree: search, insert with split cascades, remove, and scans
  along the leaf chain. `structure.rs`, `ranges.rs` and `chain.rs` hold the tree's
  invariants (levels, key ranges of pages, leaf ranges following the chain) and the
  lemmas that carry them through each operation.

## Checking

`tests/` holds the unit tests; the proofs are checked by running Verus on `src/lib.rs`.
