# arctic

An adaptive radix tree mapping byte-string keys to `u64` values, written in
Verus: every function in `src/` carries a contract that Verus proves.

## Layout

- `src/bytes.rs`: byte-string order, prefixes and big-endian integers, with
  the lemmas the rest of the crate leans on.
- `src/raw/`: the tree itself.
  - `edge.rs`, `edge/le.rs`, `edge/be.rs`: edges and their packed keys of up
    to seven bytes.
  - `node.rs` and `node/`: nodes of 3, 15, 47 and 256 slots, their headers,
    lookup, insertion of key bytes, and rebuilding into another kind;
    `node/simd.rs` holds byte-lane masks over 16-byte headers.
  - `cursor.rs`: lookup, insertion (splitting edges where keys part) and
    removal (which empties the value's edge and leaves nodes in place),
    each proved against the tree's lookup function.
  - `iter.rs`: filters (ranges, prefixes) and the in-order walk that lists
    what a filter admits, skipping subtrees that cannot match.
  - `key/`: readers and writers that walk keys a byte or a bit field at a
    time, for byte vectors, integers and fixed arrays.
- `src/sequential.rs`: `RadixMap`, whose view is a `Map<Seq<u8>, u64>`, its
  listings in key order, `IntMap` for `u64` keys and `ValueMap` for values
  of any type stored as a `u64` word; the laws relating
  reads, writes, removals and listings are proof functions there.
- `src/sequential/entry.rs`: entries of a key, looked up once and then read,
  written through a reference into the tree, or filled in.
- `src/stat.rs`: event counters, maxima and histograms (kept by
  `hdrhistogram`), and `process`, which tallies the shape of a tree.
- `src/value.rs`: values that pack into a `u64` and back.
- `app/lib.rs`: a lock around `IntMap` for use from several threads.
- `tests/`: the tests, run against the compiled crate.
