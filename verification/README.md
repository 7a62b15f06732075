# vinf

VINF maps data to coordinates in a virtual space; this crate holds its hashing
primitives and its prototype compressor, written in Verus and verified.

Layout of `src/`:

- `hash/permutation.rs` — the 12-round permutation `vinf_p` over eight 64-bit words,
  its specification step by step, and a proof that it is a bijection.
- `hash/encoding.rs` — little-endian encoding and decoding of integers.
- `hash/sponge.rs` — round constants, `absorb`, `squeeze`, `h_node`, `basic_hash`,
  `xof_bytes`, and the prefix property of the output stream.
- `hash/sorting.rs` — insertion sort of pairs, proved to order and to keep its input.
- `hash/layers.rs` — the X/Y/Z layers of a digest and partial matching.
- `hash/graph.rs` — `Node`, `Edge`, `Graph` and the graph fingerprint `build_vinf_hash`.
- `hash/node_order.rs` — proof that the fingerprint does not depend on the order of the nodes.
- `compressor.rs` — `Vinf`: known hashes and data, candidate search, the VINF blob
  written by `compress` and read back by `decompress`, and known-hash files as bytes.
- `errors.rs` — the library's `Error`.

`app/` adds what needs the file system or `std::io::Write`: `.vhash` files, writing a
fingerprint to any writer, and an error type with `Display`.
