# forest_car

The `forest.car.zst` archive format and the chain data that goes into it,
written and verified with Verus.

- `src/` is the library. Everything in it is verified; what it takes from other
  crates (hashes, zstd, DAG-CBOR, signatures) stands behind small functions whose
  contracts are trusted.
  - `db::car::forest`: archives of CAR blocks in small zstd frames, with an
    embedded index. `index` is the hash table, `compress` the framing.
  - `utils`: identifiers, CAR blocks, encodings.
  - `blocks`: block headers, tipsets and their canonical order.
  - `cid_collections`: a hash map keyed by identifiers.
  - `shim`: addresses, signatures, amounts.
- `tests/` runs the library on concrete values.
- `app/` is what surrounds the library: asynchronous writing, block stores and
  serde.
