# axe_chain

A proof-of-work blockchain library whose rules are stated as `requires` /
`ensures` contracts and proved with Verus.

- `src/` is the verified library:
  - `u256`, `encoding`, `sha256`: 256-bit numbers, the CBOR bytes a value is
    hashed as, and SHA-256 hashes read as numbers.
  - `crypto`, `time`, `error`, `output_map`: keys and signatures as bytes,
    timestamps, refusals, and tables keyed by hash.
  - `types`, `types::block`, `types::blockchain`, `util`, `difficulty`:
    transactions and blocks, the checks of a block's transactions and coinbase,
    mining, the chain with its unspent outputs and mempool, Merkle roots and
    target adjustment.
- `tests/` runs the library against concrete values.
- `app/` holds what Verus does not see: serde forms of the library's types,
  conversions from the `k256`, `chrono` and `uuid` types, the clock, and
  errors that implement `std::error::Error`.

The calls into `sha256`, `hex`, `ecdsa`/`k256`, `bigdecimal` and `chrono` sit
behind a few `#[verifier::external_body]` functions whose doc comments say
what their contracts assume.
