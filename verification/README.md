# zcash_primitives (Sprout codec)

Sprout JoinSplit descriptions and bundles of Zcash transactions, with their
canonical binary encoding, verified with Verus.

- `src/sprout.rs` — `SproutProof`, `JsDescription`, `Bundle`; reading and
  writing them on byte buffers; net values and the bundle value balance; the
  round-trip laws of the encoding.
- `src/compact_size.rs` — the CompactSize count encoding, through
  `zcash_encoding::CompactSize`.
- `src/value.rs` — zatoshi amounts, through `zcash_protocol::value::ZatBalance`.
- `src/bytes.rs`, `src/error.rs` — byte-buffer helpers and error types.
- `app/lib.rs` — stream (`corez::io`) adapters, `ZatBalance` conversions and
  debug formatting around the library.
- `tests/` — tests on concrete values.

## What is not here

The compressed-transaction types (`CompressedTransaction`,
`CompressedTransactionData`, `DecompressionError` and their methods:
constructors, getters, `freeze`, `parts`, `txid`, `into_data`,
`auth_commitment`, `decompress`, `write`, `read` and its v4/v5/v6 readers, and
`Transaction::compress`) are not part of this crate. They build on transaction
types and serialization modules that are not available here (`Transaction`,
`TransactionData`, `TransactionParts`, `TxVersion`, the transparent, Sapling
and Orchard component readers), and on Sapling and Orchard APIs
(`BundleBytes`, `Bundle::compress`, `BundleBytes::decompress`,
`BundleDecompressionError`) that no published version of `sapling-crypto` or
`orchard` provides.

`Debug` on `SproutProof`, `JsDescription` and `Bundle` is derived, and prints
every field; `app/` holds `SproutProofDebug` and `JsDescriptionDebug`, which
print the shorter form that leaves proofs and ciphertexts out.
