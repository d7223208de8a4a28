# leansig

Hash-based, stateful signatures (generalized XMSS) over BLAKE3, with every
piece of the scheme's logic proved in Verus.

## Layout

- `src/primitives.rs` — the calls into BLAKE3 and the random-number
  generator; each BLAKE3 result is named by an uninterpreted spec function.
- `src/symmetric/` — the pseudorandom function, the message hash (bit
  packing of the BLAKE3 XOF for power-of-two bases, rejection sampling of
  uniform chunks for other bases), the tweakable hash with
  Winternitz chains, four-lane batches and the BLAKE3 compression on four
  lanes, and sparse Merkle trees with authentication paths.
- `src/inc_encoding/` — the target-sum incomparable encoding.
- `src/signature/` — the signature-scheme traits, generalized XMSS (key
  generation, the sliding window of prepared bottom trees, signing with
  epoch-reuse protection, verification) and its BLAKE3 instantiations.
- `src/serialization.rs`, `*/codec.rs` — the canonical SSZ encoding of trees,
  keys and signatures, with decoders proved to accept exactly the encodings of
  acceptable values.
- `src/cli.rs` — the rules of the key-generation benchmark's command line.
- `app/` — the benchmark programs (timing, I/O, argument handling).
- `tests/` — tests of the library, run against the real BLAKE3 crate.

## Main guarantees

- A signature returned by `sign` verifies under the key's public key, and
  `sign` refuses an epoch outside the activation interval or the prepared
  window, or one already used; a key never signs twice at one epoch.
- Every operation keeps the key well formed: its trees are consistent with
  the PRF key, and its record of used epochs is sorted and inside the window.
- Opening any leaf of a tree built by the library verifies against its root.
- Decoding returns a value exactly when the bytes are the encoding of an
  acceptable value, and encodings determine values, so decoding an encoding
  gives the value back. A decoded key reports its intervals, and
  `is_consistent` decides whether its trees match its PRF key, so that it
  can sign.

## Serialization formats

Keys and signatures have one byte format here: the canonical SSZ encoding,
written and decoded by verified code. Serde's `Serialize` and `Deserialize`
are not provided for them. A derive of an outside crate cannot stand in the
verified library, and the program crate cannot implement an outside trait
for the library's types, so serde support would need copies of the types in
the program crate.
