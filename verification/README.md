# blake2b-192

BLAKE2b with the digest length fixed at 24 bytes (192 bits), written in Verus
and proved against a mathematical model of RFC 7693.

- `src/spec.rs`: the model — G, the compression function, the one-shot
  processing of a message, the output serialization.
- `src/engine.rs`: `Blake2bCore`, the streaming engine at digest lengths 1 to
  64, proved to compute the model on everything absorbed so far, whatever the
  chunking.
- `src/lib.rs`: the headline API, `Blake2b192` and `hash`.
- `src/laws.rs`: properties across calls (streaming equals one-shot, empty
  updates are no-ops, two updates reach the state of one, the initial
  parameter word, the 128-bit counter).
- `src/lemmas.rs`: the facts about the model that the engine's proofs use.
- `src/vectors.rs`: the test-vector corpus grammar, SplitMix64, and the
  differential fixtures computed with RustCrypto's `blake2`.
- `app/main.rs`: the program that writes the differential fixture file.
