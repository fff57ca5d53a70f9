# stacks_c32

Crockford-style base-32 ("c32") encoding of byte strings, the checksummed
c32check format and c32 addresses, verified with Verus.

- `src/address/c32_spec.rs`: what c32 text means: the alphabet, digit
  sequences and their values, and the re-basing between 8-bit and 5-bit digits.
- `src/address/c32.rs`: the codec (`c32_encode`, `c32_decode`,
  `c32_check_encode`, `c32_check_decode`, `c32_address`, `c32_address_decode`)
  with contracts over those specifications.
- `src/address/c32_lemmas.rs`: facts about digit sequences and the laws of the
  library (encode/decode round trips for c32, c32check and addresses).
- `src/address/stream_lemmas.rs`: bit-level facts behind the streaming loops.
- `src/address/hash.rs`: SHA-256 from the `sha2` crate, the one trusted call.
