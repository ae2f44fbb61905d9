# haversine_distance

Building blocks of a haversine-distance toolkit, verified with Verus.

- `src/hash.rs`: the 64-bit FNV-1a hash, and the order-independent checksum
  of a run's answers.
- `src/string_pool.rs`: a pool of distinct strings, each identified by its
  bucket (chosen by the FNV-1a hash of the string) and its offset there.
- `src/json_lexer.rs`: a streaming JSON lexer, fed chunks of bytes; its
  abstract state machine is in `src/json_lexer/model.rs` and its invariant
  and the laws of the token stream in `src/json_lexer/laws.rs`.
- `app/`: reading files through the lexer, temporary files, and the two
  command-line programs (data generation with floating-point haversine
  distances, and printing the tokens of a JSON file).
