# SHA-224 / SHA-256, verified with Verus

- `src/spec.rs`: the FIPS 180-4 model (schedule, rounds, compression,
  padding, digests) and the lemmas that join its pieces.
- `src/soft.rs`: the portable scalar compressor.
- `src/lanes.rs`: eight-word vectors of two four-word lanes and the vector
  instructions the two-lane schedule uses (vpaddd, vpxor, shifts, vpalignr,
  vpshufd, vpshufb, 64-bit shifts).
- `src/two_lane.rs`: a compressor laid out for two-lane vector units
  (AVX2/BMI2 style): two blocks scheduled together with those instructions,
  rounds with the deferred Sigma0 addition.
- `src/oracle.rs`: independent padding plus the scalar compressor.
- `src/hasher.rs`: streaming `Sha224` and `Sha256`.
- `src/dispatch.rs`: the backend priority and compression by backend.
- `src/rng.rs`: the xorshift32 generator used by the randomized tests.
- `app/`: runtime CPU feature detection and hashers on the detected backend.

Every function in `src/` is proved against the model; `tests/` runs
randomized cross-checks and known-answer vectors.
