# cubic_bitfields

Bitfields of 32 x 32 x 32 bits, verified with Verus.

A `Bitfield` holds 1024 words of 32 bits. Word `w` is row `w % 32` of inner
slice `w / 32`; bit `z` of a word is its place in outer slice `z`. Bitfields are
filled by comparing packed arrays of 1-, 2-, 4-, 8- or 16-bit elements against
a value, merged into the old bits by assignment, or, exclusive or or and;
combined word by word; shifted; and transposed, either as a 32 x 32 matrix of
words or as 32 bit matrices of 32 x 32 bits. A `TrackedBitfield` also keeps
which rows and slices hold a set bit, so that its operations skip empty slices,
and walks its set bits in order.

Layout:

- `src/bits.rs`: single bits of words, and the bit-vector facts the proofs use.
- `src/loader.rs`: the comparison and merge rules, and the kernels that turn
  packed elements into masks.
- `src/lane_groups.rs`: masks read in groups of vector lanes, for walks that
  visit rows or slices a vector at a time.
- `src/transposes.rs`: the two transpositions and their specifications.
- `src/bitfield.rs`: `Bitfield`.
- `src/tracked_bitfield.rs`: `TrackedBitfield` and its iterator over set bits.
- `src/util.rs`: generators of test data.
- `app/`: printing of slices.
- `tests/`: tests of the library.
