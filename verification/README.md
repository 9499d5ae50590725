# systile

Matmul-native data structures and algorithms over a padded, tile-laid-out
lattice: a tensor stored the way a TPU's vector memory is addressed
(`sublanes × lanes` tiles, padding, a validity mask), and engines whose dominant
operation is a dense matrix multiply.

The integer logic is verified with Verus:

- `geometry`, `shape`, `layout`, `mask`, `lattice`, `elementwise` — tile
  geometry, padding, the tiled address map (in range and injective), the
  validity mask, and the lattice itself (dense round trips, read-after-write).
- `semiring` — Boolean, tropical (min-plus, saturating) and counting
  (mod 2^64) semirings with their laws, and matmul over any of them.
- `graph` — reachability, all-pairs shortest paths and walk counts as
  semiring matrix powers, each proved against its graph-theoretic meaning.
- `editdist` — Levenshtein distance as a tropical shortest path.
- `automaton` — a DFA run as one-hot matmuls; the mod-k divisibility automaton.
- `bloom`, `sketch` — a counting Bloom filter and a Count-Min sketch whose batch
  queries are matmuls (no false negatives; never an underestimate).
- `classifier` — the hyperdimensional classifier: level hypervectors, sign
  encodings, prototypes as integer sums, and the first best class by score.
- `hyper`, `resonator`, `bf16`, `conv`, `scan`, `pagerank`, `attention` — the
  integer parts of the hyperdimensional and numeric engines: atom signs, the
  rotation `ρ` and its inverse, the factorization restart policy, bf16
  bit-level rounding, im2col windows, triangular scan patterns and PageRank
  link counts.

`app/` holds the floating-point side (real-valued matmul, hypervectors,
holographic memories, the DFT, attention, prefix sums, PageRank iteration) on
top of the verified library. `tests/` exercises the library from outside.
