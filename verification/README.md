# rmq

Range-minimum queries over a fixed slice of `u64` values: after `build(data)`,
`query(l, r)` returns the minimum of `data[l..=r]`. Every structure implements
the `Rmq` trait, whose contract states exactly that, and is verified with Verus.

- `src/rmq.rs` — the `Rmq` trait, and `query_sum`, the sum of the answers to a list of queries.
- `src/input.rs` — the benchmark input format (whitespace-separated numbers) and its parser.
- `src/rmq/range_min.rs` — the model: the minimum of a half-open range, and lemmas on it.
- `src/rmq/util.rs` — `min_of`, `ilog2`, powers of two, names with a block size.
- `src/rmq/naive.rs` — scans the range.
- `src/rmq/store.rs` — stores all `n (n + 1) / 2` answers.
- `src/rmq/sparse_table.rs` — minima of all windows of `2^j` values.
- `src/rmq/segment_tree.rs` — bottom-up segment tree.
- `src/rmq/block.rs` — blocks plus a sparse table over block minima, with or
  without precomputed prefix/suffix minima per block.
- `src/rmq/shape.rs` — Cartesian-tree shapes of blocks: equal shapes give equal
  local answers.
- `src/rmq/cartesian.rs` — one table of local answers per block shape.
- `app/` — the benchmark program (reads input files, times the queries).
- `tests/` — every structure against a brute-force minimum.
