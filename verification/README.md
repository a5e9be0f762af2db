# segment_tree

A generic segment tree (point update, inclusive range query) verified with
Verus.

- `src/fold.rs`: the left fold of a sequence, the monoid laws, and the
  lemmas that make a range query's result independent of how the range is
  split.
- `src/layout.rs`: the implicit array layout of the tree (node `k` with
  children `2k` and `2k + 1`), the leaves under a node, the bound that fits
  the tree into `4 * n` entries, and the frame lemmas for writes into one
  subtree.
- `src/segment_tree.rs`: `SegmentTree` with `new`, `from_data`, `update`,
  `query`, `len` and `is_empty`; its view is the sequence of its `n` slots,
  and `query(l, r)` is proved to return, for every monoid `op` that the
  combining closure computes (`is_monoid_of`), the fold of slots `l..=r`
  with `op`. A caller names its own `op`; the closure's `ensures` shows that
  the closure computes it.
- `src/ops.rs`: the counting combinator `add_u64`.
- `src/sum.rs`: the `Sum` grade record.
- `app/`: a request-metrics collector built on the verified tree; its
  response times are floating point, so it is not verified.
