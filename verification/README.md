# shardring

Consistent hashing with weighted virtual nodes, bounded loads, Maglev
tables, jump hashing and live migration between ring configurations,
written in Verus: every function of the library carries a contract that
Verus proves.

- `src/` is the verified library. `ring` builds the weighted ring and its
  snapshots, `bounded` routes with per-node load caps, `maglev` fills and
  reads Maglev tables, `jump` is jump consistent hashing, `migration` pairs
  two rings under a rollout rule and plans a switch, `health` holds the
  decisions of a health-aware ring, `metrics` the counters. `outside` holds
  the calls into XXH3, MD5 and the standard library whose contracts are
  trusted; `strmap` and `bytes` are small verified helpers.
- `app/` holds what the library leaves to its callers: floating-point views
  of its integer results (ratios are kept in millionths), serde and
  `std::error::Error` types, adaptive sizing, and the Tokio-based
  health-aware ring.
- `tests/` exercise the library.
