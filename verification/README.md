# corridor_oracle

The verified core of a Soroban price-oracle contract for cross-border
currency corridors, written in Verus.

- `src/math.rs`: checked sums, truncated means, population and sample
  variance, spreads in basis points and fixed-point scaling.
- `src/median.rs`: insertion sorts and the median of validator submissions,
  plain or compacted into `(price, count)` buckets.
- `src/slashing.rs`: the exponential penalty multiplier, bond deductions,
  the rolling window of recorded faults and the settlement of a penalty
  against the stake registries.
- `src/fees.rs`, `src/governance.rs`, `src/auth.rs`, `src/reentrancy.rs`:
  corridor fee accrual, upgrade timelocks, validator state flags with the
  multi-signature barrier, and the re-entrancy lock.
- `src/host.rs`: the Soroban host vector and environment types, what a host
  vector holds, and the contracts assumed for the SDK calls made on it.

`app/` holds the contract-side glue that reads and writes contract storage,
checks authorization and hands plain values to the library.
