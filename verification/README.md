# k_of_n_rss_mpc

A simulation of secure multi-party computation over k-of-n replicated secret
sharing (RSS) of `u16` values, verified with Verus.

Layout:

- `src/sharing/` — the rings (`Arithmetic`, integers modulo 2^16; `Binary`,
  bits), replicated and additive sharing, the subsets of `k - 1` parties that
  index the shares, and the full and parallel-prefix bit adders.
- `src/assignment.rs` — greedy assignment of work items to parties, and what it
  means for the sums the parties compute.
- `src/prng.rs` — one seeded ChaCha20 generator per subset.
- `src/mpc.rs` — the `MPC` simulator: variables, addition, multiplication and
  extraction of the most significant bit.
- `src/randomness.rs` — the declarations of the random number generators of
  `rand` that the library draws from.
- `app/main.rs` — an example run of a 3-of-5 scheme.

Main results proved:

- any `k` parties of a sharing reconstruct its secret; no `k - 1` parties hold
  every share, and whatever such parties hold is also dealt for any other
  secret, with other randoms;
- opening a variable gives back the secret it was created with; `add`, `mult`
  and `get_msb` open to the sum, the product and the top bit of their inputs;
- both adders compute the sum of two bit vectors modulo 2^length; the full
  adder makes one AND, four XORs per bit and one zero, the parallel-prefix
  adder `4 len - 3` ANDs, `4 len - 2` XORs and `len` zeros, and the most
  significant bit costs one addition per party's sum but the first;
- resharing a product draws each subset's value from that subset's own seeded
  generator, and only the last subset carries the correction; the product's
  shares are exactly those of that resharing;
- no `k - 1` parties can tell the secret of any sharing (dealt, added or
  multiplied) from any other;
- with `2(k - 1) < n` every crossterm of a product is assigned to a party that
  can compute it, and with `n = 2(k - 1) + 1` every party is assigned one.
