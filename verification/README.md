# open_stylus

Fixed-point math, trigonometry, a Fourier transform and a multi-token ledger for
smart contracts, written in Verus and verified:

- `src/wide.rs`: unsigned and signed 256-bit integers made of two 128-bit halves, with
  the shifts, comparisons, wrapping and checked arithmetic and long division the other
  modules need, each specified over the integer it stands for.
- `src/abdk.rs`: the ABDK 64.64 signed fixed-point library (conversions, arithmetic,
  square roots, powers, logarithms, exponentials), each function specified exactly,
  rounding included, together with the laws that tie them together.
- `src/trig.rs`: table-driven sine and cosine in 18-decimal fixed point.
- `src/fourier.rs`: an in-place radix-2 fast Fourier transform in 18-decimal fixed point,
  specified stage by stage, with its bit-reversal permutation.
- `src/erc6909.rs`: an ERC-6909 multi-token ledger with balances, allowances, operators
  and an event log.

`tests/` runs the library on concrete values. `app/` converts between the library's
types and the Ethereum types of `alloy-primitives` and offers the ledger through them.
