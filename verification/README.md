# designity

Scoring and progression rules of the Designity organization program, verified
with Verus.

- `src/` — the verified library.
  - `ieee`: order and zero tests on IEEE single-precision values held by bit patterns.
  - `levels`: the level a score earns against thresholds; the one-step move of levels.
  - `grouping`: how review dimensions are cut into averaged groups.
  - `org`, `score`: the organization and contributor records, and the scoring rules.
  - `metadata`: NFT names, symbols and URIs.
  - `instructions`: what each instruction decides and changes.
- `app/` — the on-chain program: accounts, clock and rent, token-program calls,
  and the floating-point sums and averages, around the library.
- `tests/` — tests of the library on concrete values.
