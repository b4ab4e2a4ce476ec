# eigenflow

A small state-vector quantum simulator (single-qubit gates, controlled gates,
CNOT, SWAP, measurement, circuits with diagrams, Grover's search) whose logic is
verified with Verus.

## Exact amplitudes, and their limits

A state of `n` qubits holds `2^n` Gaussian integers `amplitudes[i]` (64-bit
parts) and a positive integer `norm` (128 bits); the amplitude of basis state
`i` is `amplitudes[i] / sqrt(norm)`. Gates carry an integer matrix and a power
of `1/sqrt(2)` (`H = [[1, 1], [1, -1]] / sqrt(2)`). Common factors of two are
removed after each step. The representation has two limits, and both are part
of the contracts:

- **Size.** When an exact result does not fit 64-bit entries and a 128-bit
  norm, the operation returns `SimError::Overflow` and leaves the state as it
  was. The library's gates on a normalized state never overflow while the norm
  stays within `2^123`; a circuit run never overflows while the norm times
  `2^(number of operations)` stays within `2^124` (so `sample` always succeeds
  for circuits of up to 124 operations). Grover's search always succeeds for up
  to 7 qubits (`GROVER_EXACT_QUBITS`), and then finds its target with
  probability at least `1 - 1/2^n`; from 8 qubits on, its exact norm outgrows
  128 bits and `grover::run` returns `Overflow`. The exact amplitudes of
  Grover's search on `n` qubits have numerators of about
  `n * sqrt(2^n) / 2` bits and more (8 qubits: 88 bits; 20 qubits: some 15000 bits for each
  of a million amplitudes), so exact arithmetic of any width stays far below
  the register sizes a floating-point simulator reaches.
  `from_amplitudes` removes common factors of two, so a state given with
  needlessly large entries is held with the smallest ones.
- **Powers of sqrt(2).** A controlled gate with an odd power of `1/sqrt(2)`
  (controlled-H) is exact when the control qubit is |1> nowhere, where nothing
  changes, or |0> nowhere, where every pair is mixed. When both parts are
  nonzero the amplitudes would sit at two different powers of `sqrt(2)`, which
  `amplitudes / sqrt(norm)` cannot hold; the result is `SimError::Inexact` and
  the state is unchanged.

## Layout

- `src/` the verified library: `complex`, `gate`, `state` (gates, measurement),
  `circuit`, `counts` (sampling tallies keyed by bit strings), `render`
  (operation lists and ASCII diagrams), `report` (the order of a Grover
  result printout), `grover`, `grover_success` (the exact course of Grover's
  search on up to seven qubits and its success probability), `text` (decimal and binary notation),
  `random` (the calls into `rand`), and `laws` (properties that span several
  functions: gates and CNOT/SWAP undo themselves, every operation keeps a state
  normalized, measuring again repeats the outcome, sampled outcomes have
  positive probability, diagram rows line up, Grover on two qubits is exact,
  and when gates, circuits and Grover's search fit the representation).
- `tests/` the test suite.
- `app/` the demo program: prints diagrams, Grover results and a Bell state,
  turning exact amplitudes into floating point for display.
