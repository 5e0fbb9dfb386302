# ising

Single-spin-flip Metropolis Monte Carlo for the 2D ferromagnetic Ising model
on an `L × L` square lattice with periodic boundary conditions, written in
Verus.

- `src/lattice.rs` — the mathematical model: neighbours on the periodic
  lattice, bond energies, total energy, magnetisation, single and global spin
  flips, and the proved laws (energy change of a flip, invariance under global
  spin reversal and cyclic translation, range, parity and ground states of the
  energy, energies of the ordered and checkerboard lattices).
- `src/ising.rs` — `IsingModel` with its verified operations (`new_ordered`,
  `new_random`, `set_temperature`, `sweep`, `energy`, `delta_energy`,
  `magnetization_sum`), the Metropolis acceptance rule, and its laws
  (zero-temperature descent, symmetry under global spin reversal).
- `src/random.rs` — the calls into `rand`'s `SmallRng`.
- `src/sums.rs` — finite sums and their lemmas.
- `src/schedule.rs` — sweep counts per lattice size.
- `app/` — the temperature scan program: temperatures and the floating-point
  statistics (`Accumulator`, `Observables`), and CSV output.

A temperature enters the library as its two Boltzmann factors `exp(−4/T)` and
`exp(−8/T)` in 53-bit fixed point; `app/main.rs` computes them.
