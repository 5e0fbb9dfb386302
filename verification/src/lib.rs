//! A two-dimensional ferromagnetic Ising model on an `L × L` square lattice
//! with periodic boundary conditions, simulated by single-spin-flip
//! Metropolis Monte Carlo.

pub mod schedule;
pub mod sums;
pub mod lattice;
pub mod random;
pub mod ising;
