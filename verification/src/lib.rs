//! Verified core of a one-dimensional wave-equation simulator.
//!
//! The library integrates the wave equation `u_tt = a^2 u_xx` on a string of
//! length `l` by the method of characteristics on a grid with `dx = a * dt`,
//! where the update formulas are exact field operations.  All state is kept in
//! exact rational arithmetic, so every contract below states the outcome of a
//! step without any rounding error.

pub mod rat;
pub mod func;
pub mod engine;
pub mod laws;
