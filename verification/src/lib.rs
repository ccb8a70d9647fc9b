//! Bounds-checked vector memory access.
//!
//! Fixed-width vector loads, stores, masked stores and gathers over
//! capacity-bounded sequences. Every access is shown to stay inside the
//! sequence from the declared bounds alone: the conditions are preconditions
//! that the verifier discharges where a wrapper is instantiated, so no bound
//! is tested while the operation runs.

pub mod bounded;
pub mod checks;
pub mod element;
pub mod endian;
pub mod laws;
pub mod pow2;
pub mod slice;
pub mod vector;
pub mod wrappers;
