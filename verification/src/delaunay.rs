//! The half-edge mesh that triangulations are built on.
//!
//! - [`dcel`]: the executable structure, its handles and walks.
//! - [`mesh`]: its mathematical model and the invariant.
//! - [`surgery`] and [`removal`]: what each operation does to the model.
//! - [`orbit`]: cycles of permutations, which boundary cycles and vertex
//!   stars are.
//! - [`simple`]: faces keep a single boundary cycle each.
//! - [`laws`]: what holds of every consistent mesh.

pub mod dcel;
pub mod laws;
pub mod mesh;
pub mod orbit;
pub mod removal;
pub mod simple;
pub mod surgery;
