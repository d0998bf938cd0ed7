//! Building blocks of two-dimensional computational geometry.
//!
//! - [`boundingrect`]: axis aligned bounding rectangles over points of any
//!   dimension and any scalar type, with their distance measures.
//! - [`delaunay`]: a doubly connected edge list, the half-edge mesh that
//!   stores a planar subdivision and supports local surgery on it: adding,
//!   splitting, flipping and removing edges, creating faces, removing
//!   vertices.
//! - [`traits`] and [`point_traits`]: the scalars and points that the
//!   rectangles are made of.
//!
//! Every function carries a contract that says what it returns or changes.
//! The contracts are proved, but for those of the three functions in
//! [`traits`] that call the `num` crate for zero, one and the absolute value
//! of an `i64`.

pub mod boundingrect;
pub mod delaunay;
pub mod point_traits;
pub mod traits;
