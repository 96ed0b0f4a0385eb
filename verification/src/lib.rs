//! A small verified geometry and numerics toolkit: fixed-size integer
//! vector and matrix types, exponentiation helpers, and a quadtree
//! spatial index with proved structural invariants.

pub mod dim2;
pub mod dim4;
pub mod laws;
pub mod pow;
pub mod quadtree;
