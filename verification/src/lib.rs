//! A small 3-D Euclidean vector-algebra substrate for geometric and physical
//! computations.
//!
//! The crate provides exact-coordinate vectors and spheres, the in-place
//! Gram-Schmidt orthonormalization driver that tolerates zero and linearly
//! dependent inputs, and the emission logic for orthogonal-complement bases.
//! Scalar arithmetic that the caller wants to perform in another number
//! representation is passed in through closures, so the partitioning
//! algorithm itself is verified once for every scalar type.

pub mod complement;
pub mod diff;
pub mod geometry;
pub mod ortho;
