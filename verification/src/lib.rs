//! Core of a shape-polymorphic N-dimensional tensor library: strided layouts
//! over shared element storage, zero-copy view operations, elementwise,
//! reduction, matrix and indexing kernels, and a recorded operation graph
//! for backward replay.

pub mod concat;
pub mod conv;
pub mod custom;
pub mod dims;
pub mod dtype;
pub mod elementwise;
pub mod error;
pub mod index_ops;
mod kernel;
pub mod laws;
pub mod layout;
pub mod matmul;
pub mod op;
pub mod pool;
pub mod reduce;
pub mod resize;
pub mod shape;
pub mod tensor;
