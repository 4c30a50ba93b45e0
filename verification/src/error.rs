//! The typed errors that fallible tensor operations return. Every composite
//! operation validates its preconditions and returns the first violation it
//! finds, before touching any storage.

use vstd::prelude::*;
use crate::dtype::{DType, Device};
use crate::shape::Shape;

verus! {

/// What went wrong in a tensor operation. Each variant names the operation
/// that detected it and carries the conflicting values.
#[derive(Debug, PartialEq, Eq)]
pub enum Error {
    /// A buffer's element count does not match the shape it was given.
    ShapeMismatch { buffer_size: usize, shape: Shape },
    /// Two operand shapes are incompatible for a binary operation.
    ShapeMismatchBinaryOp { lhs: Shape, rhs: Shape, op: &'static str },
    /// A source shape cannot be broadcast to the requested target shape.
    BroadcastIncompatibleShapes { src_shape: Shape, dst_shape: Shape },
    /// A tensor handed to a concatenation disagrees with the first operand
    /// on a dimension other than the concatenation axis.
    ShapeMismatchCat { dim: usize, first_shape: Shape, n: usize, nth_shape: Shape },
    /// Two operand dtypes differ where one was required.
    DTypeMismatchBinaryOp { lhs: DType, rhs: DType, op: &'static str },
    /// Two operand devices differ where one was required.
    DeviceMismatchBinaryOp { lhs: Device, rhs: Device, op: &'static str },
    /// The tensor's rank is not the one the operation needs.
    UnexpectedNumberOfDims { expected: usize, got: usize, shape: Shape },
    /// A dimension index is at or beyond the tensor's rank.
    DimOutOfRange { shape: Shape, dim: usize, op: &'static str },
    /// The bounds handed to `narrow` leave the dimension's range.
    NarrowInvalidArgs { shape: Shape, dim: usize, start: usize, len: usize, msg: &'static str },
    /// The dimension list handed to `permute` is not a permutation of the axes.
    InvalidPermutation { dims: Vec<usize>, op: &'static str },
    /// An index value read from an index tensor is out of range for the
    /// dimension being indexed.
    InvalidIndex { index: usize, size: usize, op: &'static str },
    /// A variadic operation was handed an empty list of tensors.
    OpRequiresAtLeastOneTensor { op: &'static str },
}

impl Error {
    /// A short description of the error, naming its variant.
    pub fn describe(&self) -> &'static str {
        match self {
            Error::ShapeMismatch { .. } => "shape mismatch",
            Error::ShapeMismatchBinaryOp { .. } => "shape mismatch in a binary operation",
            Error::BroadcastIncompatibleShapes { .. } => "shapes incompatible for broadcast",
            Error::ShapeMismatchCat { .. } => "shape mismatch in a concatenation",
            Error::DTypeMismatchBinaryOp { .. } => "dtype mismatch in a binary operation",
            Error::DeviceMismatchBinaryOp { .. } => "device mismatch in a binary operation",
            Error::UnexpectedNumberOfDims { .. } => "unexpected number of dimensions",
            Error::DimOutOfRange { .. } => "dimension index out of range",
            Error::NarrowInvalidArgs { .. } => "invalid narrow bounds",
            Error::InvalidPermutation { .. } => "not a permutation of the dimensions",
            Error::InvalidIndex { .. } => "index out of range",
            Error::OpRequiresAtLeastOneTensor { .. } => "at least one tensor is required",
        }
    }
}

} // verus!
