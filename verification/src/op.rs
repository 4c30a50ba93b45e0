//! The recorded operation graph. Every operation that derives a tensor from
//! prior tensors attaches an `Op` edge naming its operands and scalar
//! parameters, unless none of the operands is tracked; the backward pass
//! replays gradients by pattern-matching on these edges.

use vstd::prelude::*;
use crate::error::Error;
use crate::layout::Layout;
use crate::shape::Shape;
use crate::tensor::Tensor;

verus! {

/// The elementwise binary operations.
#[derive(Clone, Copy, Debug, PartialEq, Eq, Structural)]
pub enum BinaryOp {
    Add,
    Sub,
    Mul,
    Div,
    Maximum,
    Minimum,
}

/// The elementwise unary operations.
#[derive(Clone, Copy, Debug, PartialEq, Eq, Structural)]
pub enum UnaryOp {
    Neg,
    Abs,
    Sqr,
    Relu,
}

/// The elementwise comparison operations.
#[derive(Clone, Copy, Debug, PartialEq, Eq, Structural)]
pub enum CmpOp {
    Eq,
    Ne,
    Le,
    Ge,
    Lt,
    Gt,
}

/// The reduction operations over a dimension subset.
#[derive(Clone, Copy, Debug, PartialEq, Eq, Structural)]
pub enum ReduceOp {
    Sum,
    Min,
    Max,
    ArgMin,
    ArgMax,
}

impl ReduceOp {
    /// The reduction's name, for error reports.
    pub fn name(&self) -> &'static str {
        match self {
            ReduceOp::Sum => "sum",
            ReduceOp::Min => "min",
            ReduceOp::Max => "max",
            ReduceOp::ArgMin => "argmin",
            ReduceOp::ArgMax => "argmax",
        }
    }
}

/// One recorded operation: the operands that produced a tensor, by shared
/// reference, together with the scalar parameters of the operation.
pub enum Op {
    Binary(Tensor, Tensor, BinaryOp),
    Unary(Tensor, UnaryOp),
    Cmp(Tensor, CmpOp),
    Reduce(Tensor, ReduceOp, Vec<usize>),
    Matmul(Tensor, Tensor),
    Gather(Tensor, Tensor, usize),
    ScatterAdd(Tensor, Tensor, Tensor, usize),
    IndexSelect(Tensor, Tensor, usize),
    IndexAdd(Tensor, Tensor, Tensor, usize),
    WhereCond(Tensor, Tensor, Tensor),
    Cat(Vec<Tensor>, usize),
    Affine { arg: Tensor, mul: i64, add: i64 },
    Narrow(Tensor, usize, usize, usize),
    Transpose(Tensor, usize, usize),
    Permute(Tensor, Vec<usize>),
    Broadcast(Tensor),
    Reshape(Tensor),
    ToDType(Tensor),
    ToDevice(Tensor),
    Copy(Tensor),
    UpsampleNearest2D(Tensor),
    AvgPool2D { arg: Tensor, kernel_size: (usize, usize), stride: (usize, usize) },
    MaxPool2D { arg: Tensor, kernel_size: (usize, usize), stride: (usize, usize) },
}

/// The optional graph edge of a tensor: present exactly when the producing
/// call tracked gradients.
pub struct BackpropOp(pub(crate) Option<Op>);

impl BackpropOp {
    /// No recorded operation: the tensor is a leaf of the graph.
    pub fn none() -> (r: BackpropOp)
        ensures
            !r.is_some_sp(),
    {
        BackpropOp(None)
    }

    /// Records `op` when its single operand is tracked.
    pub fn new1(arg: &Tensor, op: Op) -> (r: BackpropOp)
        ensures
            r.is_some_sp() == arg.tracked_sp(),
    {
        if arg.track_op() {
            BackpropOp(Some(op))
        } else {
            BackpropOp(None)
        }
    }

    /// Records `op` when either of its two operands is tracked.
    pub fn new2(lhs: &Tensor, rhs: &Tensor, op: Op) -> (r: BackpropOp)
        ensures
            r.is_some_sp() == (lhs.tracked_sp() || rhs.tracked_sp()),
    {
        if lhs.track_op() || rhs.track_op() {
            BackpropOp(Some(op))
        } else {
            BackpropOp(None)
        }
    }

    /// Records `op` when any of its three operands is tracked.
    pub fn new3(t1: &Tensor, t2: &Tensor, t3: &Tensor, op: Op) -> (r: BackpropOp)
        ensures
            r.is_some_sp() == (t1.tracked_sp() || t2.tracked_sp() || t3.tracked_sp()),
    {
        if t1.track_op() || t2.track_op() || t3.track_op() {
            BackpropOp(Some(op))
        } else {
            BackpropOp(None)
        }
    }

    /// Whether an operation is recorded.
    pub closed spec fn is_some_sp(&self) -> bool {
        self.0 is Some
    }

    /// Whether an operation is recorded.
    pub fn is_some(&self) -> (r: bool)
        ensures
            r == self.is_some_sp(),
    {
        match self.0 {
            Some(_) => true,
            None => false,
        }
    }
}

/// A user-supplied unary kernel, applied through the custom-op extension
/// point without touching the fixed operation vocabulary. An implementation
/// computes, from a storage and the layout describing how to read it, a new
/// storage and its shape.
pub trait CustomOp1 {
    /// The kernel's name, for error reports.
    fn name(&self) -> &'static str;

    /// Computes the forward result from one operand. The storage returned
    /// must fill the shape returned exactly.
    fn cpu_fwd(&self, st: &Vec<i64>, l: &Layout) -> (r: Result<(Vec<i64>, Shape), Error>)
        requires
            l.fits(st@.len() as int),
        ensures
            r matches Ok(p) ==> crate::dims::suffix_ok(p.1@) && p.0@.len() == crate::dims::prod(
                p.1@,
            ),
    ;
}

/// A user-supplied binary kernel; see [`CustomOp1`].
pub trait CustomOp2 {
    /// The kernel's name, for error reports.
    fn name(&self) -> &'static str;

    /// Computes the forward result from two operands.
    fn cpu_fwd(
        &self,
        s1: &Vec<i64>,
        l1: &Layout,
        s2: &Vec<i64>,
        l2: &Layout,
    ) -> (r: Result<(Vec<i64>, Shape), Error>)
        requires
            l1.fits(s1@.len() as int),
            l2.fits(s2@.len() as int),
        ensures
            r matches Ok(p) ==> crate::dims::suffix_ok(p.1@) && p.0@.len() == crate::dims::prod(
                p.1@,
            ),
    ;
}

/// A user-supplied ternary kernel; see [`CustomOp1`].
pub trait CustomOp3 {
    /// The kernel's name, for error reports.
    fn name(&self) -> &'static str;

    /// Computes the forward result from three operands.
    fn cpu_fwd(
        &self,
        s1: &Vec<i64>,
        l1: &Layout,
        s2: &Vec<i64>,
        l2: &Layout,
        s3: &Vec<i64>,
        l3: &Layout,
    ) -> (r: Result<(Vec<i64>, Shape), Error>)
        requires
            l1.fits(s1@.len() as int),
            l2.fits(s2@.len() as int),
            l3.fits(s3@.len() as int),
        ensures
            r matches Ok(p) ==> crate::dims::suffix_ok(p.1@) && p.0@.len() == crate::dims::prod(
                p.1@,
            ),
    ;
}

/// A layer: anything that maps a tensor to a tensor. `Tensor::apply` runs a
/// layer's `forward` on the tensor.
pub trait Module {
    /// Applies the layer to `xs`.
    fn forward(&self, xs: &Tensor) -> Result<Tensor, Error>
        requires
            xs.wf(),
    ;
}

} // verus!
