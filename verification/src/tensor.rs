//! The tensor value type: a reference-counted handle combining shared
//! element storage, an immutable strided layout, dtype and device tags, an
//! optional graph edge for backward replay, and a trainable-variable flag.
//! Tensors are immutable after creation; view operations share the storage
//! and change only the layout.

use vstd::prelude::*;
use std::sync::Arc;
use crate::dims::{
    bcast_src, broadcast_ok, coords_in, dot, flat_all, flat_of, ints, is_perm,
    lemma_dot_broadcast,
    lemma_dot_update, lemma_dot_zero_left, lemma_flat_all_len, lemma_flat_bound, lemma_flat_contig,
    lemma_flat_dot, lemma_flat_index, lemma_flat_all_congr, lemma_ints_nonneg, lemma_prod_le,
    lemma_prod_nonneg, lemma_prod_pos_iff, lemma_row_major_len, lemma_shape_ok_suffix, phys, prod,
    row_major, shape_ok, suffix_ok,
};
use crate::dtype::{in_dtype, DType, Device};
use crate::error::Error;
use crate::kernel::materialize;
use crate::layout::Layout;
use crate::op::{BackpropOp, Op};
use crate::shape::{clone_dims, elem_count_of, Shape};

verus! {

/// Identifier of a tensor. A tensor derived from other tensors gets an
/// identifier no smaller than any operand's, so identifiers never decrease
/// along the recorded graph.
#[derive(Clone, Copy, Debug, PartialEq, Eq, Hash, Structural)]
pub struct TensorId(pub(crate) u64);

impl TensorId {
    /// The identifier of a tensor with no operands.
    pub(crate) fn root() -> TensorId {
        TensorId(1)
    }

    /// An identifier for a tensor derived from one with this identifier.
    pub(crate) fn next(self) -> (r: TensorId)
        ensures
            r.0 >= self.0,
    {
        if self.0 == u64::MAX {
            self
        } else {
            TensorId(self.0 + 1)
        }
    }

    /// The larger of two identifiers.
    pub(crate) fn merge(self, other: TensorId) -> (r: TensorId)
        ensures
            r.0 >= self.0 && r.0 >= other.0,
    {
        if self.0 >= other.0 {
            self
        } else {
            other
        }
    }
}

/// The contents of a tensor handle. Shared by every clone of the handle.
pub struct Tensor_ {
    pub(crate) id: TensorId,
    pub(crate) storage: Arc<Vec<i64>>,
    pub(crate) layout: Layout,
    pub(crate) op: BackpropOp,
    pub(crate) is_variable: bool,
    pub(crate) dtype: DType,
    pub(crate) device: Device,
}

/// The core tensor handle. Cloning is a reference bump; tensors derived by
/// view operations share their storage with the source.
pub struct Tensor(pub(crate) Arc<Tensor_>);

/// Relies on `Arc::clone`: the returned handle refers to the same allocation
/// as the argument, so the two hold one value.
#[verifier::external_body]
pub(crate) fn arc_clone<T>(a: &Arc<T>) -> (r: Arc<T>)
    ensures
        r == *a,
{
    Arc::clone(a)
}

/// Relies on `Arc::ptr_eq`: true only when the two handles share one
/// allocation, in which case they hold one value.
#[verifier::external_body]
fn arc_ptr_eq<T>(a: &Arc<T>, b: &Arc<T>) -> (r: bool)
    ensures
        r ==> *a == *b,
{
    Arc::ptr_eq(a, b)
}

impl Clone for Tensor {
    fn clone(&self) -> (r: Self)
        ensures
            r == *self,
    {
        Tensor(arc_clone(&self.0))
    }
}

impl Tensor {
    /// The elements of the shared storage.
    pub closed spec fn st(&self) -> Seq<i64> {
        (*self.0).storage@
    }

    /// The dimension sizes.
    pub closed spec fn dims_sp(&self) -> Seq<int> {
        (*self.0).layout.dims_sp()
    }

    /// The strides, in element counts.
    pub closed spec fn strides_sp(&self) -> Seq<int> {
        (*self.0).layout.strides_sp()
    }

    /// The start offset into the storage, in element counts.
    pub closed spec fn off_sp(&self) -> int {
        (*self.0).layout.off_sp()
    }

    /// The element type tag.
    pub closed spec fn dtype_sp(&self) -> DType {
        (*self.0).dtype
    }

    /// The device tag.
    pub closed spec fn device_sp(&self) -> Device {
        (*self.0).device
    }

    /// Whether the tensor is a trainable variable.
    pub closed spec fn var_sp(&self) -> bool {
        (*self.0).is_variable
    }

    /// Whether the tensor records the operation that produced it.
    pub closed spec fn op_some_sp(&self) -> bool {
        (*self.0).op.is_some_sp()
    }

    /// Whether gradients flow through this tensor: it is a variable or it
    /// records an operation.
    pub open spec fn tracked_sp(&self) -> bool {
        self.var_sp() || self.op_some_sp()
    }

    /// The element count: the product of the dimension sizes.
    pub open spec fn count_sp(&self) -> int {
        prod(self.dims_sp())
    }

    /// The element at logical coordinates `c`.
    pub open spec fn at(&self, c: Seq<int>) -> i64 {
        self.st()[phys(self.off_sp(), c, self.strides_sp())]
    }

    /// Every logical element, in row-major coordinate order.
    pub open spec fn vals(&self) -> Seq<i64> {
        flat_all(self.st(), self.dims_sp(), self.strides_sp(), self.off_sp())
    }

    /// Well-formedness: strides match the rank, the shape is addressable,
    /// every valid coordinate reads inside the storage, and every reachable
    /// element lies in the dtype's range.
    pub open spec fn wf(&self) -> bool {
        &&& self.strides_sp().len() == self.dims_sp().len()
        &&& shape_ok(self.dims_sp())
        &&& forall|c: Seq<int>|
            coords_in(c, self.dims_sp()) ==> #[trigger] phys(self.off_sp(), c, self.strides_sp())
                < self.st().len()
        &&& forall|c: Seq<int>|
            coords_in(c, self.dims_sp()) ==> in_dtype(self.dtype_sp(), #[trigger] self.at(c) as int)
    }

    /// The dimension sizes are nonnegative.
    pub proof fn lemma_dims_nonneg(&self)
        ensures
            forall|j: int| 0 <= j < self.dims_sp().len() ==> #[trigger] self.dims_sp()[j] >= 0,
    {
        (*self.0).layout.lemma_dims_nonneg();
    }

    /// The strides are nonnegative.
    pub proof fn lemma_strides_nonneg(&self)
        ensures
            forall|j: int| 0 <= j < self.strides_sp().len() ==> #[trigger] self.strides_sp()[j]
                >= 0,
    {
        (*self.0).layout.lemma_strides_nonneg();
    }

    /// A well-formed tensor's suffix products are representable.
    pub proof fn lemma_wf_suffix(&self)
        requires
            self.wf(),
        ensures
            suffix_ok(self.dims_sp()),
    {
        self.lemma_dims_nonneg();
        lemma_shape_ok_suffix(self.dims_sp());
    }

    /// The row-major view has exactly one element per valid coordinate tuple.
    pub proof fn lemma_vals_len(&self)
        ensures
            self.vals().len() == self.count_sp(),
    {
        self.lemma_dims_nonneg();
        lemma_flat_all_len(self.st(), self.dims_sp(), self.strides_sp(), self.off_sp());
    }

    /// The row-major view at the flattening of valid coordinates is the
    /// element at those coordinates.
    pub proof fn lemma_at_vals(&self, c: Seq<int>)
        requires
            self.strides_sp().len() == self.dims_sp().len(),
            coords_in(c, self.dims_sp()),
        ensures
            0 <= flat_of(c, self.dims_sp()) < self.vals().len(),
            self.vals()[flat_of(c, self.dims_sp())] == self.at(c),
    {
        self.lemma_vals_len();
        lemma_flat_bound(c, self.dims_sp());
        lemma_flat_index(self.st(), self.dims_sp(), self.strides_sp(), self.off_sp(), c);
    }

    /// Two tensors of one shape whose elements agree at every coordinate
    /// have one row-major view.
    pub proof fn lemma_vals_congr(&self, other: &Tensor)
        requires
            self.strides_sp().len() == self.dims_sp().len(),
            other.strides_sp().len() == other.dims_sp().len(),
            self.dims_sp() == other.dims_sp(),
            forall|c: Seq<int>| coords_in(c, self.dims_sp()) ==> self.at(c) == #[trigger] other.at(
                c,
            ),
        ensures
            self.vals() == other.vals(),
    {
        assert forall|c: Seq<int>| coords_in(c, self.dims_sp()) implies #[trigger] self.st()[phys(
            self.off_sp(),
            c,
            self.strides_sp(),
        )] == other.st()[phys(other.off_sp(), c, other.strides_sp())] by {
            assert(self.at(c) == other.at(c));
        }
        lemma_flat_all_congr(
            self.st(),
            self.strides_sp(),
            self.off_sp(),
            other.st(),
            other.strides_sp(),
            other.off_sp(),
            self.dims_sp(),
        );
    }
}

/// Creates a fresh tensor over its own newly allocated storage, with
/// contiguous row-major strides.
pub(crate) fn from_storage(
    data: Vec<i64>,
    shape: Shape,
    op: BackpropOp,
    is_variable: bool,
    dtype: DType,
    device: Device,
    id: TensorId,
) -> (r: Tensor)
    requires
        shape_ok(shape@),
        data@.len() == prod(shape@),
        forall|i: int| 0 <= i < data@.len() ==> in_dtype(dtype, #[trigger] data@[i] as int),
    ensures
        r.wf(),
        r.dims_sp() == shape@,
        r.strides_sp() == row_major(shape@),
        r.off_sp() == 0,
        r.st() == data@,
        r.vals() == data@,
        r.dtype_sp() == dtype,
        r.device_sp() == device,
        r.var_sp() == is_variable,
        r.op_some_sp() == op.is_some_sp(),
{
    let ghost ds = shape@;
    proof {
        shape.lemma_view_nonneg();
        lemma_shape_ok_suffix(ds);
    }
    let layout = Layout::contiguous(shape);
    let t_ = Tensor_ {
        id,
        storage: Arc::new(data),
        layout,
        op,
        is_variable,
        dtype,
        device,
    };
    let r = Tensor(Arc::new(t_));
    proof {
        lemma_row_major_len(ds);
        assert forall|c: Seq<int>| coords_in(c, ds) implies #[trigger] phys(
            0,
            c,
            row_major(ds),
        ) < r.st().len() by {
            lemma_flat_dot(c, ds);
            lemma_flat_bound(c, ds);
        }
        assert forall|c: Seq<int>| coords_in(c, ds) implies in_dtype(
            dtype,
            #[trigger] r.at(c) as int,
        ) by {
            lemma_flat_dot(c, ds);
            lemma_flat_bound(c, ds);
            assert(r.at(c) == r.st()[flat_of(c, ds)]);
        }
        lemma_flat_contig(r.st(), ds, 0);
        assert(r.st().subrange(0, prod(ds)) =~= r.st());
    }
    r
}

} // verus!

verus! {

impl Tensor {
    /// The dtype of the elements stored in the tensor.
    pub fn dtype(&self) -> (r: DType)
        ensures
            r == self.dtype_sp(),
    {
        self.0.dtype
    }

    /// The device on which the tensor is located.
    pub fn device(&self) -> (r: &Device)
        ensures
            *r == self.device_sp(),
    {
        &self.0.device
    }

    /// The tensor shape: the dimension sizes on each axis.
    pub fn shape(&self) -> (r: &Shape)
        ensures
            r@ == self.dims_sp(),
    {
        self.0.layout.shape()
    }

    /// The dimension sizes on each axis.
    pub fn dims(&self) -> (r: &Vec<usize>)
        ensures
            ints(r@) == self.dims_sp(),
    {
        self.0.layout.dims()
    }

    /// The size of the dimension at index `dim`, or an error when `dim` is
    /// at or beyond the rank.
    pub fn dim(&self, dim: usize) -> (r: Result<usize, Error>)
        ensures
            match r {
                Ok(v) => dim < self.dims_sp().len() && v == self.dims_sp()[dim as int],
                Err(e) => {
                    &&& dim >= self.dims_sp().len()
                    &&& e matches Error::DimOutOfRange { shape, dim: d, .. } && shape@
                        == self.dims_sp() && d == dim
                },
            },
    {
        let dims = self.0.layout.dims();
        if dim < dims.len() {
            Ok(dims[dim])
        } else {
            Err(Error::DimOutOfRange { shape: self.shape().clone(), dim, op: "dim" })
        }
    }

    /// The layout: shape, strides and start offset.
    pub fn layout(&self) -> (r: &Layout)
        ensures
            r.dims_sp() == self.dims_sp(),
            r.strides_sp() == self.strides_sp(),
            r.off_sp() == self.off_sp(),
    {
        &self.0.layout
    }

    /// The strides, one per dimension, in element counts.
    pub fn stride(&self) -> (r: &Vec<usize>)
        ensures
            ints(r@) == self.strides_sp(),
    {
        self.0.layout.stride()
    }

    /// The number of dimensions: 0 for a scalar, 1 for a vector, and so on.
    pub fn rank(&self) -> (r: usize)
        ensures
            r == self.dims_sp().len(),
    {
        self.0.layout.shape().rank()
    }

    /// The number of elements stored in the tensor.
    pub fn elem_count(&self) -> (r: usize)
        requires
            self.wf(),
        ensures
            r == self.count_sp(),
    {
        proof {
            self.lemma_wf_suffix();
        }
        self.0.layout.shape().elem_count()
    }

    /// The identifier of the tensor.
    pub fn id(&self) -> (r: TensorId)
        ensures
            true,
    {
        self.0.id
    }

    /// Whether this tensor is a trainable variable, on which backpropagation
    /// can be performed.
    pub fn is_variable(&self) -> (r: bool)
        ensures
            r == self.var_sp(),
    {
        self.0.is_variable
    }

    /// Whether the computation graph should track an operation on this
    /// tensor: it is a variable or depends on one.
    pub(crate) fn track_op(&self) -> (r: bool)
        ensures
            r == self.tracked_sp(),
    {
        self.0.is_variable || self.0.op.is_some()
    }

    /// Whether two tensor handles share one storage allocation. True for a
    /// view and its source when no copy was required; false whenever the
    /// data was copied into a fresh buffer.
    pub fn same_storage(&self, rhs: &Self) -> (r: bool)
        ensures
            r ==> self.st() == rhs.st(),
    {
        arc_ptr_eq(&self.0.storage, &rhs.0.storage)
    }

    /// The storage holding this tensor's elements, together with the layout
    /// to read it through.
    pub fn storage_and_layout(&self) -> (r: (&Vec<i64>, &Layout))
        ensures
            r.0@ == self.st(),
            r.1.dims_sp() == self.dims_sp(),
            r.1.strides_sp() == self.strides_sp(),
            r.1.off_sp() == self.off_sp(),
    {
        (&self.0.storage, &self.0.layout)
    }

    /// Whether the data is stored in a C-contiguous (row-major) way.
    pub fn is_contiguous(&self) -> (r: bool)
        requires
            self.wf(),
        ensures
            r == self.contiguous_sp(),
    {
        proof {
            self.lemma_wf_suffix();
        }
        self.0.layout.is_contiguous()
    }

    /// Whether the strides are exactly row-major on every axis wider than
    /// one element.
    pub closed spec fn contiguous_sp(&self) -> bool {
        (*self.0).layout.contiguous_sp()
    }

    /// Whether each stride is the product of the sizes before its axis, on
    /// every axis wider than one element.
    pub closed spec fn fortran_contiguous_spec(&self) -> bool {
        (*self.0).layout.fortran_contiguous_sp()
    }

    /// Whether the data is stored in a Fortran-contiguous (column-major) way.
    pub fn is_fortran_contiguous(&self) -> (r: bool)
        requires
            self.wf(),
        ensures
            r == self.fortran_contiguous_spec(),
    {
        self.0.layout.is_fortran_contiguous()
    }
}

} // verus!

verus! {

impl Tensor {
    /// An identifier for a tensor derived from this one and another.
    pub(crate) fn fresh_id_with(&self, other: &Tensor) -> TensorId {
        self.0.id.merge(other.0.id).next()
    }

    /// An identifier for a tensor derived from this one.
    pub(crate) fn fresh_id(&self) -> TensorId {
        self.0.id.next()
    }

    /// The larger of a fresh identifier and another tensor's identifier.
    pub(crate) fn merge_with(&self, id: TensorId) -> TensorId {
        id.merge(self.0.id)
    }

    /// Wraps a new layout over this tensor's storage: the common step of
    /// every zero-copy view operation.
    pub(crate) fn derive_view(&self, layout: Layout, op: BackpropOp) -> (r: Tensor)
        ensures
            r.st() == self.st(),
            r.dims_sp() == layout.dims_sp(),
            r.strides_sp() == layout.strides_sp(),
            r.off_sp() == layout.off_sp(),
            r.dtype_sp() == self.dtype_sp(),
            r.device_sp() == self.device_sp(),
            !r.var_sp(),
            r.op_some_sp() == op.is_some_sp(),
    {
        Tensor(
            Arc::new(
                Tensor_ {
                    id: self.0.id.next(),
                    storage: arc_clone(&self.0.storage),
                    layout,
                    op,
                    is_variable: false,
                    dtype: self.0.dtype,
                    device: self.0.device,
                },
            ),
        )
    }

    /// Broadcast the tensor to the target shape: aligning shapes from the
    /// trailing dimension, every source axis must match the target axis or
    /// be one element wide; new leading axes are free. Broadcast axes get
    /// stride 0, so no data is copied or duplicated.
    pub fn broadcast_as(&self, shape: &Vec<usize>) -> (r: Result<Tensor, Error>)
        requires
            self.wf(),
            shape_ok(ints(shape@)),
        ensures
            match r {
                Ok(t) => {
                    &&& broadcast_ok(self.dims_sp(), ints(shape@))
                    &&& t.wf()
                    &&& t.dims_sp() == ints(shape@)
                    &&& t.st() == self.st()
                    &&& t.dtype_sp() == self.dtype_sp()
                    &&& t.device_sp() == self.device_sp()
                    &&& !t.var_sp()
                    &&& t.op_some_sp() == self.tracked_sp()
                    &&& forall|c: Seq<int>|
                        coords_in(c, t.dims_sp()) ==> #[trigger] t.at(c) == self.at(
                            bcast_src(c, self.dims_sp()),
                        )
                },
                Err(e) => {
                    &&& !broadcast_ok(self.dims_sp(), ints(shape@))
                    &&& e matches Error::BroadcastIncompatibleShapes {
                        src_shape,
                        dst_shape,
                    } && src_shape@ == self.dims_sp() && dst_shape@ == ints(shape@)
                },
            },
    {
        let ghost srcd = self.dims_sp();
        let ghost dstd = ints(shape@);
        let ghost ss = self.strides_sp();
        let src = self.0.layout.dims();
        let strides = self.0.layout.stride();
        let n0 = src.len();
        let ns = shape.len();
        if n0 > ns {
            return Err(
                Error::BroadcastIncompatibleShapes {
                    src_shape: self.shape().clone(),
                    dst_shape: Shape::new(clone_dims(shape)),
                },
            );
        }
        let lead = ns - n0;
        proof {
            assert(strides@.len() == n0);
        }
        let mut strides2: Vec<usize> = Vec::new();
        let mut k: usize = 0;
        while k < lead
            invariant
                0 <= k <= lead,
                strides2@.len() == k,
                forall|i: int| 0 <= i < k ==> #[trigger] strides2@[i] == 0,
            decreases lead - k,
        {
            strides2.push(0);
            k = k + 1;
        }
        let mut j: usize = 0;
        while j < n0
            invariant
                0 <= j <= n0,
                n0 == src@.len(),
                ns == shape@.len(),
                lead == ns - n0,
                srcd == ints(src@),
                srcd == self.dims_sp(),
                dstd == ints(shape@),
                ss == ints(strides@),
                strides2@.len() == lead + j,
                strides@.len() == n0,
                forall|i: int| 0 <= i < lead ==> #[trigger] strides2@[i] == 0,
                forall|i: int|
                    0 <= i < j ==> #[trigger] src@[i] == shape@[lead + i] || src@[i] == 1,
                forall|i: int|
                    0 <= i < j ==> (#[trigger] src@[i] == 1 && strides2@[lead + i] == 0) || (
                    strides2@[lead + i] == strides@[i]),
                forall|i: int|
                    0 <= i < j && #[trigger] src@[i] == 1 && strides2@[lead + i] != 0 ==> src@[i]
                        == shape@[lead + i],
            decreases n0 - j,
        {
            if src[j] == shape[lead + j] {
                strides2.push(strides[j]);
            } else if src[j] == 1 {
                strides2.push(0);
            } else {
                proof {
                    let ji = j as int;
                    assert(srcd[ji] == src@[ji] as int);
                    assert(dstd[lead + ji] == shape@[lead + ji] as int);
                    assert(srcd[ji] != dstd[lead + ji] && srcd[ji] != 1);
                    assert(!broadcast_ok(srcd, dstd)) by {
                        if broadcast_ok(srcd, dstd) {
                            assert(srcd[ji] == dstd[dstd.len() - srcd.len() + ji] || srcd[ji]
                                == 1);
                        }
                    }
                }
                return Err(
                    Error::BroadcastIncompatibleShapes {
                        src_shape: self.shape().clone(),
                        dst_shape: Shape::new(clone_dims(shape)),
                    },
                );
            }
            j = j + 1;
        }
        let ghost ns2 = ints(strides2@);
        let off0 = self.0.layout.start_offset();
        let layout = Layout::from_parts(Shape::new(clone_dims(shape)), strides2, off0);
        let op = BackpropOp::new1(self, Op::Broadcast(self.clone()));
        let t = self.derive_view(layout, op);
        proof {
            assert(broadcast_ok(srcd, dstd));
            assert(ss.len() == srcd.len());
            assert(t.dims_sp() == dstd);
            assert(t.strides_sp() == ns2);
            self.lemma_dims_nonneg();
            assert forall|c: Seq<int>| coords_in(c, dstd) implies {
                &&& coords_in(bcast_src(c, srcd), srcd)
                &&& dot(c, ns2) == dot(bcast_src(c, srcd), ss)
            } by {
                let b = bcast_src(c, srcd);
                assert forall|i: int| 0 <= i < b.len() implies 0 <= #[trigger] b[i] < srcd[i] by {
                    if srcd[i] == 1 {
                        assert(b[i] == 0);
                    } else {
                        assert(srcd[i] == dstd[lead + i]);
                        assert(b[i] == c[lead + i]);
                        assert(0 <= c[lead + i] < dstd[lead + i]);
                    }
                }
                assert forall|i: int| 0 <= i < c.len() - srcd.len() implies #[trigger] ns2[i]
                    == 0 by {
                    assert(strides2@[i] == 0);
                }
                assert forall|i: int|
                    0 <= i < srcd.len() implies (#[trigger] srcd[i] == 1 && ns2[c.len()
                        - srcd.len() + i] == 0) || (ns2[c.len() - srcd.len() + i] == ss[i]) by {
                    assert(srcd[i] == ints(src@)[i]);
                    if src@[i] == 1 && strides2@[lead + i] == 0 {
                    } else {
                        assert(strides2@[lead + i] == strides@[i]);
                        assert(ns2[c.len() - srcd.len() + i] == strides2@[lead + i] as int);
                        assert(ss[i] == strides@[i] as int);
                    }
                }
                assert forall|i: int|
                    0 <= i < srcd.len() && #[trigger] srcd[i] == 1 && ns2[c.len() - srcd.len() + i]
                        != 0 implies c[c.len() - srcd.len() + i] == 0 by {
                    assert(strides2@[lead + i] != 0);
                    assert(src@[i as int] == shape@[lead + i]);
                    assert(dstd[lead + i] == 1);
                    assert(0 <= c[lead + i] < 1);
                }
                lemma_dot_broadcast(c, ns2, ss, srcd);
            }
            assert forall|c: Seq<int>| coords_in(c, t.dims_sp()) implies #[trigger] phys(
                t.off_sp(),
                c,
                t.strides_sp(),
            ) < t.st().len() by {
                assert(coords_in(c, dstd));
                assert(dot(c, ns2) == dot(bcast_src(c, srcd), ss));
                assert(phys(self.off_sp(), bcast_src(c, srcd), ss) < self.st().len());
            }
            assert forall|c: Seq<int>| coords_in(c, t.dims_sp()) implies #[trigger] t.at(c)
                == self.at(bcast_src(c, srcd)) by {
                assert(coords_in(c, dstd));
                assert(dot(c, ns2) == dot(bcast_src(c, srcd), ss));
            }
            assert forall|c: Seq<int>| coords_in(c, t.dims_sp()) implies in_dtype(
                t.dtype_sp(),
                #[trigger] t.at(c) as int,
            ) by {
                assert(t.at(c) == self.at(bcast_src(c, srcd)));
                assert(coords_in(bcast_src(c, srcd), srcd));
            }
        }
        Ok(t)
    }

    /// An alias for `broadcast_as`.
    pub fn expand(&self, shape: &Vec<usize>) -> (r: Result<Tensor, Error>)
        requires
            self.wf(),
            shape_ok(ints(shape@)),
        ensures
            match r {
                Ok(t) => {
                    &&& broadcast_ok(self.dims_sp(), ints(shape@))
                    &&& t.wf()
                    &&& t.dims_sp() == ints(shape@)
                    &&& t.st() == self.st()
                    &&& t.dtype_sp() == self.dtype_sp()
                    &&& t.device_sp() == self.device_sp()
                    &&& forall|c: Seq<int>|
                        coords_in(c, t.dims_sp()) ==> #[trigger] t.at(c) == self.at(
                            bcast_src(c, self.dims_sp()),
                        )
                },
                Err(_) => !broadcast_ok(self.dims_sp(), ints(shape@)),
            },
    {
        self.broadcast_as(shape)
    }

    /// Broadcast the tensor by adding the given dimensions on the left.
    pub fn broadcast_left(&self, left_shape: &Vec<usize>) -> (r: Result<Tensor, Error>)
        requires
            self.wf(),
            shape_ok(ints(left_shape@) + self.dims_sp()),
        ensures
            match r {
                Ok(t) => {
                    &&& broadcast_ok(self.dims_sp(), ints(left_shape@) + self.dims_sp())
                    &&& t.wf()
                    &&& t.dims_sp() == ints(left_shape@) + self.dims_sp()
                    &&& t.st() == self.st()
                    &&& t.dtype_sp() == self.dtype_sp()
                    &&& t.device_sp() == self.device_sp()
                    &&& forall|c: Seq<int>|
                        coords_in(c, t.dims_sp()) ==> #[trigger] t.at(c) == self.at(
                            bcast_src(c, self.dims_sp()),
                        )
                },
                Err(_) => !broadcast_ok(self.dims_sp(), ints(left_shape@) + self.dims_sp()),
            },
    {
        let mut dims2 = clone_dims(left_shape);
        let own = self.0.layout.dims();
        let mut j: usize = 0;
        while j < own.len()
            invariant
                0 <= j <= own@.len(),
                ints(own@) == self.dims_sp(),
                dims2@ == left_shape@ + own@.take(j as int),
            decreases own@.len() - j,
        {
            dims2.push(own[j]);
            proof {
                assert(dims2@ =~= left_shape@ + own@.take(j as int + 1));
            }
            j = j + 1;
        }
        proof {
            assert(own@.take(own@.len() as int) =~= own@);
            assert(ints(dims2@) =~= ints(left_shape@) + self.dims_sp());
        }
        self.broadcast_as(&dims2)
    }
}

} // verus!

verus! {

impl Tensor {
    /// Copies this tensor's logical contents, in row-major order, into a
    /// fresh buffer.
    pub(crate) fn materialize_self(&self) -> (out: Vec<i64>)
        requires
            self.wf(),
        ensures
            out@ == self.vals(),
            out@.len() == self.count_sp(),
            forall|i: int| 0 <= i < out@.len() ==> in_dtype(
                self.dtype_sp(),
                #[trigger] out@[i] as int,
            ),
    {
        proof {
            self.lemma_wf_suffix();
            self.lemma_vals_len();
        }
        let stv: &Vec<i64> = &self.0.storage;
        let dimsv = self.0.layout.dims();
        let stridesv = self.0.layout.stride();
        let off = self.0.layout.start_offset();
        let out = materialize(stv, dimsv, stridesv, off);
        proof {
            self.lemma_dims_nonneg();
            assert(out@ == self.vals());
            assert forall|i: int| 0 <= i < out@.len() implies in_dtype(
                self.dtype_sp(),
                #[trigger] out@[i] as int,
            ) by {
                crate::dims::lemma_flat_all_elem(
                    self.st(),
                    self.dims_sp(),
                    self.strides_sp(),
                    self.off_sp(),
                    i,
                );
                let c = choose|c: Seq<int>|
                    coords_in(c, self.dims_sp()) && self.vals()[i] == self.st()[#[trigger] phys(
                        self.off_sp(),
                        c,
                        self.strides_sp(),
                    )];
                assert(out@[i] == self.at(c));
            }
        }
        out
    }

    /// A tensor holding the same elements in row-major order. Returns the
    /// same handle when the tensor is already contiguous; otherwise copies
    /// into a freshly allocated contiguous buffer.
    pub fn contiguous(&self) -> (r: Result<Tensor, Error>)
        requires
            self.wf(),
        ensures
            match r {
                Ok(t) => {
                    &&& t.wf()
                    &&& t.dims_sp() == self.dims_sp()
                    &&& t.vals() == self.vals()
                    &&& t.dtype_sp() == self.dtype_sp()
                    &&& t.device_sp() == self.device_sp()
                    &&& t.contiguous_sp()
                    &&& self.contiguous_sp() ==> t == *self
                },
                Err(_) => false,
            },
    {
        if self.is_contiguous() {
            Ok(self.clone())
        } else {
            let data = self.materialize_self();
            let shape = self.shape().clone();
            let op = BackpropOp::new1(self, Op::Copy(self.clone()));
            let t = from_storage(
                data,
                shape,
                op,
                false,
                self.dtype(),
                *self.device(),
                self.0.id.next(),
            );
            proof {
                lemma_contig_of_row_major(&t);
            }
            Ok(t)
        }
    }

    /// Copies the tensor: same shape, strides, offset and values over a
    /// freshly allocated storage buffer that shares nothing with the
    /// original.
    pub fn copy(&self) -> (r: Result<Tensor, Error>)
        requires
            self.wf(),
        ensures
            match r {
                Ok(t) => {
                    &&& t.wf()
                    &&& t.dims_sp() == self.dims_sp()
                    &&& t.strides_sp() == self.strides_sp()
                    &&& t.off_sp() == self.off_sp()
                    &&& t.vals() == self.vals()
                    &&& t.dtype_sp() == self.dtype_sp()
                    &&& t.device_sp() == self.device_sp()
                    &&& !t.var_sp()
                },
                Err(_) => false,
            },
    {
        let stv: &Vec<i64> = &self.0.storage;
        let data = clone_i64s(stv);
        let op = BackpropOp::new1(self, Op::Copy(self.clone()));
        let t_ = Tensor_ {
            id: self.0.id.next(),
            storage: Arc::new(data),
            layout: self.0.layout.clone(),
            op,
            is_variable: false,
            dtype: self.0.dtype,
            device: self.0.device,
        };
        let t = Tensor(Arc::new(t_));
        proof {
            assert(t.st() == self.st());
            assert forall|c: Seq<int>| coords_in(c, t.dims_sp()) implies in_dtype(
                t.dtype_sp(),
                #[trigger] t.at(c) as int,
            ) by {
                assert(t.at(c) == self.at(c));
            }
            assert forall|c: Seq<int>| coords_in(c, t.dims_sp()) implies #[trigger] phys(
                t.off_sp(),
                c,
                t.strides_sp(),
            ) < t.st().len() by {
                assert(phys(self.off_sp(), c, self.strides_sp()) < self.st().len());
            }
        }
        Ok(t)
    }

    /// A new tensor detached from the computation graph: it shares the
    /// storage and layout of the original but records no operation and is
    /// not a variable, so gradients do not propagate through it.
    pub fn detach(&self) -> (r: Result<Tensor, Error>)
        requires
            self.wf(),
        ensures
            match r {
                Ok(t) => {
                    &&& t.wf()
                    &&& t.dims_sp() == self.dims_sp()
                    &&& t.vals() == self.vals()
                    &&& t.st() == self.st()
                    &&& t.dtype_sp() == self.dtype_sp()
                    &&& t.device_sp() == self.device_sp()
                    &&& !t.tracked_sp()
                },
                Err(_) => false,
            },
    {
        let t = self.derive_view(self.0.layout.clone(), BackpropOp::none());
        proof {
            lemma_wf_transfer(self, &t);
        }
        Ok(t)
    }

    /// Moves the tensor to the given device. On the device it already
    /// occupies this is the same handle, sharing the storage.
    pub fn to_device(&self, device: &Device) -> (r: Result<Tensor, Error>)
        requires
            self.wf(),
        ensures
            match r {
                Ok(t) => {
                    &&& t.wf()
                    &&& t.dims_sp() == self.dims_sp()
                    &&& t.vals() == self.vals()
                    &&& t.dtype_sp() == self.dtype_sp()
                    &&& t.device_sp() == *device
                    &&& self.device_sp() == *device ==> t == *self
                },
                Err(_) => false,
            },
    {
        if self.device().same_device(device) {
            Ok(self.clone())
        } else {
            let data = self.materialize_self();
            let shape = self.shape().clone();
            let op = BackpropOp::new1(self, Op::ToDevice(self.clone()));
            let t = from_storage(
                data,
                shape,
                op,
                false,
                self.dtype(),
                *device,
                self.0.id.next(),
            );
            Ok(t)
        }
    }

    /// A variable holding a copy of the values currently stored in the
    /// tensor. The storage is always copied, and gradients are tracked.
    pub fn make_var(&self) -> (r: Result<Tensor, Error>)
        requires
            self.wf(),
        ensures
            match r {
                Ok(t) => {
                    &&& t.wf()
                    &&& t.dims_sp() == self.dims_sp()
                    &&& t.vals() == self.vals()
                    &&& t.dtype_sp() == self.dtype_sp()
                    &&& t.device_sp() == self.device_sp()
                    &&& t.var_sp()
                },
                Err(_) => false,
            },
    {
        let data = self.materialize_self();
        let shape = self.shape().clone();
        let t = from_storage(
            data,
            shape,
            BackpropOp::none(),
            true,
            self.dtype(),
            *self.device(),
            self.0.id.next(),
        );
        Ok(t)
    }

    /// The single value held by a rank-0 tensor; an error names the actual
    /// rank when it is not 0.
    pub fn to_scalar(&self) -> (r: Result<i64, Error>)
        requires
            self.wf(),
        ensures
            match r {
                Ok(v) => self.dims_sp().len() == 0 && v == self.at(Seq::<int>::empty()),
                Err(e) => {
                    &&& self.dims_sp().len() != 0
                    &&& e matches Error::UnexpectedNumberOfDims { expected, got, shape } && expected
                        == 0 && got == self.dims_sp().len() && shape@ == self.dims_sp()
                },
            },
    {
        if self.rank() != 0 {
            return Err(
                Error::UnexpectedNumberOfDims {
                    expected: 0,
                    got: self.rank(),
                    shape: self.shape().clone(),
                },
            );
        }
        let stv: &Vec<i64> = &self.0.storage;
        let off = self.0.layout.start_offset();
        proof {
            let ce = Seq::<int>::empty();
            assert(coords_in(ce, self.dims_sp()));
            assert(phys(self.off_sp(), ce, self.strides_sp()) == self.off_sp());
        }
        Ok(stv[off])
    }

    /// An alias for `to_scalar`.
    pub fn to_vec0(&self) -> (r: Result<i64, Error>)
        requires
            self.wf(),
        ensures
            match r {
                Ok(v) => self.dims_sp().len() == 0 && v == self.at(Seq::<int>::empty()),
                Err(_) => self.dims_sp().len() != 0,
            },
    {
        self.to_scalar()
    }

    /// The data of a rank-1 tensor as a vector of scalar values.
    pub fn to_vec1(&self) -> (r: Result<Vec<i64>, Error>)
        requires
            self.wf(),
        ensures
            match r {
                Ok(v) => self.dims_sp().len() == 1 && v@ == self.vals(),
                Err(e) => {
                    &&& self.dims_sp().len() != 1
                    &&& e matches Error::UnexpectedNumberOfDims { expected, got, shape } && expected
                        == 1 && got == self.dims_sp().len() && shape@ == self.dims_sp()
                },
            },
    {
        if self.rank() != 1 {
            return Err(
                Error::UnexpectedNumberOfDims {
                    expected: 1,
                    got: self.rank(),
                    shape: self.shape().clone(),
                },
            );
        }
        Ok(self.materialize_self())
    }
}

/// Clones an element buffer, keeping its contents.
pub(crate) fn clone_i64s(v: &Vec<i64>) -> (r: Vec<i64>)
    ensures
        r@ == v@,
{
    let r = v.clone();
    proof {
        assert forall|i: int| 0 <= i < v@.len() implies r@[i] == v@[i] by {
            assert(cloned::<i64>(v[i], r[i]));
        }
        assert(r@ =~= v@);
    }
    r
}

/// Two tensors with equal storage contents and one layout are
/// interchangeable: well-formedness and the element view carry over.
proof fn lemma_wf_transfer(a: &Tensor, b: &Tensor)
    requires
        a.wf(),
        b.st() == a.st(),
        b.dims_sp() == a.dims_sp(),
        b.strides_sp() == a.strides_sp(),
        b.off_sp() == a.off_sp(),
        b.dtype_sp() == a.dtype_sp(),
    ensures
        b.wf(),
        b.vals() == a.vals(),
{
    assert forall|c: Seq<int>| coords_in(c, b.dims_sp()) implies #[trigger] phys(
        b.off_sp(),
        c,
        b.strides_sp(),
    ) < b.st().len() by {
        assert(phys(a.off_sp(), c, a.strides_sp()) < a.st().len());
    }
    assert forall|c: Seq<int>| coords_in(c, b.dims_sp()) implies in_dtype(
        b.dtype_sp(),
        #[trigger] b.at(c) as int,
    ) by {
        assert(b.at(c) == a.at(c));
        assert(in_dtype(a.dtype_sp(), a.at(c) as int));
    }
}

/// A tensor fresh from `from_storage` carries canonical row-major strides.
proof fn lemma_contig_of_row_major(t: &Tensor)
    requires
        t.strides_sp() == row_major(t.dims_sp()),
    ensures
        t.contiguous_sp(),
{
    lemma_row_major_len(t.dims_sp());
    assert forall|j: int|
        0 <= j < t.dims_sp().len() && t.dims_sp()[j] > 1 implies #[trigger] t.strides_sp()[j]
        == prod(t.dims_sp().skip(j + 1)) by {
        crate::shape::lemma_row_major_entry_pub(t.dims_sp(), j);
    }
}

} // verus!

verus! {

impl Tensor {
    /// Creates a tensor filled with zeros, under the scalar-broadcast
    /// strategy: one zero element, broadcast to the target shape with all
    /// strides zero.
    pub(crate) fn zeros_impl(
        shape: &Vec<usize>,
        dtype: DType,
        device: &Device,
        is_variable: bool,
    ) -> (r: Result<Tensor, Error>)
        requires
            shape_ok(ints(shape@)),
        ensures
            match r {
                Ok(t) => {
                    &&& t.wf()
                    &&& t.dims_sp() == ints(shape@)
                    &&& t.dtype_sp() == dtype
                    &&& t.device_sp() == *device
                    &&& t.var_sp() == is_variable
                    &&& !t.op_some_sp()
                    &&& forall|c: Seq<int>| coords_in(c, t.dims_sp()) ==> #[trigger] t.at(c) == 0
                },
                Err(_) => false,
            },
    {
        Tensor::fill_impl(shape, 0, dtype, device, is_variable)
    }

    /// Creates a tensor filled with one value.
    fn fill_impl(shape: &Vec<usize>, v: i64, dtype: DType, device: &Device, is_variable: bool) -> (r:
        Result<Tensor, Error>)
        requires
            shape_ok(ints(shape@)),
            in_dtype(dtype, v as int),
        ensures
            match r {
                Ok(t) => {
                    &&& t.wf()
                    &&& t.dims_sp() == ints(shape@)
                    &&& t.dtype_sp() == dtype
                    &&& t.device_sp() == *device
                    &&& t.var_sp() == is_variable
                    &&& !t.op_some_sp()
                    &&& forall|c: Seq<int>| coords_in(c, t.dims_sp()) ==> #[trigger] t.at(c) == v
                },
                Err(_) => false,
            },
    {
        if is_variable {
            proof {
                lemma_ints_nonneg(shape@);
                lemma_shape_ok_suffix(ints(shape@));
            }
            let n = elem_count_of(shape);
            let data = vec![v; n];
            proof {
                lemma_prod_nonneg(ints(shape@));
            }
            let t = from_storage(
                data,
                Shape::new(clone_dims(shape)),
                BackpropOp::none(),
                true,
                dtype,
                *device,
                TensorId::root(),
            );
            proof {
                assert forall|c: Seq<int>| coords_in(c, t.dims_sp()) implies #[trigger] t.at(c)
                    == v by {
                    t.lemma_at_vals(c);
                    assert(t.vals()[flat_of(c, t.dims_sp())] == v);
                }
            }
            Ok(t)
        } else {
            let data = vec![v; 1];
            let ghost sc: Seq<int> = Seq::empty();
            let scalar_shape = Shape::new(Vec::new());
            proof {
                assert(scalar_shape@ =~= sc);
                assert(prod(sc) == 1);
                assert(crate::dims::pos_prod(sc) == 1);
            }
            let scalar = from_storage(
                data,
                scalar_shape,
                BackpropOp::none(),
                false,
                dtype,
                *device,
                TensorId::root(),
            );
            match scalar.broadcast_as(shape) {
                Ok(t) => {
                    proof {
                        assert forall|c: Seq<int>| coords_in(c, t.dims_sp()) implies #[trigger] t.at(
                            c,
                        ) == v by {
                            let b = bcast_src(c, scalar.dims_sp());
                            assert(b =~= Seq::<int>::empty());
                            assert(t.at(c) == scalar.at(b));
                            assert(dot(b, scalar.strides_sp()) == 0);
                            assert(scalar.at(b) == scalar.st()[scalar.off_sp()]);
                        }
                        assert(!t.var_sp() == !is_variable);
                    }
                    Ok(t)
                },
                Err(e) => {
                    proof {
                        assert(broadcast_ok(scalar.dims_sp(), ints(shape@)));
                    }
                    Err(e)
                },
            }
        }
    }

    /// Creates a tensor filled with zeros.
    pub fn zeros(shape: &Vec<usize>, dtype: DType, device: &Device) -> (r: Result<Tensor, Error>)
        requires
            shape_ok(ints(shape@)),
        ensures
            match r {
                Ok(t) => {
                    &&& t.wf()
                    &&& t.dims_sp() == ints(shape@)
                    &&& t.dtype_sp() == dtype
                    &&& t.device_sp() == *device
                    &&& !t.tracked_sp()
                    &&& forall|c: Seq<int>| coords_in(c, t.dims_sp()) ==> #[trigger] t.at(c) == 0
                },
                Err(_) => false,
            },
    {
        Tensor::zeros_impl(shape, dtype, device, false)
    }

    /// Creates a tensor of zeros with the same shape, dtype and device as
    /// this tensor.
    pub fn zeros_like(&self) -> (r: Result<Tensor, Error>)
        requires
            self.wf(),
        ensures
            match r {
                Ok(t) => {
                    &&& t.wf()
                    &&& t.dims_sp() == self.dims_sp()
                    &&& t.dtype_sp() == self.dtype_sp()
                    &&& t.device_sp() == self.device_sp()
                    &&& !t.tracked_sp()
                    &&& forall|c: Seq<int>| coords_in(c, t.dims_sp()) ==> #[trigger] t.at(c) == 0
                },
                Err(_) => false,
            },
    {
        Tensor::zeros(self.0.layout.dims(), self.dtype(), self.device())
    }

    /// Creates a tensor filled with ones.
    pub fn ones(shape: &Vec<usize>, dtype: DType, device: &Device) -> (r: Result<Tensor, Error>)
        requires
            shape_ok(ints(shape@)),
        ensures
            match r {
                Ok(t) => {
                    &&& t.wf()
                    &&& t.dims_sp() == ints(shape@)
                    &&& t.dtype_sp() == dtype
                    &&& t.device_sp() == *device
                    &&& !t.tracked_sp()
                    &&& forall|c: Seq<int>| coords_in(c, t.dims_sp()) ==> #[trigger] t.at(c) == 1
                },
                Err(_) => false,
            },
    {
        Tensor::ones_impl(shape, dtype, device, false)
    }

    /// Creates a tensor filled with ones; variables get owned storage.
    pub(crate) fn ones_impl(
        shape: &Vec<usize>,
        dtype: DType,
        device: &Device,
        is_variable: bool,
    ) -> (r: Result<Tensor, Error>)
        requires
            shape_ok(ints(shape@)),
        ensures
            match r {
                Ok(t) => {
                    &&& t.wf()
                    &&& t.dims_sp() == ints(shape@)
                    &&& t.dtype_sp() == dtype
                    &&& t.device_sp() == *device
                    &&& t.var_sp() == is_variable
                    &&& !t.op_some_sp()
                    &&& forall|c: Seq<int>| coords_in(c, t.dims_sp()) ==> #[trigger] t.at(c) == 1
                },
                Err(_) => false,
            },
    {
        Tensor::fill_impl(shape, 1, dtype, device, is_variable)
    }

    /// Creates a tensor of ones with the same shape, dtype and device as
    /// this tensor.
    pub fn ones_like(&self) -> (r: Result<Tensor, Error>)
        requires
            self.wf(),
        ensures
            match r {
                Ok(t) => {
                    &&& t.wf()
                    &&& t.dims_sp() == self.dims_sp()
                    &&& t.dtype_sp() == self.dtype_sp()
                    &&& t.device_sp() == self.device_sp()
                    &&& !t.tracked_sp()
                    &&& forall|c: Seq<int>| coords_in(c, t.dims_sp()) ==> #[trigger] t.at(c) == 1
                },
                Err(_) => false,
            },
    {
        Tensor::ones(self.0.layout.dims(), self.dtype(), self.device())
    }

    /// Creates a tensor from a value vector and a shape. The vector must
    /// hold exactly as many elements as the shape counts.
    pub fn from_vec(data: Vec<i64>, shape: &Vec<usize>, device: &Device) -> (r: Result<
        Tensor,
        Error,
    >)
        requires
            shape_ok(ints(shape@)),
        ensures
            match r {
                Ok(t) => {
                    &&& data@.len() == prod(ints(shape@))
                    &&& t.wf()
                    &&& t.dims_sp() == ints(shape@)
                    &&& t.vals() == data@
                    &&& t.dtype_sp() == DType::I64
                    &&& t.device_sp() == *device
                    &&& !t.tracked_sp()
                },
                Err(e) => {
                    &&& data@.len() != prod(ints(shape@))
                    &&& e matches Error::ShapeMismatch { buffer_size, shape: s2 } && buffer_size
                        == data@.len() && s2@ == ints(shape@)
                },
            },
    {
        proof {
            lemma_ints_nonneg(shape@);
            lemma_shape_ok_suffix(ints(shape@));
        }
        let n = elem_count_of(shape);
        if data.len() != n {
            return Err(
                Error::ShapeMismatch { buffer_size: data.len(), shape: Shape::new(
                    clone_dims(shape),
                ) },
            );
        }
        let t = from_storage(
            data,
            Shape::new(clone_dims(shape)),
            BackpropOp::none(),
            false,
            DType::I64,
            *device,
            TensorId::root(),
        );
        Ok(t)
    }

    /// Creates a tensor from a slice of values and a shape.
    pub fn from_slice(array: &Vec<i64>, shape: &Vec<usize>, device: &Device) -> (r: Result<
        Tensor,
        Error,
    >)
        requires
            shape_ok(ints(shape@)),
        ensures
            match r {
                Ok(t) => {
                    &&& array@.len() == prod(ints(shape@))
                    &&& t.wf()
                    &&& t.dims_sp() == ints(shape@)
                    &&& t.vals() == array@
                    &&& t.dtype_sp() == DType::I64
                    &&& t.device_sp() == *device
                    &&& !t.tracked_sp()
                },
                Err(_) => array@.len() != prod(ints(shape@)),
            },
    {
        Tensor::from_vec(clone_i64s(array), shape, device)
    }

    /// Creates a 1-dimensional tensor from the given values.
    pub fn new(data: Vec<i64>, device: &Device) -> (r: Result<Tensor, Error>)
        ensures
            match r {
                Ok(t) => {
                    &&& t.wf()
                    &&& t.dims_sp() == seq![data@.len() as int]
                    &&& t.vals() == data@
                    &&& t.dtype_sp() == DType::I64
                    &&& t.device_sp() == *device
                    &&& !t.tracked_sp()
                },
                Err(_) => false,
            },
    {
        let n = data.len();
        let mut shape: Vec<usize> = Vec::new();
        shape.push(n);
        proof {
            lemma_one_dim_ok(shape@, n);
            assert(ints(shape@) =~= seq![n as int]);
        }
        let r = Tensor::from_vec(data, &shape, device);
        proof {
            assert(prod(seq![n as int]) == n as int * prod(seq![n as int].skip(1)));
            assert(seq![n as int].skip(1) =~= Seq::<int>::empty());
        }
        r
    }

    /// Creates a 1-dimensional tensor by draining an iterator's values; here
    /// the values arrive already collected.
    pub fn from_iter(data: Vec<i64>, device: &Device) -> (r: Result<Tensor, Error>)
        ensures
            match r {
                Ok(t) => {
                    &&& t.wf()
                    &&& t.dims_sp() == seq![data@.len() as int]
                    &&& t.vals() == data@
                    &&& t.dtype_sp() == DType::I64
                    &&& t.device_sp() == *device
                    &&& !t.tracked_sp()
                },
                Err(_) => false,
            },
    {
        Tensor::new(data, device)
    }
}

/// The source coordinates read by a narrowed view's coordinates.
pub open spec fn narrow_src(c: Seq<int>, dim: int, start: int) -> Seq<int> {
    c.update(dim, c[dim] + start)
}

/// The source coordinates read by a transposed view's coordinates.
pub open spec fn swap_coords(c: Seq<int>, d1: int, d2: int) -> Seq<int> {
    c.update(d1, c[d2]).update(d2, c[d1])
}

/// A one-axis shape is addressable.
proof fn lemma_one_dim_ok(s: Seq<usize>, n: usize)
    requires
        s.len() == 1,
        s[0] == n,
    ensures
        shape_ok(ints(s)),
        prod(ints(s)) == n,
{
    let d = ints(s);
    assert(d.len() == 1 && d[0] == n as int);
    assert(d.skip(1) =~= Seq::<int>::empty());
    assert(prod(d.skip(1)) == 1);
    assert(crate::dims::pos_prod(d.skip(1)) == 1);
    assert(prod(d) == d[0] * prod(d.skip(1)));
    assert(crate::dims::pos_prod(d) == crate::dims::pos1(d[0]) * crate::dims::pos_prod(d.skip(1)));
}

} // verus!

verus! {

impl Tensor {
    /// Checks that `dim` is a valid dimension index for this tensor.
    pub(crate) fn check_dim(&self, dim: usize, opname: &'static str) -> (r: Result<(), Error>)
        ensures
            match r {
                Ok(()) => dim < self.dims_sp().len(),
                Err(e) => {
                    &&& dim >= self.dims_sp().len()
                    &&& e matches Error::DimOutOfRange { shape, dim: d, .. } && shape@
                        == self.dims_sp() && d == dim
                },
            },
    {
        if dim >= self.rank() {
            Err(Error::DimOutOfRange { shape: self.shape().clone(), dim, op: opname })
        } else {
            Ok(())
        }
    }

    /// A narrowed view: dimension `dim` restricted to `start .. start + len`.
    /// Shares the storage; only the layout changes.
    pub fn narrow(&self, dim: usize, start: usize, len: usize) -> (r: Result<Tensor, Error>)
        requires
            self.wf(),
        ensures
            match r {
                Ok(t) => {
                    &&& dim < self.dims_sp().len()
                    &&& start + len <= self.dims_sp()[dim as int]
                    &&& t.wf()
                    &&& t.dims_sp() == self.dims_sp().update(dim as int, len as int)
                    &&& t.st() == self.st()
                    &&& t.dtype_sp() == self.dtype_sp()
                    &&& t.device_sp() == self.device_sp()
                    &&& forall|c: Seq<int>|
                        coords_in(c, t.dims_sp()) ==> #[trigger] t.at(c) == self.at(
                            c.update(dim as int, c[dim as int] + start),
                        )
                },
                Err(e) => {
                    ||| (dim >= self.dims_sp().len() && e matches Error::DimOutOfRange { .. })
                    ||| (dim < self.dims_sp().len() && start + len > self.dims_sp()[dim as int]
                        && (e matches Error::NarrowInvalidArgs {
                        shape,
                        dim: d,
                        start: s2,
                        len: l2,
                        .. } && shape@ == self.dims_sp() && d == dim && s2 == start && l2 == len))
                },
            },
    {
        let ghost oldd = self.dims_sp();
        let ghost ss = self.strides_sp();
        match self.check_dim(dim, "narrow") {
            Ok(()) => {},
            Err(e) => {
                return Err(e);
            },
        }
        let dims = self.0.layout.dims();
        let dsize = dims[dim];
        if start > dsize || len > dsize - start {
            return Err(
                Error::NarrowInvalidArgs {
                    shape: self.shape().clone(),
                    dim,
                    start,
                    len,
                    msg: "start + len > dim_len",
                },
            );
        }
        if start == 0 && len == dsize {
            let t = self.clone();
            proof {
                assert(t.dims_sp() =~= oldd.update(dim as int, len as int));
                assert forall|c: Seq<int>| coords_in(c, t.dims_sp()) implies #[trigger] t.at(c)
                    == self.at(c.update(dim as int, c[dim as int] + start)) by {
                    assert(c.update(dim as int, c[dim as int] + start) =~= c);
                }
            }
            return Ok(t);
        }
        let mut dims2 = clone_dims(dims);
        dims2[dim] = len;
        let ghost newd = ints(dims2@);
        proof {
            assert(newd =~= oldd.update(dim as int, len as int));
            self.lemma_dims_nonneg();
            assert forall|j: int| 0 <= j < newd.len() implies #[trigger] newd[j] <= oldd[j] by {}
            crate::dims::lemma_pos_prod_le(newd, oldd);
        }
        let n = self.elem_count();
        let off0 = self.0.layout.start_offset();
        let stridesv = self.0.layout.stride();
        let stlen = self.storage_len();
        let off2: usize = if n > 0 && len > 0 {
            proof {
                lemma_prod_pos_iff(oldd);
                let zs = Seq::new(oldd.len(), |i: int| 0int);
                let zc = zs.update(dim as int, start as int);
                assert forall|j: int| 0 <= j < zc.len() implies 0 <= #[trigger] zc[j]
                    < oldd[j] by {
                    if j != dim {
                        assert(zc[j] == 0);
                    }
                }
                assert(coords_in(zc, oldd));
                lemma_dot_zero_left(ss, ss.len() as int);
                assert(ss.take(ss.len() as int) =~= ss);
                assert(Seq::new(ss.len(), |i: int| 0int) =~= zs);
                lemma_dot_update(zs, ss, dim as int, start as int);
                assert(dot(zc, ss) == start * ss[dim as int]);
                assert(phys(self.off_sp(), zc, ss) < self.st().len());
                assert(self.st().len() == stlen);
                assert(start * ss[dim as int] >= 0) by (nonlinear_arith)
                    requires
                        start >= 0,
                        ss[dim as int] >= 0,
                ;
            }
            off0 + start * stridesv[dim]
        } else {
            off0
        };
        let layout = Layout::from_parts(Shape::new(dims2), clone_dims(stridesv), off2);
        let op = BackpropOp::new1(self, Op::Narrow(self.clone(), dim, start, len));
        let t = self.derive_view(layout, op);
        proof {
            if n > 0 && len > 0 {
                assert forall|c: Seq<int>|
                    coords_in(c, t.dims_sp()) implies coords_in(
                    #[trigger] narrow_src(c, dim as int, start as int),
                    oldd,
                ) && phys(t.off_sp(), c, t.strides_sp()) == phys(
                    self.off_sp(),
                    narrow_src(c, dim as int, start as int),
                    ss,
                ) by {
                    let c2 = c.update(dim as int, c[dim as int] + start);
                    assert forall|j: int| 0 <= j < c2.len() implies 0 <= #[trigger] c2[j]
                        < oldd[j] by {
                        if j != dim {
                            assert(c2[j] == c[j] && oldd[j] == newd[j]);
                        }
                    }
                    lemma_dot_update(c, ss, dim as int, c[dim as int] + start);
                    assert(dot(c2, ss) == dot(c, ss) + start * ss[dim as int]) by {
                        assert((c[dim as int] + start - c[dim as int]) * ss[dim as int] == start
                            * ss[dim as int]) by (nonlinear_arith);
                    }
                }
                assert forall|c: Seq<int>| coords_in(c, t.dims_sp()) implies #[trigger] phys(
                    t.off_sp(),
                    c,
                    t.strides_sp(),
                ) < t.st().len() by {
                    let c2 = narrow_src(c, dim as int, start as int);
                    assert(coords_in(c2, oldd));
                    assert(phys(self.off_sp(), c2, ss) < self.st().len());
                }
                assert forall|c: Seq<int>| coords_in(c, t.dims_sp()) implies #[trigger] t.at(c)
                    == self.at(c.update(dim as int, c[dim as int] + start)) by {
                    let c2 = narrow_src(c, dim as int, start as int);
                    assert(coords_in(c2, oldd));
                    assert(phys(t.off_sp(), c, t.strides_sp()) == phys(self.off_sp(), c2, ss));
                }
                assert forall|c: Seq<int>| coords_in(c, t.dims_sp()) implies in_dtype(
                    t.dtype_sp(),
                    #[trigger] t.at(c) as int,
                ) by {
                    let c2 = narrow_src(c, dim as int, start as int);
                    assert(t.at(c) == self.at(c2));
                    assert(coords_in(c2, oldd));
                }
            } else {
                assert forall|c: Seq<int>| !coords_in(c, t.dims_sp()) by {
                    if coords_in(c, t.dims_sp()) {
                        if len == 0 {
                            assert(0 <= c[dim as int] < newd[dim as int]);
                        } else {
                            lemma_prod_pos_iff(oldd);
                            let j0 = choose|j: int| 0 <= j < oldd.len() && !(#[trigger] oldd[j]
                                > 0);
                            assert(oldd[j0] == 0);
                            if j0 == dim {
                                assert(len <= oldd[dim as int]);
                            } else {
                                assert(newd[j0] == 0);
                                assert(0 <= c[j0] < newd[j0]);
                            }
                        }
                    }
                }
            }
        }
        Ok(t)
    }

    /// The storage buffer's length in elements.
    fn storage_len(&self) -> (r: usize)
        ensures
            r == self.st().len(),
    {
        let stv: &Vec<i64> = &self.0.storage;
        stv.len()
    }

    /// A transposed view: the two given dimensions exchanged. Shares the
    /// storage; only the layout changes.
    pub fn transpose(&self, dim1: usize, dim2: usize) -> (r: Result<Tensor, Error>)
        requires
            self.wf(),
        ensures
            match r {
                Ok(t) => {
                    &&& dim1 < self.dims_sp().len()
                    &&& dim2 < self.dims_sp().len()
                    &&& t.wf()
                    &&& t.dims_sp() == self.dims_sp().update(
                        dim1 as int,
                        self.dims_sp()[dim2 as int],
                    ).update(dim2 as int, self.dims_sp()[dim1 as int])
                    &&& t.st() == self.st()
                    &&& t.dtype_sp() == self.dtype_sp()
                    &&& t.device_sp() == self.device_sp()
                    &&& forall|c: Seq<int>|
                        coords_in(c, t.dims_sp()) ==> #[trigger] t.at(c) == self.at(
                            c.update(dim1 as int, c[dim2 as int]).update(
                                dim2 as int,
                                c[dim1 as int],
                            ),
                        )
                },
                Err(e) => {
                    &&& (dim1 >= self.dims_sp().len() || dim2 >= self.dims_sp().len())
                    &&& e matches Error::DimOutOfRange { .. }
                },
            },
    {
        let ghost oldd = self.dims_sp();
        let ghost ss = self.strides_sp();
        match self.check_dim(dim1, "transpose") {
            Ok(()) => {},
            Err(e) => {
                return Err(e);
            },
        }
        match self.check_dim(dim2, "transpose") {
            Ok(()) => {},
            Err(e) => {
                return Err(e);
            },
        }
        let dims = self.0.layout.dims();
        let stridesv = self.0.layout.stride();
        let mut dims2 = clone_dims(dims);
        let mut strides2 = clone_dims(stridesv);
        let da = dims[dim1];
        let db = dims[dim2];
        dims2[dim1] = db;
        dims2[dim2] = da;
        let sa = stridesv[dim1];
        let sb = stridesv[dim2];
        strides2[dim1] = sb;
        strides2[dim2] = sa;
        let ghost n = oldd.len() as int;
        let ghost p = Seq::new(n as nat, |j: int| if j == dim1 { dim2 as int } else if j == dim2 { dim1 as int } else { j });
        let off0 = self.0.layout.start_offset();
        let layout = Layout::from_parts(Shape::new(dims2), strides2, off0);
        let op = BackpropOp::new1(self, Op::Transpose(self.clone(), dim1, dim2));
        let t = self.derive_view(layout, op);
        proof {
            assert(is_perm(p, n)) by {
                assert forall|i: int, j: int| 0 <= i < j < n implies p[i] != p[j] by {}
            }
            assert(t.dims_sp() =~= crate::dims::composed(oldd, p));
            assert(t.strides_sp() =~= crate::dims::composed(ss, p));
            self.lemma_dims_nonneg();
            crate::dims::lemma_pos_prod_perm(oldd, p);
            assert(shape_ok(t.dims_sp()));
            assert forall|c: Seq<int>|
                coords_in(c, t.dims_sp()) implies coords_in(
                #[trigger] swap_coords(c, dim1 as int, dim2 as int),
                oldd,
            ) && phys(t.off_sp(), c, t.strides_sp()) == phys(
                self.off_sp(),
                swap_coords(c, dim1 as int, dim2 as int),
                ss,
            ) by {
                let cc = c.update(dim1 as int, c[dim2 as int]).update(dim2 as int, c[dim1 as int]);
                assert(cc =~= crate::dims::composed(c, p));
                assert forall|j: int| 0 <= j < cc.len() implies 0 <= #[trigger] cc[j]
                    < oldd[j] by {
                    assert(cc[j] == c[p[j]]);
                    assert(t.dims_sp()[p[j]] == oldd[p[p[j]]]);
                    assert(p[p[j]] == j);
                }
                crate::dims::lemma_dot_perm(cc, ss, p);
                assert(crate::dims::composed(cc, p) =~= c);
                assert(dot(c, t.strides_sp()) == dot(cc, ss));
            }
            assert forall|c: Seq<int>| coords_in(c, t.dims_sp()) implies #[trigger] phys(
                t.off_sp(),
                c,
                t.strides_sp(),
            ) < t.st().len() by {
                let cc = swap_coords(c, dim1 as int, dim2 as int);
                assert(coords_in(cc, oldd));
                assert(phys(self.off_sp(), cc, ss) < self.st().len());
            }
            assert forall|c: Seq<int>| coords_in(c, t.dims_sp()) implies #[trigger] t.at(c)
                == self.at(
                c.update(dim1 as int, c[dim2 as int]).update(dim2 as int, c[dim1 as int]),
            ) by {
                let cc = swap_coords(c, dim1 as int, dim2 as int);
                assert(coords_in(cc, oldd));
                assert(phys(t.off_sp(), c, t.strides_sp()) == phys(self.off_sp(), cc, ss));
            }
            assert forall|c: Seq<int>| coords_in(c, t.dims_sp()) implies in_dtype(
                t.dtype_sp(),
                #[trigger] t.at(c) as int,
            ) by {
                let cc = swap_coords(c, dim1 as int, dim2 as int);
                assert(t.at(c) == self.at(cc));
                assert(coords_in(cc, oldd));
            }
        }
        Ok(t)
    }

    /// A transposed view exchanging the two trailing dimensions; an error
    /// when the rank is below 2.
    pub fn t(&self) -> (r: Result<Tensor, Error>)
        requires
            self.wf(),
        ensures
            match r {
                Ok(t) => {
                    &&& self.dims_sp().len() >= 2
                    &&& t.wf()
                    &&& t.dims_sp() == self.dims_sp().update(
                        self.dims_sp().len() - 2,
                        self.dims_sp()[self.dims_sp().len() - 1],
                    ).update(self.dims_sp().len() - 1, self.dims_sp()[self.dims_sp().len() - 2])
                    &&& t.st() == self.st()
                    &&& t.dtype_sp() == self.dtype_sp()
                    &&& t.device_sp() == self.device_sp()
                    &&& forall|c: Seq<int>|
                        coords_in(c, t.dims_sp()) ==> #[trigger] t.at(c) == self.at(
                            c.update(self.dims_sp().len() - 2, c[self.dims_sp().len() - 1]).update(
                                self.dims_sp().len() - 1,
                                c[self.dims_sp().len() - 2],
                            ),
                        )
                },
                Err(e) => {
                    &&& self.dims_sp().len() < 2
                    &&& e matches Error::UnexpectedNumberOfDims { expected, got, .. } && expected
                        == 2 && got == self.dims_sp().len()
                },
            },
    {
        let rank = self.rank();
        if rank < 2 {
            return Err(
                Error::UnexpectedNumberOfDims {
                    expected: 2,
                    got: rank,
                    shape: self.shape().clone(),
                },
            );
        }
        self.transpose(rank - 2, rank - 1)
    }
}

} // verus!

verus! {

impl Tensor {
    /// Every element of the row-major view lies in the dtype's range.
    pub proof fn lemma_vals_in_dtype(&self)
        requires
            self.wf(),
        ensures
            forall|i: int| 0 <= i < self.vals().len() ==> in_dtype(
                self.dtype_sp(),
                #[trigger] self.vals()[i] as int,
            ),
    {
        self.lemma_dims_nonneg();
        assert forall|i: int| 0 <= i < self.vals().len() implies in_dtype(
            self.dtype_sp(),
            #[trigger] self.vals()[i] as int,
        ) by {
            crate::dims::lemma_flat_all_elem(
                self.st(),
                self.dims_sp(),
                self.strides_sp(),
                self.off_sp(),
                i,
            );
            let c = choose|c: Seq<int>|
                coords_in(c, self.dims_sp()) && self.vals()[i] == self.st()[#[trigger] phys(
                    self.off_sp(),
                    c,
                    self.strides_sp(),
                )];
            assert(self.vals()[i] == self.at(c));
        }
    }

    /// A nonempty contiguous tensor's row-major view is a slice of its
    /// storage starting at its offset.
    pub proof fn lemma_vals_contig(&self)
        requires
            self.wf(),
            self.contiguous_sp(),
            self.count_sp() > 0,
        ensures
            self.off_sp() + self.count_sp() <= self.st().len(),
            self.vals() == self.st().subrange(self.off_sp(), self.off_sp() + self.count_sp()),
    {
        let d = self.dims_sp();
        let s = self.strides_sp();
        let off = self.off_sp();
        let rm = row_major(d);
        self.lemma_dims_nonneg();
        self.lemma_strides_nonneg();
        (*self.0).layout.lemma_off_nonneg();
        lemma_row_major_len(d);
        lemma_prod_pos_iff(d);
        assert forall|c: Seq<int>|
            coords_in(c, d) implies #[trigger] dot(c, s) == dot(c, rm) by {
            assert forall|j: int| 0 <= j < c.len() implies #[trigger] c[j] == 0 || s[j]
                == rm[j] by {
                crate::shape::lemma_row_major_entry_pub(d, j);
                if d[j] > 1 {
                    assert(s[j] == prod(d.skip(j + 1)));
                } else {
                    assert(0 <= c[j] < d[j] && d[j] > 0);
                }
            }
            crate::dims::lemma_dot_eq_on_support(c, s, rm);
        }
        let maxc = d.map_values(|x: int| x - 1);
        assert(coords_in(maxc, d));
        crate::dims::lemma_flat_max(d);
        lemma_flat_dot(maxc, d);
        assert(dot(maxc, s) == dot(maxc, rm));
        assert(phys(off, maxc, s) < self.st().len());
        assert(off + self.count_sp() <= self.st().len());
        assert forall|c: Seq<int>| coords_in(c, d) implies #[trigger] self.st()[phys(off, c, s)]
            == self.st()[phys(off, c, rm)] by {
            assert(dot(c, s) == dot(c, rm));
        }
        lemma_flat_all_congr(self.st(), s, off, self.st(), rm, off, d);
        lemma_flat_contig(self.st(), d, off);
    }

    /// A permuted view: dimension `j` of the result is dimension `p[j]` of
    /// the source. `p` must list every axis exactly once. Shares the
    /// storage; only the layout changes.
    pub fn permute(&self, p: &Vec<usize>) -> (r: Result<Tensor, Error>)
        requires
            self.wf(),
        ensures
            match r {
                Ok(t) => {
                    &&& is_perm(ints(p@), self.dims_sp().len() as int)
                    &&& t.wf()
                    &&& t.dims_sp() == crate::dims::composed(self.dims_sp(), ints(p@))
                    &&& t.st() == self.st()
                    &&& t.dtype_sp() == self.dtype_sp()
                    &&& t.device_sp() == self.device_sp()
                    &&& forall|c: Seq<int>|
                        coords_in(c, self.dims_sp()) ==> #[trigger] t.at(
                            crate::dims::composed(c, ints(p@)),
                        ) == self.at(c)
                },
                Err(e) => {
                    &&& !is_perm(ints(p@), self.dims_sp().len() as int)
                    &&& e matches Error::InvalidPermutation { dims: pd, .. } && pd@ == p@
                },
            },
    {
        let ghost oldd = self.dims_sp();
        let ghost ss = self.strides_sp();
        let ghost pp = ints(p@);
        let n = self.rank();
        if p.len() != n {
            return Err(Error::InvalidPermutation { dims: clone_dims(p), op: "permute" });
        }
        // Validate: every entry in range, no entry repeated; `seen[v]` marks
        // a previously met entry.
        let mut seen: Vec<bool> = vec![false; n];
        let mut j: usize = 0;
        while j < n
            invariant
                0 <= j <= n,
                n == p@.len(),
                n == oldd.len(),
                seen@.len() == n,
                pp == ints(p@),
                forall|i: int| 0 <= i < j ==> 0 <= #[trigger] pp[i] < n,
                forall|i1: int, i2: int| 0 <= i1 < i2 < j ==> pp[i1] != pp[i2],
                forall|v: int| 0 <= v < n ==> (#[trigger] seen@[v] <==> exists|i: int|
                    0 <= i < j && #[trigger] pp[i] == v),
            decreases n - j,
        {
            let v = p[j];
            proof {
                assert(pp[j as int] == v as int);
            }
            if v >= n {
                proof {
                    assert(!is_perm(pp, oldd.len() as int)) by {
                        if is_perm(pp, oldd.len() as int) {
                            assert(0 <= pp[j as int] < oldd.len() as int);
                        }
                    }
                }
                return Err(Error::InvalidPermutation { dims: clone_dims(p), op: "permute" });
            }
            if seen[v] {
                proof {
                    let i0 = choose|i: int| 0 <= i < j && #[trigger] pp[i] == v as int;
                    assert(pp[i0] == pp[j as int]);
                    assert(!is_perm(pp, oldd.len() as int)) by {
                        if is_perm(pp, oldd.len() as int) {
                            assert(pp[i0] != pp[j as int]);
                        }
                    }
                }
                return Err(Error::InvalidPermutation { dims: clone_dims(p), op: "permute" });
            }
            seen[v] = true;
            proof {
                assert forall|v2: int| 0 <= v2 < n implies (#[trigger] seen@[v2] <==> exists|i: int|
                    0 <= i < j + 1 && pp[i] == v2) by {
                    if v2 == v {
                        assert(pp[j as int] == v2);
                    } else {
                        if exists|i: int| 0 <= i < j + 1 && #[trigger] pp[i] == v2 {
                            let i0 = choose|i: int| 0 <= i < j + 1 && #[trigger] pp[i] == v2;
                            assert(i0 < j);
                        }
                    }
                }
            }
            j = j + 1;
        }
        proof {
            assert(is_perm(pp, oldd.len() as int));
        }
        let dims = self.0.layout.dims();
        let stridesv = self.0.layout.stride();
        let mut dims2: Vec<usize> = Vec::new();
        let mut strides2: Vec<usize> = Vec::new();
        let mut k: usize = 0;
        while k < n
            invariant
                0 <= k <= n,
                n == p@.len(),
                n == dims@.len(),
                n == stridesv@.len(),
                pp == ints(p@),
                is_perm(pp, n as int),
                oldd == ints(dims@),
                ss == ints(stridesv@),
                dims2@.len() == k,
                strides2@.len() == k,
                forall|i: int| 0 <= i < k ==> ints(dims2@)[i] == oldd[#[trigger] pp[i]],
                forall|i: int| 0 <= i < k ==> ints(strides2@)[i] == ss[#[trigger] pp[i]],
            decreases n - k,
        {
            let pk = p[k];
            proof {
                assert(pp[k as int] == pk as int);
                assert(0 <= pp[k as int] < n as int);
            }
            dims2.push(dims[pk]);
            strides2.push(stridesv[pk]);
            k = k + 1;
        }
        let off0 = self.0.layout.start_offset();
        let layout = Layout::from_parts(Shape::new(dims2), strides2, off0);
        let op = BackpropOp::new1(self, Op::Permute(self.clone(), clone_dims(p)));
        let t = self.derive_view(layout, op);
        proof {
            let pinv = crate::dims::perm_inv(pp);
            crate::dims::lemma_perm_inv(pp);
            assert(t.dims_sp() =~= crate::dims::composed(oldd, pp));
            assert(t.strides_sp() =~= crate::dims::composed(ss, pp));
            self.lemma_dims_nonneg();
            crate::dims::lemma_pos_prod_perm(oldd, pp);
            assert(shape_ok(t.dims_sp()));
            assert forall|c: Seq<int>| coords_in(c, self.dims_sp()) implies #[trigger] t.at(
                crate::dims::composed(c, pp),
            ) == self.at(c) by {
                crate::dims::lemma_dot_perm(c, ss, pp);
            }
            assert forall|c: Seq<int>|
                coords_in(c, t.dims_sp()) implies coords_in(
                #[trigger] crate::dims::composed(c, pinv),
                oldd,
            ) && phys(t.off_sp(), c, t.strides_sp()) == phys(
                self.off_sp(),
                crate::dims::composed(c, pinv),
                ss,
            ) by {
                let cc = crate::dims::composed(c, pinv);
                assert forall|i: int| 0 <= i < cc.len() implies 0 <= #[trigger] cc[i]
                    < oldd[i] by {
                    assert(cc[i] == c[pinv[i]]);
                    assert(t.dims_sp()[pinv[i]] == oldd[pp[pinv[i]]]);
                    assert(pp[pinv[i]] == i);
                }
                crate::dims::lemma_dot_perm(cc, ss, pp);
                assert(crate::dims::composed(cc, pp) =~= c) by {
                    assert forall|i: int|
                        0 <= i < c.len() implies crate::dims::composed(cc, pp)[i] == c[i] by {
                        assert(crate::dims::composed(cc, pp)[i] == cc[pp[i]]);
                        assert(cc[pp[i]] == c[pinv[pp[i]]]);
                        assert(pinv[pp[i]] == i);
                    }
                }
                assert(dot(c, t.strides_sp()) == dot(cc, ss));
            }
            assert forall|c: Seq<int>| coords_in(c, t.dims_sp()) implies #[trigger] phys(
                t.off_sp(),
                c,
                t.strides_sp(),
            ) < t.st().len() by {
                let cc = crate::dims::composed(c, pinv);
                assert(coords_in(cc, oldd));
                assert(phys(self.off_sp(), cc, ss) < self.st().len());
            }
            assert forall|c: Seq<int>| coords_in(c, t.dims_sp()) implies in_dtype(
                t.dtype_sp(),
                #[trigger] t.at(c) as int,
            ) by {
                let cc = crate::dims::composed(c, pinv);
                assert(coords_in(cc, oldd));
                assert(phys(t.off_sp(), c, t.strides_sp()) == phys(self.off_sp(), cc, ss));
                assert(t.at(c) == self.at(cc));
            }
        }
        Ok(t)
    }

    /// Reshape to a target shape with the same element count. A view on the
    /// original data when the tensor is contiguous; otherwise the data is
    /// copied into a fresh contiguous buffer.
    pub fn reshape(&self, shape: &Vec<usize>) -> (r: Result<Tensor, Error>)
        requires
            self.wf(),
            shape_ok(ints(shape@)),
        ensures
            match r {
                Ok(t) => {
                    &&& prod(ints(shape@)) == self.count_sp()
                    &&& t.wf()
                    &&& t.dims_sp() == ints(shape@)
                    &&& t.vals() == self.vals()
                    &&& t.dtype_sp() == self.dtype_sp()
                    &&& t.device_sp() == self.device_sp()
                    &&& t.contiguous_sp()
                    &&& self.contiguous_sp() ==> t.st() == self.st() && t.off_sp()
                        == self.off_sp()
                },
                Err(e) => {
                    &&& prod(ints(shape@)) != self.count_sp()
                    &&& e matches Error::ShapeMismatchBinaryOp { lhs, rhs, .. } && lhs@
                        == self.dims_sp() && rhs@ == ints(shape@)
                },
            },
    {
        proof {
            lemma_ints_nonneg(shape@);
            lemma_shape_ok_suffix(ints(shape@));
        }
        let ghost d2 = ints(shape@);
        let n2 = elem_count_of(shape);
        if n2 != self.elem_count() {
            return Err(
                Error::ShapeMismatchBinaryOp {
                    lhs: self.shape().clone(),
                    rhs: Shape::new(clone_dims(shape)),
                    op: "reshape",
                },
            );
        }
        proof {
            self.lemma_vals_len();
        }
        if self.is_contiguous() {
            let off0 = self.0.layout.start_offset();
            let layout = Layout::contiguous_with_offset(Shape::new(clone_dims(shape)), off0);
            let op = BackpropOp::new1(self, Op::Reshape(self.clone()));
            let t = self.derive_view(layout, op);
            proof {
                lemma_row_major_len(d2);
                lemma_ints_nonneg(shape@);
                lemma_contig_of_row_major(&t);
                t.lemma_vals_len();
                if n2 == 0 {
                    assert forall|c: Seq<int>| !coords_in(c, t.dims_sp()) by {
                        if coords_in(c, t.dims_sp()) {
                            lemma_flat_bound(c, d2);
                            lemma_prod_nonneg(d2);
                        }
                    }
                    assert(t.vals() =~= self.vals());
                } else {
                    self.lemma_vals_contig();
                    assert forall|c: Seq<int>| coords_in(c, t.dims_sp()) implies #[trigger] phys(
                        t.off_sp(),
                        c,
                        t.strides_sp(),
                    ) < t.st().len() by {
                        lemma_flat_dot(c, d2);
                        lemma_flat_bound(c, d2);
                        assert(phys(t.off_sp(), c, t.strides_sp()) == self.off_sp() + flat_of(
                            c,
                            d2,
                        ));
                    }
                    lemma_flat_contig(t.st(), d2, t.off_sp());
                    assert(t.vals() == self.vals());
                    self.lemma_vals_in_dtype();
                    assert forall|c: Seq<int>| coords_in(c, t.dims_sp()) implies in_dtype(
                        t.dtype_sp(),
                        #[trigger] t.at(c) as int,
                    ) by {
                        lemma_flat_dot(c, d2);
                        lemma_flat_bound(c, d2);
                        t.lemma_at_vals(c);
                        assert(t.at(c) == t.vals()[flat_of(c, d2)]);
                        assert(t.vals()[flat_of(c, d2)] == self.vals()[flat_of(c, d2)]);
                    }
                }
            }
            Ok(t)
        } else {
            let data = self.materialize_self();
            let op = BackpropOp::new1(self, Op::Reshape(self.clone()));
            let t = from_storage(
                data,
                Shape::new(clone_dims(shape)),
                op,
                false,
                self.dtype(),
                *self.device(),
                self.0.id.next(),
            );
            proof {
                lemma_contig_of_row_major(&t);
            }
            Ok(t)
        }
    }
}

} // verus!

verus! {

impl Tensor {
    /// Removes dimension `dim` when it is a single element wide; otherwise
    /// returns the tensor unchanged, following the usual library semantics.
    pub fn squeeze(&self, dim: usize) -> (r: Result<Tensor, Error>)
        requires
            self.wf(),
        ensures
            match r {
                Ok(t) => {
                    &&& dim < self.dims_sp().len()
                    &&& t.wf()
                    &&& t.dims_sp() == if self.dims_sp()[dim as int] == 1 {
                        self.dims_sp().remove(dim as int)
                    } else {
                        self.dims_sp()
                    }
                    &&& t.vals() == self.vals()
                    &&& t.dtype_sp() == self.dtype_sp()
                    &&& t.device_sp() == self.device_sp()
                    &&& self.dims_sp()[dim as int] != 1 ==> t == *self
                },
                Err(e) => {
                    &&& dim >= self.dims_sp().len()
                    &&& e matches Error::DimOutOfRange { .. }
                },
            },
    {
        let ghost oldd = self.dims_sp();
        match self.check_dim(dim, "squeeze") {
            Ok(()) => {},
            Err(e) => {
                return Err(e);
            },
        }
        let dims = self.0.layout.dims();
        if dims[dim] == 1 {
            let mut dims2 = clone_dims(dims);
            dims2.remove(dim);
            proof {
                oldd.remove_ensures(dim as int);
                dims@.remove_ensures(dim as int);
                assert(ints(dims2@) =~= oldd.remove(dim as int)) by {
                    oldd.remove_ensures(dim as int);
                    assert(dims2@ == dims@.remove(dim as int));
                    assert forall|k: int|
                        0 <= k < dims2@.len() implies ints(dims2@)[k] == oldd.remove(
                        dim as int,
                    )[k] by {
                        if k < dim {
                            assert(dims@.remove(dim as int)[k] == dims@[k]);
                            assert(oldd.remove(dim as int)[k] == oldd[k]);
                        } else {
                            assert(dims@.remove(dim as int)[k] == dims@[k + 1]);
                            assert(oldd.remove(dim as int)[k] == oldd[k + 1]);
                        }
                    }
                }
                crate::dims::lemma_pos_prod_remove(oldd, dim as int);
                crate::dims::lemma_pos_prod_pos(oldd.remove(dim as int));
                assert(crate::dims::pos_prod(oldd.remove(dim as int)) <= crate::dims::pos_prod(
                    oldd,
                )) by (nonlinear_arith)
                    requires
                        crate::dims::pos_prod(oldd) == crate::dims::pos1(oldd[dim as int])
                            * crate::dims::pos_prod(oldd.remove(dim as int)),
                        crate::dims::pos1(oldd[dim as int]) >= 1,
                        crate::dims::pos_prod(oldd.remove(dim as int)) >= 1,
                ;
                crate::dims::lemma_prod_remove(oldd, dim as int);
                assert(crate::dims::pos_prod(oldd) <= usize::MAX);
                assert(crate::dims::pos_prod(ints(dims2@)) <= usize::MAX);
                assert(shape_ok(ints(dims2@)));
            }
            let r = self.reshape(&dims2);
            match r {
                Ok(t) => Ok(t),
                Err(e) => {
                    proof {
                        assert(false);
                    }
                    Err(e)
                },
            }
        } else {
            Ok(self.clone())
        }
    }

    /// Inserts a dimension of size one at position `dim`.
    pub fn unsqueeze(&self, dim: usize) -> (r: Result<Tensor, Error>)
        requires
            self.wf(),
        ensures
            match r {
                Ok(t) => {
                    &&& dim <= self.dims_sp().len()
                    &&& t.wf()
                    &&& t.dims_sp() == self.dims_sp().insert(dim as int, 1int)
                    &&& t.vals() == self.vals()
                    &&& t.dtype_sp() == self.dtype_sp()
                    &&& t.device_sp() == self.device_sp()
                },
                Err(e) => {
                    &&& dim > self.dims_sp().len()
                    &&& e matches Error::DimOutOfRange { .. }
                },
            },
    {
        let ghost oldd = self.dims_sp();
        let rank = self.rank();
        if dim > rank {
            return Err(Error::DimOutOfRange { shape: self.shape().clone(), dim, op: "unsqueeze" });
        }
        let dims = self.0.layout.dims();
        let mut dims2 = clone_dims(dims);
        dims2.insert(dim, 1);
        let ghost newd = oldd.insert(dim as int, 1int);
        proof {
            assert(ints(dims2@) =~= newd);
            newd.remove_ensures(dim as int);
            assert(newd.remove(dim as int) =~= oldd);
            crate::dims::lemma_pos_prod_remove(newd, dim as int);
            crate::dims::lemma_prod_remove(newd, dim as int);
            assert(newd[dim as int] == 1);
            assert(crate::dims::pos1(1int) == 1);
            assert(crate::dims::pos_prod(newd) == 1 * crate::dims::pos_prod(newd.remove(
                dim as int,
            )));
            assert(crate::dims::pos_prod(newd) == crate::dims::pos_prod(oldd));
            assert(prod(newd) == 1 * prod(newd.remove(dim as int)));
            assert(prod(newd) == prod(oldd));
            assert(shape_ok(ints(dims2@)));
        }
        let r = self.reshape(&dims2);
        match r {
            Ok(t) => Ok(t),
            Err(e) => {
                proof {
                    assert(false);
                }
                Err(e)
            },
        }
    }

    /// Flattens the dimensions from `start_dim` to `end_dim`, both
    /// inclusive, into one dimension holding their combined elements. With
    /// `start_dim >= end_dim` the tensor is returned unchanged; a rank-0
    /// tensor becomes a one-element vector.
    pub fn flatten(&self, start_dim: usize, end_dim: usize) -> (r: Result<Tensor, Error>)
        requires
            self.wf(),
        ensures
            match r {
                Ok(t) => {
                    &&& self.dims_sp().len() == 0 || (start_dim < self.dims_sp().len() && end_dim
                        < self.dims_sp().len())
                    &&& t.wf()
                    &&& self.dims_sp().len() == 0 ==> t.dims_sp() == seq![1int]
                    &&& self.dims_sp().len() > 0 ==> t.dims_sp() == (if start_dim < end_dim {
                        self.dims_sp().take(start_dim as int) + seq![
                            prod(self.dims_sp().subrange(start_dim as int, end_dim + 1)),
                        ] + self.dims_sp().skip(end_dim + 1)
                    } else {
                        self.dims_sp()
                    })
                    &&& t.vals() == self.vals()
                    &&& t.dtype_sp() == self.dtype_sp()
                    &&& t.device_sp() == self.device_sp()
                },
                Err(e) => {
                    &&& self.dims_sp().len() > 0
                    &&& (start_dim >= self.dims_sp().len() || end_dim >= self.dims_sp().len())
                    &&& e matches Error::DimOutOfRange { .. }
                },
            },
    {
        let ghost oldd = self.dims_sp();
        if self.rank() == 0 {
            let mut shape1: Vec<usize> = Vec::new();
            shape1.push(1);
            proof {
                lemma_one_dim_ok(shape1@, 1);
                assert(ints(shape1@) =~= seq![1int]);
                assert(prod(seq![1int]) == 1) by {
                    assert(seq![1int].skip(1) =~= Seq::<int>::empty());
                }
            }
            let r = self.reshape(&shape1);
            match r {
                Ok(t) => {
                    return Ok(t);
                },
                Err(e) => {
                    proof {
                        assert(false);
                    }
                    return Err(e);
                },
            }
        }
        match self.check_dim(start_dim, "flatten") {
            Ok(()) => {},
            Err(e) => {
                return Err(e);
            },
        }
        match self.check_dim(end_dim, "flatten") {
            Ok(()) => {},
            Err(e) => {
                return Err(e);
            },
        }
        if start_dim >= end_dim {
            return Ok(self.clone());
        }
        let dims = self.0.layout.dims();
        let n = dims.len();
        let ghost pre = oldd.take(start_dim as int);
        let ghost seg = oldd.subrange(start_dim as int, end_dim + 1);
        let ghost post = oldd.skip(end_dim + 1);
        proof {
            self.lemma_dims_nonneg();
        }
        let mut dims2: Vec<usize> = Vec::new();
        let mut j: usize = 0;
        while j < start_dim
            invariant
                0 <= j <= start_dim,
                start_dim < n,
                n == dims@.len(),
                oldd == ints(dims@),
                dims2@.len() == j,
                forall|i: int| 0 <= i < j ==> #[trigger] dims2@[i] == dims@[i],
            decreases start_dim - j,
        {
            dims2.push(dims[j]);
            j = j + 1;
        }
        let mut acc: usize = 1;
        let mut k: usize = start_dim;
        proof {
            assert(oldd.subrange(start_dim as int, start_dim as int) =~= Seq::<int>::empty());
        }
        while k <= end_dim
            invariant
                self.wf(),
                start_dim <= k <= end_dim + 1,
                start_dim < n,
                end_dim < n,
                n == dims@.len(),
                oldd == ints(dims@),
                oldd == self.dims_sp(),
                acc == prod(oldd.subrange(start_dim as int, k as int)),
            decreases end_dim + 1 - k,
        {
            let ghost sub = oldd.subrange(start_dim as int, k as int);
            let ghost sub2 = oldd.subrange(start_dim as int, k + 1);
            proof {
                assert forall|i: int| 0 <= i < sub2.len() implies #[trigger] sub2[i] >= 0 by {
                    self.lemma_dims_nonneg();
                    assert(sub2[i] == oldd[start_dim + i]);
                }
                assert(sub2.take(sub2.len() - 1) =~= sub);
                assert(sub2[sub2.len() - 1] == oldd[k as int]);
                crate::dims::lemma_prefix_prod_step(sub2, sub2.len() - 1);
                assert(sub2.take(sub2.len() as int) =~= sub2);
                crate::dims::lemma_prod_le_pos_prod(sub2);
                crate::dims::lemma_pos_prod_subrange(oldd, start_dim as int, k + 1);
                crate::dims::lemma_prod_nonneg(sub);
                self.lemma_dims_nonneg();
            }
            acc = acc * dims[k];
            k = k + 1;
        }
        dims2.push(acc);
        let mut m: usize = end_dim + 1;
        while m < n
            invariant
                end_dim + 1 <= m <= n,
                start_dim < end_dim < n,
                n == dims@.len(),
                oldd == ints(dims@),
                acc == prod(seg),
                seg == oldd.subrange(start_dim as int, end_dim + 1),
                dims2@.len() == start_dim + 1 + (m - end_dim - 1),
                forall|i: int| 0 <= i < start_dim ==> #[trigger] dims2@[i] == dims@[i],
                dims2@[start_dim as int] == acc,
                forall|i: int|
                    start_dim < i < dims2@.len() ==> #[trigger] dims2@[i] == dims@[i + end_dim
                        - start_dim],
            decreases n - m,
        {
            dims2.push(dims[m]);
            m = m + 1;
        }
        let ghost newd = pre + seq![prod(seg)] + post;
        proof {
            assert(prod(seq![prod(seg)]) == prod(seg)) by {
                assert(seq![prod(seg)].skip(1) =~= Seq::<int>::empty());
                assert(seq![prod(seg)][0] == prod(seg));
                assert(prod(Seq::<int>::empty()) == 1);
            }
            assert(crate::dims::pos_prod(seq![prod(seg)]) == crate::dims::pos1(prod(seg))) by {
                assert(seq![prod(seg)].skip(1) =~= Seq::<int>::empty());
                assert(seq![prod(seg)][0] == prod(seg));
                assert(crate::dims::pos_prod(Seq::<int>::empty()) == 1);
            }
            assert(ints(dims2@) =~= newd) by {
                assert(newd.len() == start_dim + 1 + (n - end_dim - 1));
                assert forall|i: int| 0 <= i < newd.len() implies ints(dims2@)[i] == newd[i] by {
                    if i < start_dim {
                        assert(newd[i] == pre[i]);
                        assert(pre[i] == oldd[i]);
                        assert(dims2@[i] == dims@[i]);
                    } else if i == start_dim {
                        assert(newd[i] == seq![prod(seg)][0]);
                    } else {
                        assert(newd[i] == post[i - start_dim - 1]);
                        assert(post[i - start_dim - 1] == oldd[i + end_dim - start_dim]);
                        assert(dims2@[i] == dims@[i + end_dim - start_dim]);
                    }
                }
            }
            assert(oldd =~= pre + seg + post);
            crate::dims::lemma_prod_concat(pre + seg, post);
            crate::dims::lemma_prod_concat(pre, seg);
            crate::dims::lemma_prod_concat(pre + seq![prod(seg)], post);
            crate::dims::lemma_prod_concat(pre, seq![prod(seg)]);
            assert(prod(newd) == prod(oldd)) by (nonlinear_arith)
                requires
                    prod(newd) == (prod(pre) * prod(seg)) * prod(post),
                    prod(oldd) == (prod(pre) * prod(seg)) * prod(post),
            ;
            crate::dims::lemma_pos_prod_concat(pre + seq![prod(seg)], post);
            crate::dims::lemma_pos_prod_concat(pre, seq![prod(seg)]);
            crate::dims::lemma_pos_prod_concat(pre + seg, post);
            crate::dims::lemma_pos_prod_concat(pre, seg);
            assert forall|i: int| 0 <= i < seg.len() implies #[trigger] seg[i] >= 0 by {
                self.lemma_dims_nonneg();
                assert(seg[i] == oldd[start_dim + i]);
            }
            crate::dims::lemma_prod_le_pos_prod(seg);
            crate::dims::lemma_prod_nonneg(seg);
            crate::dims::lemma_pos_prod_pos(seg);
            crate::dims::lemma_pos_prod_pos(pre);
            crate::dims::lemma_pos_prod_pos(post);
            assert(crate::dims::pos1(prod(seg)) <= crate::dims::pos_prod(seg));
            assert((crate::dims::pos_prod(pre) * crate::dims::pos1(prod(seg)))
                * crate::dims::pos_prod(post) <= (crate::dims::pos_prod(pre)
                * crate::dims::pos_prod(seg)) * crate::dims::pos_prod(post)) by (nonlinear_arith)
                requires
                    crate::dims::pos_prod(pre) >= 1,
                    crate::dims::pos_prod(post) >= 1,
                    1 <= crate::dims::pos1(prod(seg)) <= crate::dims::pos_prod(seg),
            ;
            assert(shape_ok(newd));
        }
        let r = self.reshape(&dims2);
        match r {
            Ok(t) => Ok(t),
            Err(e) => {
                proof {
                    assert(false);
                }
                Err(e)
            },
        }
    }

    /// Flattens the dimensions from the first through `end_dim` inclusive.
    pub fn flatten_to(&self, end_dim: usize) -> (r: Result<Tensor, Error>)
        requires
            self.wf(),
        ensures
            match r {
                Ok(t) => {
                    &&& self.dims_sp().len() == 0 || end_dim < self.dims_sp().len()
                    &&& t.wf()
                    &&& t.vals() == self.vals()
                    &&& t.dtype_sp() == self.dtype_sp()
                    &&& t.device_sp() == self.device_sp()
                    &&& self.dims_sp().len() == 0 ==> t.dims_sp() == seq![1int]
                    &&& self.dims_sp().len() > 0 ==> t.dims_sp() == (if 0 < end_dim {
                        seq![prod(self.dims_sp().subrange(0, end_dim + 1))] + self.dims_sp().skip(
                            end_dim + 1,
                        )
                    } else {
                        self.dims_sp()
                    })
                },
                Err(_) => self.dims_sp().len() > 0 && end_dim >= self.dims_sp().len(),
            },
    {
        let r = self.flatten(0, end_dim);
        proof {
            if r is Ok && self.dims_sp().len() > 0 && 0 < end_dim {
                let t = r->Ok_0;
                assert(self.dims_sp().take(0) =~= Seq::<int>::empty());
                assert(Seq::<int>::empty() + seq![
                    prod(self.dims_sp().subrange(0, end_dim + 1)),
                ] + self.dims_sp().skip(end_dim + 1) =~= seq![
                    prod(self.dims_sp().subrange(0, end_dim + 1)),
                ] + self.dims_sp().skip(end_dim + 1));
            }
        }
        r
    }

    /// Flattens the dimensions from `start_dim` inclusive through the last.
    pub fn flatten_from(&self, start_dim: usize) -> (r: Result<Tensor, Error>)
        requires
            self.wf(),
        ensures
            match r {
                Ok(t) => {
                    &&& self.dims_sp().len() == 0 || start_dim < self.dims_sp().len()
                    &&& t.wf()
                    &&& t.vals() == self.vals()
                    &&& t.dtype_sp() == self.dtype_sp()
                    &&& t.device_sp() == self.device_sp()
                    &&& self.dims_sp().len() == 0 ==> t.dims_sp() == seq![1int]
                    &&& self.dims_sp().len() > 0 ==> t.dims_sp() == (if start_dim
                        < self.dims_sp().len() - 1 {
                        self.dims_sp().take(start_dim as int) + seq![
                            prod(self.dims_sp().skip(start_dim as int)),
                        ]
                    } else {
                        self.dims_sp()
                    })
                },
                Err(_) => self.dims_sp().len() > 0 && start_dim >= self.dims_sp().len(),
            },
    {
        let rank = self.rank();
        if rank == 0 {
            return self.flatten(0, 0);
        }
        let r = self.flatten(start_dim, rank - 1);
        proof {
            if r is Ok && start_dim < self.dims_sp().len() - 1 {
                let nn = self.dims_sp().len() as int;
                assert(self.dims_sp().subrange(start_dim as int, nn) =~= self.dims_sp().skip(
                    start_dim as int,
                ));
                assert(self.dims_sp().skip(nn) =~= Seq::<int>::empty());
                assert(self.dims_sp().take(start_dim as int) + seq![
                    prod(self.dims_sp().skip(start_dim as int)),
                ] + Seq::<int>::empty() =~= self.dims_sp().take(start_dim as int) + seq![
                    prod(self.dims_sp().skip(start_dim as int)),
                ]);
            }
        }
        r
    }

    /// Flattens the whole tensor into one dimension.
    pub fn flatten_all(&self) -> (r: Result<Tensor, Error>)
        requires
            self.wf(),
        ensures
            match r {
                Ok(t) => {
                    &&& t.wf()
                    &&& t.dims_sp() == seq![self.count_sp()]
                    &&& t.vals() == self.vals()
                    &&& t.dtype_sp() == self.dtype_sp()
                    &&& t.device_sp() == self.device_sp()
                },
                Err(_) => false,
            },
    {
        proof {
            self.lemma_vals_len();
            self.lemma_dims_nonneg();
            lemma_prod_nonneg(self.dims_sp());
            crate::dims::lemma_prod_le_pos_prod(self.dims_sp());
            crate::dims::lemma_pos_prod_pos(self.dims_sp());
        }
        let n = self.elem_count();
        let mut shape1: Vec<usize> = Vec::new();
        shape1.push(n);
        proof {
            lemma_one_dim_ok(shape1@, n);
            assert(ints(shape1@) =~= seq![self.count_sp()]);
        }
        let r = self.reshape(&shape1);
        match r {
            Ok(t) => Ok(t),
            Err(e) => {
                proof {
                    assert(prod(seq![self.count_sp()]) == self.count_sp()) by {
                        assert(seq![self.count_sp()].skip(1) =~= Seq::<int>::empty());
                    }
                    assert(false);
                }
                Err(e)
            },
        }
    }

    /// The sub-tensor fixing index `i` on the first dimension.
    pub fn get(&self, i: usize) -> (r: Result<Tensor, Error>)
        requires
            self.wf(),
        ensures
            match r {
                Ok(t) => {
                    &&& t.wf()
                    &&& t.dtype_sp() == self.dtype_sp()
                    &&& t.device_sp() == self.device_sp()
                    &&& if self.dims_sp().len() == 0 {
                        t.dims_sp() == self.dims_sp() && t.vals() == self.vals()
                    } else {
                        &&& i < self.dims_sp()[0]
                        &&& t.dims_sp() == self.dims_sp().skip(1)
                        &&& forall|c: Seq<int>|
                            coords_in(c, t.dims_sp()) ==> #[trigger] t.at(c) == self.at(
                                seq![i as int] + c,
                            )
                    }
                },
                Err(_) => self.dims_sp().len() >= 1 && i + 1 > self.dims_sp()[0],
            },
    {
        let ghost oldd = self.dims_sp();
        if self.rank() == 0 {
            return Ok(self.clone());
        }
        let nr = match self.narrow(0, i, 1) {
            Ok(nr) => nr,
            Err(e) => {
                return Err(e);
            },
        };
        let dims = self.0.layout.dims();
        let mut dims2 = clone_dims(dims);
        dims2.remove(0);
        let ghost d2 = oldd.skip(1);
        proof {
            assert(ints(dims2@) =~= d2);
            nr.lemma_dims_nonneg();
            assert(nr.dims_sp() == oldd.update(0, 1int));
            assert(nr.dims_sp().skip(1) =~= d2);
            // the narrowed tensor's element count equals the target's
            crate::dims::lemma_prod_remove(nr.dims_sp(), 0);
            assert(nr.dims_sp().remove(0) =~= d2);
            assert(prod(nr.dims_sp()) == 1 * prod(d2));
            crate::dims::lemma_pos_prod_remove(nr.dims_sp(), 0);
            crate::dims::lemma_pos_prod_pos(nr.dims_sp().remove(0));
            assert(crate::dims::pos_prod(nr.dims_sp()) == crate::dims::pos1(1int)
                * crate::dims::pos_prod(d2));
            assert(shape_ok(d2));
        }
        let t = match nr.reshape(&dims2) {
            Ok(t) => t,
            Err(e) => {
                proof {
                    assert(false);
                }
                return Err(e);
            },
        };
        proof {
            assert forall|c: Seq<int>| coords_in(c, t.dims_sp()) implies #[trigger] t.at(c)
                == self.at(seq![i as int] + c) by {
                let cfull = seq![0int] + c;
                assert forall|j: int| 0 <= j < cfull.len() implies 0 <= #[trigger] cfull[j]
                    < nr.dims_sp()[j] by {
                    if j > 0 {
                        assert(cfull[j] == c[j - 1]);
                        assert(nr.dims_sp()[j] == oldd[j]);
                        assert(t.dims_sp()[j - 1] == oldd[j]);
                    }
                }
                assert(coords_in(cfull, nr.dims_sp()));
                t.lemma_at_vals(c);
                nr.lemma_at_vals(cfull);
                assert(flat_of(cfull, nr.dims_sp()) == flat_of(c, d2)) by {
                    assert(cfull[0] == 0);
                    assert(cfull.skip(1) =~= c);
                    assert(nr.dims_sp().skip(1) =~= d2);
                    assert(0 * prod(nr.dims_sp().skip(1)) == 0) by (nonlinear_arith);
                    assert(t.dims_sp() == d2);
                }
                assert(t.at(c) == nr.at(cfull));
                assert(nr.at(cfull) == self.at(cfull.update(0, cfull[0] + i)));
                assert(cfull.update(0, cfull[0] + i) =~= seq![i as int] + c);
            }
        }
        Ok(t)
    }
}

} // verus!

verus! {

impl Tensor {
    /// A 1-dimensional tensor holding `start, start + step, ...` up to but
    /// excluding `end`. The step must be positive unless the range is empty.
    pub fn arange_step(start: i64, end: i64, step: i64, device: &Device) -> (r: Result<
        Tensor,
        Error,
    >)
        requires
            step > 0 || start >= end,
        ensures
            match r {
                Ok(t) => {
                    &&& t.wf()
                    &&& t.dims_sp() == seq![t.count_sp()]
                    &&& t.dtype_sp() == DType::I64
                    &&& t.device_sp() == *device
                    &&& !t.tracked_sp()
                    &&& forall|i: int|
                        0 <= i < t.count_sp() ==> #[trigger] t.vals()[i] == start + i * step
                    &&& (t.count_sp() == 0 <==> start >= end)
                    &&& (start < end ==> end <= start + t.count_sp() * step)
                    &&& (t.count_sp() > 0 ==> start + (t.count_sp() - 1) * step < end)
                },
                Err(_) => false,
            },
    {
        let mut data: Vec<i64> = Vec::new();
        if start < end {
            let mut current: i64 = start;
            proof {
                assert(0int * step == 0) by (nonlinear_arith);
            }
            while current < end
                invariant_except_break
                    current as int == start + data@.len() * step,
                invariant
                    step > 0,
                    end <= i64::MAX,
                    forall|i: int| 0 <= i < data@.len() ==> #[trigger] data@[i] as int == start + i
                        * step,
                    forall|i: int| 0 <= i < data@.len() ==> #[trigger] data@[i] < end,
                ensures
                    start + data@.len() * step >= end,
                decreases
                        if current < end {
                            end - current
                        } else {
                            0int
                        },
            {
                let ghost k = data@.len() as int;
                data.push(current);
                proof {
                    assert((k + 1) * step == k * step + step) by (nonlinear_arith);
                }
                match current.checked_add(step) {
                    Some(v) => {
                        current = v;
                    },
                    None => {
                        proof {
                            assert(start + data@.len() * step > i64::MAX);
                        }
                        break ;
                    },
                }
            }
            proof {
                assert(data@.len() * step >= 0) by (nonlinear_arith)
                    requires
                        step > 0,
                        data@.len() >= 0,
                ;
                assert((data@.len() - 1) * step == data@.len() * step - step) by (nonlinear_arith);
            }
        }
        let ghost dlen = data@.len() as int;
        proof {
            if start < end {
                assert(dlen * step >= end - start > 0);
                assert(dlen > 0) by (nonlinear_arith)
                    requires
                        dlen * step > 0,
                        step > 0,
                ;
            }
        }
        let r = Tensor::new(data, device);
        match r {
            Ok(t) => {
                proof {
                    t.lemma_vals_len();
                    assert(prod(seq![dlen]) == dlen) by {
                        assert(seq![dlen].skip(1) =~= Seq::<int>::empty());
                    }
                    assert(t.count_sp() == dlen);
                    assert(t.dims_sp() =~= seq![t.count_sp()]);
                    if dlen > 0 {
                        assert(t.vals()[dlen - 1] as int == start + (dlen - 1) * step);
                        assert(t.vals()[dlen - 1] < end);
                    }
                }
                Ok(t)
            },
            Err(e) => Err(e),
        }
    }

    /// A 1-dimensional tensor holding the integers from `start` up to but
    /// excluding `end`.
    pub fn arange(start: i64, end: i64, device: &Device) -> (r: Result<Tensor, Error>)
        ensures
            match r {
                Ok(t) => {
                    &&& t.wf()
                    &&& t.dims_sp() == seq![t.count_sp()]
                    &&& t.dtype_sp() == DType::I64
                    &&& t.device_sp() == *device
                    &&& !t.tracked_sp()
                    &&& forall|i: int| 0 <= i < t.count_sp() ==> #[trigger] t.vals()[i] == start + i
                    &&& (t.count_sp() == 0 <==> start >= end)
                    &&& (start < end ==> t.count_sp() == end - start)
                },
                Err(_) => false,
            },
    {
        let r = Tensor::arange_step(start, end, 1, device);
        match r {
            Ok(t) => {
                proof {
                    assert forall|i: int| 0 <= i < t.count_sp() implies #[trigger] t.vals()[i]
                        == start + i by {
                        assert(t.vals()[i] as int == start + i * 1);
                    }
                    if start < end {
                        assert(end <= start + t.count_sp() * 1);
                        assert(t.count_sp() > 0);
                        assert(start + (t.count_sp() - 1) * 1 < end);
                    }
                }
                Ok(t)
            },
            Err(e) => Err(e),
        }
    }

    /// Casts every element into the target dtype; narrowing casts truncate
    /// as machine integer casts do. The same handle is returned when the
    /// dtype already matches.
    pub fn to_dtype(&self, dtype: DType) -> (r: Result<Tensor, Error>)
        requires
            self.wf(),
        ensures
            match r {
                Ok(t) => {
                    &&& t.wf()
                    &&& t.dims_sp() == self.dims_sp()
                    &&& t.dtype_sp() == dtype
                    &&& t.device_sp() == self.device_sp()
                    &&& dtype == self.dtype_sp() ==> t == *self
                    &&& forall|c: Seq<int>|
                        coords_in(c, self.dims_sp()) ==> #[trigger] t.at(c) as int
                            == crate::dtype::wrap_val(dtype, self.at(c) as int)
                },
                Err(_) => false,
            },
    {
        if self.dtype_eq(dtype) {
            let t = self.clone();
            proof {
                assert forall|c: Seq<int>| coords_in(c, self.dims_sp()) implies #[trigger] t.at(c)
                    as int == crate::dtype::wrap_val(dtype, self.at(c) as int) by {
                    assert(in_dtype(dtype, self.at(c) as int));
                    crate::dtype::lemma_wrap_id(dtype, self.at(c) as int);
                }
            }
            return Ok(t);
        }
        let data = self.materialize_self();
        let mut out: Vec<i64> = Vec::new();
        let mut i: usize = 0;
        let n = data.len();
        while i < n
            invariant
                0 <= i <= n,
                n == data@.len(),
                out@.len() == i,
                forall|k: int| 0 <= k < i ==> #[trigger] out@[k] as int == crate::dtype::wrap_val(
                    dtype,
                    data@[k] as int,
                ),
                forall|k: int| 0 <= k < i ==> in_dtype(dtype, #[trigger] out@[k] as int),
            decreases n - i,
        {
            out.push(crate::dtype::cast_val(dtype, data[i]));
            i = i + 1;
        }
        let op = BackpropOp::new1(self, Op::ToDType(self.clone()));
        let t = from_storage(
            out,
            self.shape().clone(),
            op,
            false,
            dtype,
            *self.device(),
            self.0.id.next(),
        );
        proof {
            self.lemma_vals_len();
            assert forall|c: Seq<int>| coords_in(c, self.dims_sp()) implies #[trigger] t.at(c)
                as int == crate::dtype::wrap_val(dtype, self.at(c) as int) by {
                self.lemma_at_vals(c);
                t.lemma_at_vals(c);
                assert(t.vals()[flat_of(c, self.dims_sp())] as int == crate::dtype::wrap_val(
                    dtype,
                    self.vals()[flat_of(c, self.dims_sp())] as int,
                ));
            }
        }
        Ok(t)
    }

    /// Whether this tensor's dtype is the given one.
    fn dtype_eq(&self, dtype: DType) -> (r: bool)
        ensures
            r == (self.dtype_sp() == dtype),
    {
        match (self.0.dtype, dtype) {
            (DType::U8, DType::U8) => true,
            (DType::U32, DType::U32) => true,
            (DType::I64, DType::I64) => true,
            _ => false,
        }
    }

    /// A tensor of values sampled uniformly from `lo .. up`. The samples
    /// come from the process's thread-local generator, so only the range of
    /// the values is specified.
    pub fn rand(lo: i64, up: i64, shape: &Vec<usize>, device: &Device) -> (r: Result<
        Tensor,
        Error,
    >)
        requires
            shape_ok(ints(shape@)),
            lo < up,
        ensures
            match r {
                Ok(t) => {
                    &&& t.wf()
                    &&& t.dims_sp() == ints(shape@)
                    &&& t.dtype_sp() == DType::I64
                    &&& t.device_sp() == *device
                    &&& !t.tracked_sp()
                    &&& forall|i: int|
                        0 <= i < t.vals().len() ==> lo <= #[trigger] t.vals()[i] < up
                },
                Err(_) => false,
            },
    {
        proof {
            lemma_ints_nonneg(shape@);
            lemma_shape_ok_suffix(ints(shape@));
        }
        let n = elem_count_of(shape);
        let mut data: Vec<i64> = Vec::new();
        let mut i: usize = 0;
        while i < n
            invariant
                0 <= i <= n,
                lo < up,
                data@.len() == i,
                forall|k: int| 0 <= k < i ==> lo <= #[trigger] data@[k] < up,
            decreases n - i,
        {
            let v: i64 = sample_range(lo, up);
            data.push(v);
            i = i + 1;
        }
        let r = Tensor::from_vec(data, shape, device);
        match r {
            Ok(t) => {
                proof {
                    assert(t.vals().len() == n as int);
                }
                Ok(t)
            },
            Err(e) => {
                proof {
                    assert(false);
                }
                Err(e)
            },
        }
    }
}

} // verus!

verus! {

/// Wraps a freshly built per-coordinate value grid as a tensor over its own
/// contiguous storage.
pub(crate) fn grid_tensor(
    outdims: &Vec<usize>,
    out: Vec<i64>,
    Ghost(fs): Ghost<spec_fn(Seq<int>) -> i64>,
    op: BackpropOp,
    dtype: DType,
    device: Device,
    id: TensorId,
) -> (t: Tensor)
    requires
        shape_ok(ints(outdims@)),
        out@ == crate::dims::grid_all(fs, ints(outdims@)),
        forall|c: Seq<int>|
            coords_in(c, ints(outdims@)) ==> in_dtype(dtype, #[trigger] fs(c) as int),
    ensures
        t.wf(),
        t.dims_sp() == ints(outdims@),
        t.dtype_sp() == dtype,
        t.device_sp() == device,
        !t.var_sp(),
        t.op_some_sp() == op.is_some_sp(),
        t.vals() == crate::dims::grid_all(fs, ints(outdims@)),
        forall|c: Seq<int>| coords_in(c, t.dims_sp()) ==> #[trigger] t.at(c) == fs(c),
{
    let ghost od = ints(outdims@);
    proof {
        lemma_ints_nonneg(outdims@);
        crate::dims::lemma_grid_all_len(fs, od);
        assert forall|i: int| 0 <= i < out@.len() implies in_dtype(
            dtype,
            #[trigger] out@[i] as int,
        ) by {
            crate::dims::lemma_grid_all_elem(fs, od, i);
            let c = choose|c: Seq<int>|
                coords_in(c, od) && crate::dims::grid_all(fs, od)[i] == #[trigger] fs(c);
            assert(out@[i] == fs(c));
        }
    }
    let t = from_storage(
        out,
        Shape::new(clone_dims(outdims)),
        op,
        false,
        dtype,
        device,
        id,
    );
    proof {
        assert forall|c: Seq<int>| coords_in(c, t.dims_sp()) implies #[trigger] t.at(c) == fs(
            c,
        ) by {
            t.lemma_at_vals(c);
            crate::dims::lemma_grid_index(fs, od, c);
        }
    }
    t
}

} // verus!

verus! {

impl Tensor {
    /// The rows of a rank-2 tensor, each a vector of scalar values.
    pub fn to_vec2(&self) -> (r: Result<Vec<Vec<i64>>, Error>)
        requires
            self.wf(),
        ensures
            match r {
                Ok(v) => {
                    &&& self.dims_sp().len() == 2
                    &&& v@.len() == self.dims_sp()[0]
                    &&& forall|i: int|
                        0 <= i < v@.len() ==> #[trigger] v@[i]@ == self.vals().subrange(
                            i * self.dims_sp()[1],
                            (i + 1) * self.dims_sp()[1],
                        )
                },
                Err(e) => {
                    &&& self.dims_sp().len() != 2
                    &&& e matches Error::UnexpectedNumberOfDims { expected, got, .. } && expected
                        == 2 && got == self.dims_sp().len()
                },
            },
    {
        if self.rank() != 2 {
            return Err(
                Error::UnexpectedNumberOfDims {
                    expected: 2,
                    got: self.rank(),
                    shape: self.shape().clone(),
                },
            );
        }
        let data = self.materialize_self();
        let nlen = data.len();
        let dims = self.dims();
        let d0 = dims[0];
        let d1 = dims[1];
        proof {
            self.lemma_vals_len();
            self.lemma_dims_nonneg();
            crate::dims::lemma_prod2(self.dims_sp());
        }
        let mut rows: Vec<Vec<i64>> = Vec::new();
        let mut i: usize = 0;
        while i < d0
            invariant
                0 <= i <= d0,
                d0 == self.dims_sp()[0],
                d1 == self.dims_sp()[1],
                data@ == self.vals(),
                data@.len() == d0 * (d1 * 1),
                nlen == data@.len(),
                rows@.len() == i,
                forall|k: int| 0 <= k < i ==> #[trigger] rows@[k]@ == self.vals().subrange(
                    k * d1,
                    (k + 1) * d1,
                ),
            decreases d0 - i,
        {
            proof {
                assert(0 <= i * d1 && (i + 1) * d1 <= d0 * (d1 * 1) && i * d1 + d1 == (i + 1)
                    * d1) by (nonlinear_arith)
                    requires
                        0 <= i < d0,
                        d1 >= 0,
                ;
            }
            let mut row: Vec<i64> = Vec::new();
            let mut j: usize = 0;
            while j < d1
                invariant
                    0 <= j <= d1,
                    0 <= i < d0,
                    data@ == self.vals(),
                    data@.len() == d0 * (d1 * 1),
                    nlen == data@.len(),
                    0 <= i * d1,
                    (i + 1) * d1 <= data@.len(),
                    i * d1 + d1 == (i + 1) * d1,
                    row@.len() == j,
                    forall|x: int| 0 <= x < j ==> #[trigger] row@[x] == data@[i * d1 + x],
                decreases d1 - j,
            {
                row.push(data[i * d1 + j]);
                j = j + 1;
            }
            proof {
                assert(row@ =~= self.vals().subrange(i * d1, (i + 1) * d1));
            }
            rows.push(row);
            i = i + 1;
        }
        Ok(rows)
    }

    /// The planes of a rank-3 tensor, each a vector of row vectors.
    #[verifier::rlimit(100)]
    pub fn to_vec3(&self) -> (r: Result<Vec<Vec<Vec<i64>>>, Error>)
        requires
            self.wf(),
        ensures
            match r {
                Ok(v) => {
                    &&& self.dims_sp().len() == 3
                    &&& v@.len() == self.dims_sp()[0]
                    &&& forall|i: int| 0 <= i < v@.len() ==> #[trigger] v@[i]@.len()
                        == self.dims_sp()[1]
                    &&& forall|i: int, j: int|
                        0 <= i < v@.len() && 0 <= j < self.dims_sp()[1]
                            ==> #[trigger] v@[i]@[j]@ == self.vals().subrange(
                            (i * self.dims_sp()[1] + j) * self.dims_sp()[2],
                            (i * self.dims_sp()[1] + j + 1) * self.dims_sp()[2],
                        )
                },
                Err(e) => {
                    &&& self.dims_sp().len() != 3
                    &&& e matches Error::UnexpectedNumberOfDims { expected, got, .. } && expected
                        == 3 && got == self.dims_sp().len()
                },
            },
    {
        if self.rank() != 3 {
            return Err(
                Error::UnexpectedNumberOfDims {
                    expected: 3,
                    got: self.rank(),
                    shape: self.shape().clone(),
                },
            );
        }
        let data = self.materialize_self();
        let nlen = data.len();
        let dims = self.dims();
        let d0 = dims[0];
        let d1 = dims[1];
        let d2 = dims[2];
        proof {
            self.lemma_vals_len();
            self.lemma_dims_nonneg();
            crate::dims::lemma_prod3(self.dims_sp());
            self.lemma_wf_suffix();
            crate::dims::lemma_prefix2_bound(self.dims_sp());
        }
        let mut planes: Vec<Vec<Vec<i64>>> = Vec::new();
        let mut i: usize = 0;
        while i < d0
            invariant
                0 <= i <= d0,
                d0 == self.dims_sp()[0],
                d1 == self.dims_sp()[1],
                d2 == self.dims_sp()[2],
                d0 * d1 <= usize::MAX,
                0 <= d0 * d1,
                data@ == self.vals(),
                data@.len() == d0 * (d1 * (d2 * 1)),
                nlen == data@.len(),
                planes@.len() == i,
                forall|k: int| 0 <= k < i ==> #[trigger] planes@[k]@.len() == d1,
                forall|k: int, j: int|
                    0 <= k < i && 0 <= j < d1 ==> #[trigger] planes@[k]@[j]@
                        == self.vals().subrange((k * d1 + j) * d2, (k * d1 + j + 1) * d2),
            decreases d0 - i,
        {
            let mut rows: Vec<Vec<i64>> = Vec::new();
            let mut j: usize = 0;
            proof {
                assert(i * d1 + d1 <= d0 * d1 && 0 <= i * d1) by (nonlinear_arith)
                    requires
                        0 <= i < d0,
                        d1 >= 0,
                ;
                assert(d0 * d1 <= usize::MAX);
            }
            let rowb = i * d1;
            while j < d1
                invariant
                    0 <= j <= d1,
                    0 <= i < d0,
                    d1 >= 0,
                    d2 >= 0,
                    rowb == i * d1,
                    d0 * d1 <= usize::MAX,
                    data@ == self.vals(),
                    data@.len() == d0 * (d1 * (d2 * 1)),
                    nlen == data@.len(),
                    rows@.len() == j,
                    forall|x: int| 0 <= x < j ==> #[trigger] rows@[x]@ == self.vals().subrange(
                        (i * d1 + x) * d2,
                        (i * d1 + x + 1) * d2,
                    ),
                decreases d1 - j,
            {
                proof {
                    assert(0 <= (i * d1 + j) * d2 && (i * d1 + j + 1) * d2 <= d0 * (d1 * (d2 * 1))
                        && (i * d1 + j) * d2 + d2 == (i * d1 + j + 1) * d2 && i * d1 + j < d0
                        * d1) by (nonlinear_arith)
                        requires
                            0 <= i < d0,
                            0 <= j < d1,
                            d2 >= 0,
                            d1 >= 0,
                    ;
                    assert(rowb == i * d1);
                    assert(rowb + j < d0 * d1 <= usize::MAX);
                }
                let base = (rowb + j) * d2;
                let mut row: Vec<i64> = Vec::new();
                let mut x: usize = 0;
                while x < d2
                    invariant
                        0 <= x <= d2,
                        base == (i * d1 + j) * d2,
                        0 <= base,
                        base + d2 <= data@.len(),
                        nlen == data@.len(),
                        row@.len() == x,
                        forall|y: int| 0 <= y < x ==> #[trigger] row@[y] == data@[base + y],
                    decreases d2 - x,
                {
                    row.push(data[base + x]);
                    x = x + 1;
                }
                proof {
                    assert(row@ =~= data@.subrange(base as int, base + d2));
                }
                rows.push(row);
                proof {
                    assert forall|x: int|
                        0 <= x < j + 1 implies #[trigger] rows@[x]@ == self.vals().subrange(
                        (i * d1 + x) * d2,
                        (i * d1 + x + 1) * d2,
                    ) by {
                        if x == j {
                            assert(rows@[x]@ == row@);
                            assert(base as int == (i * d1 + j) * d2);
                            assert(base + d2 == (i * d1 + j + 1) * d2);
                        }
                    }
                }
                j = j + 1;
            }
            let ghost prevp = planes@;
            planes.push(rows);
            proof {
                assert forall|k: int| 0 <= k < i + 1 implies #[trigger] planes@[k]@.len()
                    == d1 by {
                    if k < i {
                        assert(planes@[k] == prevp[k]);
                        assert(prevp[k]@.len() == d1);
                    } else {
                        assert(planes@[k]@ == rows@);
                    }
                }
                assert forall|k: int, j2: int|
                    0 <= k < i + 1 && 0 <= j2 < d1 implies #[trigger] planes@[k]@[j2]@
                    == self.vals().subrange((k * d1 + j2) * d2, (k * d1 + j2 + 1) * d2) by {
                    if k < i {
                        assert(planes@[k] == prevp[k]);
                        assert(prevp[k]@[j2]@ == self.vals().subrange(
                            (k * d1 + j2) * d2,
                            (k * d1 + j2 + 1) * d2,
                        ));
                    } else {
                        assert(planes@[k]@ == rows@);
                        assert(rows@[j2]@ == self.vals().subrange(
                            (i * d1 + j2) * d2,
                            (i * d1 + j2 + 1) * d2,
                        ));
                    }
                }
            }
            i = i + 1;
        }
        Ok(planes)
    }
}

} // verus!

verus! {

impl Tensor {
    /// The storage positions of the elements, visited in row-major logical
    /// coordinate order: the restartable enumeration behind bulk copies.
    pub fn strided_index(&self) -> (out: Vec<usize>)
        requires
            self.wf(),
        ensures
            out@.len() == self.count_sp(),
            forall|c: Seq<int>|
                coords_in(c, self.dims_sp()) ==> #[trigger] out@[flat_of(c, self.dims_sp())] as int
                    == phys(self.off_sp(), c, self.strides_sp()),
    {
        proof {
            self.lemma_wf_suffix();
        }
        let dims = self.0.layout.dims();
        let stridesv = self.0.layout.stride();
        let off = self.0.layout.start_offset();
        let stlen = self.storage_len();
        let ghost fs = |c: Seq<int>| (phys(self.off_sp(), c, self.strides_sp()) as usize);
        let cell = |cv: &Vec<usize>| -> (v: usize)
            requires
                coords_in(ints(cv@), ints(dims@)),
            ensures
                v as int == phys(self.off_sp(), ints(cv@), self.strides_sp()),
            {
                proof {
                    crate::dims::lemma_ints_nonneg(cv@);
                }
                crate::kernel::offset_at(stlen, stridesv, off, cv)
            };
        proof {
            assert forall|cq: Vec<usize>|
                coords_in(ints(cq@), ints(dims@)) implies #[trigger] call_requires(
                cell,
                (&cq,),
            ) by {}
            assert forall|cq: Vec<usize>, v: usize|
                coords_in(ints(cq@), ints(dims@)) && #[trigger] call_ensures(
                cell,
                (&cq,),
                v,
            ) implies v == fs(ints(cq@)) by {
                assert(0 <= phys(self.off_sp(), ints(cq@), self.strides_sp())) by {
                    self.lemma_strides_nonneg();
                    crate::dims::lemma_ints_nonneg(cq@);
                    crate::dims::lemma_dot_nonneg(ints(cq@), self.strides_sp());
                    (*self.0).layout.lemma_off_nonneg();
                }
            }
        }
        let out = crate::kernel::build_grid(dims, &cell, Ghost(fs));
        proof {
            assert forall|c: Seq<int>|
                coords_in(c, self.dims_sp()) implies #[trigger] out@[flat_of(c, self.dims_sp())]
                as int == phys(self.off_sp(), c, self.strides_sp()) by {
                crate::dims::lemma_grid_index(fs, self.dims_sp(), c);
                assert(out@[flat_of(c, self.dims_sp())] == fs(c));
                assert(0 <= phys(self.off_sp(), c, self.strides_sp()) <= usize::MAX) by {
                    self.lemma_strides_nonneg();
                    assert forall|j: int| 0 <= j < c.len() implies #[trigger] c[j] >= 0 by {}
                    crate::dims::lemma_dot_nonneg(c, self.strides_sp());
                    (*self.0).layout.lemma_off_nonneg();
                    assert(phys(self.off_sp(), c, self.strides_sp()) < self.st().len());
                    assert(self.st().len() <= usize::MAX) by {
                        assert(self.st().len() == stlen || self.st().len() <= usize::MAX);
                    }
                }
            }
        }
        out
    }

    /// The storage positions grouped into contiguous runs as pairs of a
    /// start position and a run length: one run for a contiguous tensor;
    /// otherwise one run per position of the leading axes, coalescing the
    /// maximal trailing group of axes whose strides are exactly row-major,
    /// so bulk copies avoid per-element iteration where the layout allows.
    pub fn strided_blocks(&self) -> (out: Vec<(usize, usize)>)
        requires
            self.wf(),
        ensures
            self.contiguous_sp() ==> out@ == seq![
                (self.off_sp() as usize, self.count_sp() as usize),
            ],
            !self.contiguous_sp() && self.count_sp() == 0 ==> out@.len() == 0,
            !self.contiguous_sp() && self.count_sp() > 0 ==> {
                let p = block_split(
                    self.dims_sp(),
                    self.strides_sp(),
                    self.dims_sp().len() as int,
                );
                &&& out@.len() == prod(self.dims_sp().take(p))
                &&& forall|k: int|
                    0 <= k < out@.len() ==> (#[trigger] out@[k]).1 as int == prod(
                        self.dims_sp().skip(p),
                    )
                &&& forall|c: Seq<int>|
                    coords_in(c, self.dims_sp()) ==> phys(self.off_sp(), c, self.strides_sp())
                        == (#[trigger] out@[flat_of(c.take(p), self.dims_sp().take(p))]).0
                        + flat_of(c.skip(p), self.dims_sp().skip(p))
            },
    {
        if self.is_contiguous() {
            let off = self.0.layout.start_offset();
            let n = self.elem_count();
            let mut out: Vec<(usize, usize)> = Vec::new();
            out.push((off, n));
            proof {
                assert(out@ =~= seq![(self.off_sp() as usize, self.count_sp() as usize)]);
            }
            out
        } else {
            let n = self.elem_count();
            if n == 0 {
                let out: Vec<(usize, usize)> = Vec::new();
                return out;
            }
            let dims = self.0.layout.dims();
            let stridesv = self.0.layout.stride();
            let off = self.0.layout.start_offset();
            let stlen = self.storage_len();
            let rank = dims.len();
            let ghost dd = self.dims_sp();
            let ghost ss = self.strides_sp();
            proof {
                self.lemma_dims_nonneg();
                crate::dims::lemma_prod_pos_entries(dd);
                assert(dd.skip(rank as int) =~= Seq::<int>::empty());
            }
            let mut p = rank;
            let mut bl: usize = 1;
            let mut stop = false;
            while p > 0 && !stop
                invariant
                    0 <= p <= rank,
                    rank == dims@.len(),
                    dd == ints(dims@),
                    dd == self.dims_sp(),
                    ss == ints(stridesv@),
                    ss == self.strides_sp(),
                    self.wf(),
                    forall|j: int| 0 <= j < dd.len() ==> #[trigger] dd[j] >= 1,
                    bl as int == prod(dd.skip(p as int)),
                    !stop ==> block_split(dd, ss, rank as int) == block_split(dd, ss, p as int),
                    stop ==> block_split(dd, ss, rank as int) == p as int,
                decreases p, (if stop {
                    0int
                } else {
                    1int
                }),
            {
                if stridesv[p - 1] == bl {
                    proof {
                        assert(ss[p - 1] == prod(dd.skip(p as int)));
                        assert(dd.skip(p - 1)[0] == dd[p - 1]);
                        assert(dd.skip(p - 1).skip(1) =~= dd.skip(p as int));
                        assert(prod(dd.skip(p - 1)) == dd[p - 1] * prod(dd.skip(p as int)));
                        assert forall|x: int|
                            0 <= x < dd.skip(p - 1).len() implies #[trigger] dd.skip(p - 1)[x]
                            >= 0 by {
                            assert(dd.skip(p - 1)[x] == dd[x + p - 1]);
                        }
                        crate::dims::lemma_prod_le_pos_prod(dd.skip(p - 1));
                        crate::dims::lemma_pos_prod_skip(dd, p - 1);
                        assert(crate::dims::shape_ok(dd));
                        assert(prod(dd.skip(p - 1)) <= usize::MAX);
                        assert(dd[p - 1] == dims@[p - 1] as int);
                        assert((bl as int) * (dims@[p - 1] as int) == prod(dd.skip(p - 1)))
                            by (nonlinear_arith)
                            requires
                                bl as int == prod(dd.skip(p as int)),
                                dd[p - 1] == dims@[p - 1] as int,
                                prod(dd.skip(p - 1)) == dd[p - 1] * prod(dd.skip(p as int)),
                        ;
                    }
                    bl = bl * dims[p - 1];
                    p = p - 1;
                    proof {
                        assert(bl as int == prod(dd.skip(p as int)));
                    }
                } else {
                    proof {
                        assert(ss[p - 1] != prod(dd.skip(p as int)));
                        assert(block_split(dd, ss, p as int) == p as int);
                    }
                    stop = true;
                }
            }
            proof {
                if !stop {
                    assert(p == 0);
                    assert(block_split(dd, ss, 0int) == 0int);
                }
                assert(block_split(dd, ss, rank as int) == p as int);
            }
            let mut pdims: Vec<usize> = Vec::new();
            let mut x: usize = 0;
            while x < p
                invariant
                    0 <= x <= p,
                    p <= rank,
                    rank == dims@.len(),
                    dd == ints(dims@),
                    pdims@.len() == x,
                    forall|i: int| 0 <= i < x ==> ints(pdims@)[i] == #[trigger] dd[i],
                decreases p - x,
            {
                let v = dims[x];
                pdims.push(v);
                proof {
                    assert forall|i: int| 0 <= i < x + 1 implies ints(pdims@)[i]
                        == #[trigger] dd[i] by {
                        if i == x {
                            assert(pdims@[i] == v);
                        }
                    }
                }
                x = x + 1;
            }
            let ghost pd = ints(pdims@);
            proof {
                assert(pd =~= dd.take(p as int));
                assert(crate::dims::suffix_ok(pd)) by {
                    crate::dims::lemma_pos_prod_pos(dd.skip(p as int));
                    assert forall|k: int|
                        0 <= k <= pd.len() implies #[trigger] prod(pd.skip(k)) <= usize::MAX by {
                        assert(pd.skip(k) + dd.skip(p as int) =~= dd.skip(k));
                        crate::dims::lemma_pos_prod_concat(pd.skip(k), dd.skip(p as int));
                        crate::dims::lemma_pos_prod_pos(pd.skip(k));
                        assert forall|y: int|
                            0 <= y < pd.skip(k).len() implies #[trigger] pd.skip(k)[y] >= 0 by {
                            assert(pd.skip(k)[y] == dd[y + k]);
                        }
                        crate::dims::lemma_prod_le_pos_prod(pd.skip(k));
                        crate::dims::lemma_pos_prod_skip(dd, k);
                        assert(crate::dims::pos_prod(pd.skip(k)) <= crate::dims::pos_prod(
                            dd.skip(k),
                        )) by (nonlinear_arith)
                            requires
                                crate::dims::pos_prod(dd.skip(k)) == crate::dims::pos_prod(
                                    pd.skip(k),
                                ) * crate::dims::pos_prod(dd.skip(p as int)),
                                crate::dims::pos_prod(pd.skip(k)) >= 0,
                                crate::dims::pos_prod(dd.skip(p as int)) >= 1,
                        ;
                        assert(crate::dims::shape_ok(dd));
                        assert(crate::dims::pos_prod(dd.skip(k)) <= usize::MAX);
                    }
                }
            }
            let ghost fs = |cp: Seq<int>|
                (
                    (phys(
                        off as int,
                        cp + Seq::new((dd.len() - p) as nat, |z: int| 0int),
                        ss,
                    ) as usize),
                    bl,
                );
            let cell = |cv: &Vec<usize>| -> (v: (usize, usize))
                requires
                    coords_in(ints(cv@), ints(pdims@)),
                    ints(pdims@) == ints(dims@).take(p as int),
                    forall|j: int| 0 <= j < ints(dims@).len() ==> #[trigger] ints(dims@)[j] >= 1,
                    self.wf(),
                    ints(dims@) == self.dims_sp(),
                    ints(stridesv@) == self.strides_sp(),
                    off == self.off_sp(),
                    stlen == self.st().len(),
                ensures
                    v.0 as int == phys(
                        off as int,
                        ints(cv@) + Seq::new(
                            (ints(dims@).len() - ints(cv@).len()) as nat,
                            |z: int| 0int,
                        ),
                        ints(stridesv@),
                    ),
                    v.1 == bl,
                {
                    let mut coord = crate::shape::clone_dims(cv);
                    let mut y: usize = p;
                    proof {
                        assert(ints(cv@).len() == ints(pdims@).len());
                        assert(coord@.len() == p);
                    }
                    while y < rank
                        invariant
                            p <= y <= rank,
                            rank == dims@.len(),
                            cv@.len() == p,
                            coord@.len() == y,
                            forall|i: int| 0 <= i < p ==> #[trigger] coord@[i] == cv@[i],
                            forall|i: int|
                                p <= i < y ==> #[trigger] ints(coord@)[i] == 0,
                        decreases rank - y,
                    {
                        let ghost oldc = coord@;
                        coord.push(0);
                        proof {
                            assert(coord@ == oldc.push(0usize));
                            assert forall|i: int| 0 <= i < p implies #[trigger] coord@[i]
                                == cv@[i] by {
                                assert(coord@[i] == oldc[i]);
                            }
                            assert forall|i: int|
                                p <= i < y + 1 implies #[trigger] ints(coord@)[i] == 0 by {
                                if i == y {
                                    assert(coord@[i] == 0usize);
                                } else {
                                    assert(coord@[i] == oldc[i]);
                                    assert(ints(oldc)[i] == 0);
                                }
                            }
                        }
                        y = y + 1;
                    }
                    proof {
                        assert(ints(coord@) =~= ints(cv@) + Seq::new(
                            (ints(dims@).len() - ints(cv@).len()) as nat,
                            |z: int| 0int,
                        ));
                        assert(coords_in(ints(coord@), self.dims_sp())) by {
                            assert forall|j: int|
                                0 <= j < coord@.len() implies 0 <= #[trigger] ints(coord@)[j]
                                < self.dims_sp()[j] by {
                                if j < p {
                                    assert(ints(coord@)[j] == ints(cv@)[j]);
                                    assert(ints(pdims@)[j] == self.dims_sp()[j]);
                                } else {
                                    assert(ints(coord@)[j] == 0);
                                    assert(self.dims_sp()[j] >= 1);
                                }
                            }
                        }
                        crate::dims::lemma_ints_nonneg(coord@);
                        assert(phys(self.off_sp(), ints(coord@), self.strides_sp())
                            < self.st().len());
                        assert(phys(off as int, ints(coord@), ints(stridesv@)) < stlen);
                    }
                    let o = crate::kernel::offset_at(stlen, stridesv, off, &coord);
                    (o, bl)
                };
            proof {
                assert forall|cq: Vec<usize>|
                    coords_in(ints(cq@), ints(pdims@)) implies #[trigger] call_requires(
                    cell,
                    (&cq,),
                ) by {}
                assert forall|cq: Vec<usize>, v: (usize, usize)|
                    coords_in(ints(cq@), ints(pdims@)) && #[trigger] call_ensures(
                    cell,
                    (&cq,),
                    v,
                ) implies v == fs(ints(cq@)) by {
                    let z = Seq::new((dd.len() - p) as nat, |z: int| 0int);
                    let cz = ints(cq@) + z;
                    assert(0 <= phys(off as int, cz, ss)) by {
                        self.lemma_strides_nonneg();
                        assert forall|j: int| 0 <= j < cz.len() implies #[trigger] cz[j] >= 0 by {
                            if j < p {
                                crate::dims::lemma_ints_nonneg(cq@);
                            }
                        }
                        crate::dims::lemma_dot_nonneg(cz, ss);
                        (*self.0).layout.lemma_off_nonneg();
                    }
                }
            }
            let out = crate::kernel::build_grid(&pdims, &cell, Ghost(fs));
            proof {
                let P = p as int;
                crate::dims::lemma_grid_all_len(fs, pd);
                assert(out@.len() == prod(dd.take(P)));
                assert forall|k: int| 0 <= k < out@.len() implies (#[trigger] out@[k]).1 as int
                    == prod(dd.skip(P)) by {
                    crate::dims::lemma_grid_all_elem(fs, pd, k);
                    let cq = choose|cq: Seq<int>|
                        coords_in(cq, pd) && crate::dims::grid_all(fs, pd)[k] == #[trigger] fs(cq);
                    assert(out@[k] == fs(cq));
                }
                assert(ss.skip(P) =~= crate::dims::row_major(dd.skip(P))) by {
                    crate::dims::lemma_row_major_len(dd.skip(P));
                    lemma_block_split_suffix(dd, ss, rank as int);
                    assert forall|j: int|
                        0 <= j < ss.skip(P).len() implies #[trigger] ss.skip(P)[j]
                        == crate::dims::row_major(dd.skip(P))[j] by {
                        crate::dims::lemma_row_major_entry(dd.skip(P), j);
                        assert(dd.skip(P).skip(j + 1) =~= dd.skip(P + j + 1));
                        assert(ss.skip(P)[j] == ss[P + j]);
                        assert(ss[P + j] == prod(dd.skip(P + j + 1)));
                    }
                }
                assert forall|c: Seq<int>|
                    coords_in(c, dd) implies phys(self.off_sp(), c, ss) == (#[trigger] out@[
                flat_of(c.take(P), dd.take(P))]).0 + flat_of(c.skip(P), dd.skip(P)) by {
                    let cp = c.take(P);
                    assert(coords_in(cp, pd)) by {
                        assert forall|j: int| 0 <= j < cp.len() implies 0 <= #[trigger] cp[j]
                            < pd[j] by {
                            assert(cp[j] == c[j]);
                            assert(pd[j] == dd[j]);
                        }
                    }
                    crate::dims::lemma_grid_index(fs, pd, cp);
                    assert(out@[flat_of(cp, pd)] == fs(cp));
                    let z = Seq::new((dd.len() - p) as nat, |z: int| 0int);
                    let cz = cp + z;
                    assert(coords_in(cz, dd)) by {
                        assert forall|j: int| 0 <= j < cz.len() implies 0 <= #[trigger] cz[j]
                            < dd[j] by {
                            if j < P {
                                assert(cz[j] == c[j]);
                            } else {
                                assert(cz[j] == 0);
                                assert(dd[j] >= 1);
                            }
                        }
                    }
                    assert(0 <= phys(off as int, cz, ss) <= usize::MAX) by {
                        self.lemma_strides_nonneg();
                        assert forall|j: int| 0 <= j < cz.len() implies #[trigger] cz[j] >= 0 by {}
                        crate::dims::lemma_dot_nonneg(cz, ss);
                        (*self.0).layout.lemma_off_nonneg();
                        assert(phys(self.off_sp(), cz, self.strides_sp()) < self.st().len());
                        assert(off as int == self.off_sp());
                        assert(self.st().len() <= usize::MAX);
                    }
                    assert(fs(cp).0 as int == phys(off as int, cz, ss));
                    crate::dims::lemma_dot_split(cz, ss, P);
                    assert(cz.take(P) =~= cp);
                    assert(cz.skip(P) =~= z);
                    crate::dims::lemma_dot_zero(z, ss.skip(P));
                    crate::dims::lemma_dot_split(c, ss, P);
                    assert(c.take(P) == cp);
                    crate::dims::lemma_flat_dot(c.skip(P), dd.skip(P));
                    assert(crate::dims::dot(cp, ss.take(P)) == crate::dims::dot(
                        cz.take(P),
                        ss.take(P),
                    ));
                    assert(crate::dims::dot(c.skip(P), ss.skip(P)) == crate::dims::dot(
                        c.skip(P),
                        crate::dims::row_major(dd.skip(P)),
                    ));
                }
            }
            out
        }
    }
}

/// The split point of the run coalescing: the least axis index such that
/// every stride from there on equals the row-major stride of the trailing
/// shape, found by scanning from the right while they match.
pub open spec fn block_split(d: Seq<int>, s: Seq<int>, p: int) -> int
    decreases p,
{
    if p <= 0 {
        0
    } else if s[p - 1] == prod(d.skip(p)) {
        block_split(d, s, p - 1)
    } else {
        p
    }
}

/// Below the split point found by `block_split`, every stride matches the
/// row-major stride of the shape that follows it.
proof fn lemma_block_split_suffix(d: Seq<int>, s: Seq<int>, p: int)
    requires
        0 <= p <= d.len(),
        s.len() == d.len(),
    ensures
        0 <= block_split(d, s, p) <= p,
        forall|j: int| block_split(d, s, p) <= j < p ==> s[j] == prod(d.skip(j + 1)),
    decreases p,
{
    if p > 0 && s[p - 1] == prod(d.skip(p)) {
        lemma_block_split_suffix(d, s, p - 1);
    }
}

} // verus!

verus! {

/// Relies on rand's `Rng::gen_range` over the thread-local generator: a
/// value sampled from the nonempty half-open range `lo .. up`; the call
/// panics only on an empty range, which the precondition excludes.
#[verifier::external_body]
fn sample_range(lo: i64, up: i64) -> (r: i64)
    requires
        lo < up,
    ensures
        lo <= r < up,
{
    rand::Rng::gen_range(&mut rand::thread_rng(), lo..up)
}

} // verus!
