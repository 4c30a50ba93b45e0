//! Concatenation and the operations built from it: `cat` along any axis
//! (axis 0 is the primitive; other axes go through a transpose), `stack`,
//! zero padding, repetition and chunking.

use vstd::prelude::*;
use crate::dims::{coords_in, flat_of, ints, lemma_shape_ok_suffix, phys, prod, shape_ok};
use crate::dtype::{in_dtype, DType};
use crate::error::Error;
use crate::op::{BackpropOp, Op};
use crate::shape::clone_dims;
use crate::tensor::{from_storage, Tensor};

verus! {

/// The sum of the leading dimension sizes of the tensors from `i` on.
pub open spec fn cat_dim0(args: Seq<Tensor>, i: int) -> int
    decreases args.len() - i,
{
    if i < 0 || i >= args.len() {
        0
    } else {
        args[i].dims_sp()[0] + cat_dim0(args, i + 1)
    }
}

/// The row-major values of the tensors from `i` on, laid end to end.
pub open spec fn cat_vals(args: Seq<Tensor>, i: int) -> Seq<i64>
    decreases args.len() - i,
{
    if i < 0 || i >= args.len() {
        Seq::empty()
    } else {
        args[i].vals() + cat_vals(args, i + 1)
    }
}

/// Whether a tensor list can be concatenated along axis 0: nonempty, every
/// tensor well-formed of rank at least one, and all agreeing on dtype,
/// device and every dimension but the first.
pub open spec fn cat_ok(args: Seq<Tensor>) -> bool {
    &&& args.len() >= 1
    &&& args[0].dims_sp().len() >= 1
    &&& forall|i: int|
        0 <= i < args.len() ==> #[trigger] args[i].dims_sp().len() == args[0].dims_sp().len()
    &&& forall|i: int, j: int|
        0 <= i < args.len() && 1 <= j < args[0].dims_sp().len() ==> #[trigger] args[i].dims_sp()[j]
            == args[0].dims_sp()[j]
    &&& forall|i: int| 0 <= i < args.len() ==> #[trigger] args[i].dtype_sp() == args[0].dtype_sp()
    &&& forall|i: int|
        0 <= i < args.len() ==> #[trigger] args[i].device_sp() == args[0].device_sp()
}

/// The shape of an axis-0 concatenation.
pub open spec fn cat_shape(args: Seq<Tensor>) -> Seq<int> {
    args[0].dims_sp().update(0, cat_dim0(args, 0))
}

/// Partial leading sums never exceed the whole.
proof fn lemma_cat_dim0_parts(args: Seq<Tensor>, i: int)
    requires
        0 <= i <= args.len(),
        forall|k: int| 0 <= k < args.len() ==> #[trigger] args[k].dims_sp().len() >= 1,
        forall|k: int| 0 <= k < args.len() ==> #[trigger] args[k].dims_sp()[0] >= 0,
    ensures
        cat_dim0(args, i) >= 0,
        cat_dim0(args, 0) - cat_dim0(args, i) >= 0,
    decreases args.len() - i,
{
    if i < args.len() {
        lemma_cat_dim0_parts(args, i + 1);
        lemma_cat_dim0_prefix(args, 0, i);
    } else {
        lemma_cat_dim0_prefix(args, 0, i);
    }
}

/// Splitting a leading-sum at any point.
proof fn lemma_cat_dim0_prefix(args: Seq<Tensor>, i: int, mid: int)
    requires
        0 <= i <= mid <= args.len(),
        forall|k: int| 0 <= k < args.len() ==> #[trigger] args[k].dims_sp().len() >= 1,
        forall|k: int| 0 <= k < args.len() ==> #[trigger] args[k].dims_sp()[0] >= 0,
    ensures
        cat_dim0(args, i) == cat_dim0(args, mid) + (cat_dim0(args, i) - cat_dim0(args, mid)),
        cat_dim0(args, i) - cat_dim0(args, mid) >= 0,
        cat_dim0(args, mid) >= 0,
    decreases args.len() - i, mid - i,
{
    if mid == i {
        if i < args.len() {
            lemma_cat_dim0_prefix(args, i + 1, args.len() as int);
        }
    } else {
        lemma_cat_dim0_prefix(args, i + 1, mid);
    }
}

impl Tensor {
    /// Concatenates the tensors along axis 0, copying each operand's
    /// logical contents in turn into a fresh buffer.
    pub(crate) fn cat0(args: &Vec<Tensor>) -> (r: Result<Tensor, Error>)
        requires
            forall|i: int| 0 <= i < args@.len() ==> #[trigger] args@[i].wf(),
            cat_ok(args@) ==> shape_ok(cat_shape(args@)),
        ensures
            match r {
                Ok(t) => {
                    &&& cat_ok(args@)
                    &&& t.wf()
                    &&& t.dims_sp() == cat_shape(args@)
                    &&& t.vals() == cat_vals(args@, 0)
                    &&& t.dtype_sp() == args@[0].dtype_sp()
                    &&& t.device_sp() == args@[0].device_sp()
                },
                Err(e) => {
                    &&& !cat_ok(args@)
                    &&& ((e matches Error::OpRequiresAtLeastOneTensor { .. }) || (e
                        matches Error::UnexpectedNumberOfDims { .. }) || (e
                        matches Error::DTypeMismatchBinaryOp { .. }) || (e
                        matches Error::DeviceMismatchBinaryOp { .. }) || (e
                        matches Error::ShapeMismatchCat { .. }))
                    &&& (args@.len() == 0 ==> e matches Error::OpRequiresAtLeastOneTensor { .. })
                    &&& ((e matches Error::DTypeMismatchBinaryOp { .. }) ==> exists|i: int|
                        0 <= i < args@.len() && #[trigger] args@[i].dtype_sp()
                            != args@[0].dtype_sp())
                    &&& ((e matches Error::DeviceMismatchBinaryOp { .. }) ==> exists|i: int|
                        0 <= i < args@.len() && #[trigger] args@[i].device_sp()
                            != args@[0].device_sp())
                    &&& ((e matches Error::UnexpectedNumberOfDims { .. }) ==> args@.len() >= 1 && (
                    args@[0].dims_sp().len() == 0 || exists|i: int|
                        0 <= i < args@.len() && #[trigger] args@[i].dims_sp().len()
                            != args@[0].dims_sp().len()))
                    &&& ((e matches Error::ShapeMismatchCat { .. }) ==> exists|i: int, j: int|
                        0 <= i < args@.len() && args@[i].dims_sp().len()
                            == args@[0].dims_sp().len() && 1 <= j < args@[0].dims_sp().len()
                            && #[trigger] args@[i].dims_sp()[j] != args@[0].dims_sp()[j])
                },
            },
    {
        if args.len() == 0 {
            return Err(Error::OpRequiresAtLeastOneTensor { op: "cat" });
        }
        let first = &args[0];
        let rank = first.rank();
        if rank == 0 {
            return Err(
                Error::UnexpectedNumberOfDims {
                    expected: 1,
                    got: 0,
                    shape: first.shape().clone(),
                },
            );
        }
        let n = args.len();
        let fdims = first.dims();
        let dt = first.dtype();
        // validate every operand and add up the leading dimension
        let mut i: usize = 1;
        while i < n
            invariant
                1 <= i <= n,
                n == args@.len(),
                forall|k: int| 0 <= k < args@.len() ==> #[trigger] args@[k].wf(),
                rank == args@[0].dims_sp().len(),
                rank >= 1,
                ints(fdims@) == args@[0].dims_sp(),
                dt == args@[0].dtype_sp(),
                forall|k: int| 0 <= k < i ==> #[trigger] args@[k].dims_sp().len() == rank,
                forall|k: int, j: int|
                    0 <= k < i && 1 <= j < rank ==> #[trigger] args@[k].dims_sp()[j]
                        == args@[0].dims_sp()[j],
                forall|k: int| 0 <= k < i ==> #[trigger] args@[k].dtype_sp()
                    == args@[0].dtype_sp(),
                forall|k: int| 0 <= k < i ==> #[trigger] args@[k].device_sp()
                    == args@[0].device_sp(),
            decreases n - i,
        {
            let a = &args[i];
            if !crate::elementwise::dtype_same(a.dtype(), dt) {
                proof {
                    assert(args@[i as int].dtype_sp() != args@[0].dtype_sp());
                    assert(!cat_ok(args@));
                }
                return Err(
                    Error::DTypeMismatchBinaryOp { lhs: dt, rhs: a.dtype(), op: "cat" },
                );
            }
            if !a.device().same_device(first.device()) {
                proof {
                    assert(args@[i as int].device_sp() != args@[0].device_sp());
                    assert(!cat_ok(args@));
                }
                return Err(
                    Error::DeviceMismatchBinaryOp {
                        lhs: *first.device(),
                        rhs: *a.device(),
                        op: "cat",
                    },
                );
            }
            if a.rank() != rank {
                proof {
                    assert(args@[i as int].dims_sp().len() != args@[0].dims_sp().len());
                    assert(!cat_ok(args@));
                }
                return Err(
                    Error::UnexpectedNumberOfDims {
                        expected: rank,
                        got: a.rank(),
                        shape: a.shape().clone(),
                    },
                );
            }
            let adims = a.dims();
            let mut j: usize = 1;
            while j < rank
                invariant
                    1 <= j <= rank,
                    n == args@.len(),
                    i < n,
                    rank == args@[0].dims_sp().len(),
                    rank == args@[i as int].dims_sp().len(),
                    ints(adims@) == args@[i as int].dims_sp(),
                    ints(fdims@) == args@[0].dims_sp(),
                    forall|x: int|
                        1 <= x < j ==> #[trigger] args@[i as int].dims_sp()[x]
                            == args@[0].dims_sp()[x],
                decreases rank - j,
            {
                if adims[j] != fdims[j] {
                    proof {
                        assert(args@[i as int].dims_sp()[j as int] == ints(adims@)[j as int]);
                        assert(args@[0].dims_sp()[j as int] == ints(fdims@)[j as int]);
                        assert(!cat_ok(args@));
                    }
                    return Err(
                        Error::ShapeMismatchCat {
                            dim: j,
                            first_shape: first.shape().clone(),
                            n: i + 1,
                            nth_shape: a.shape().clone(),
                        },
                    );
                }
                j = j + 1;
            }
            i = i + 1;
        }
        proof {
            assert(cat_ok(args@));
            assert forall|k: int| 0 <= k < args@.len() implies #[trigger] args@[k].dims_sp()[0]
                >= 0 by {
                args@[k].lemma_dims_nonneg();
            }
            assert forall|k: int|
                0 <= k < args@.len() implies #[trigger] args@[k].dims_sp().len() >= 1 by {}
        }
        // the concatenated leading dimension; it fits because the result
        // shape is addressable
        let ghost total = cat_dim0(args@, 0);
        proof {
            args@[0].lemma_dims_nonneg();
            crate::dims::lemma_pos_prod_pos(cat_shape(args@).skip(1));
            assert(cat_shape(args@)[0] == total);
            lemma_cat_dim0_parts(args@, 0);
            assert(crate::dims::pos_prod(cat_shape(args@)) == crate::dims::pos1(total)
                * crate::dims::pos_prod(cat_shape(args@).skip(1))) by {
                assert(crate::dims::pos_prod(cat_shape(args@)) == crate::dims::pos1(
                    cat_shape(args@)[0],
                ) * crate::dims::pos_prod(cat_shape(args@).skip(1)));
            }
            assert(crate::dims::pos1(total) <= crate::dims::pos_prod(cat_shape(args@)))
                by (nonlinear_arith)
                requires
                    crate::dims::pos_prod(cat_shape(args@)) == crate::dims::pos1(total)
                        * crate::dims::pos_prod(cat_shape(args@).skip(1)),
                    crate::dims::pos_prod(cat_shape(args@).skip(1)) >= 1,
                    crate::dims::pos1(total) >= 1,
            ;
            assert(total <= usize::MAX);
        }
        let mut sum0: usize = 0;
        let mut out: Vec<i64> = Vec::new();
        let mut i2: usize = 0;
        while i2 < n
            invariant
                0 <= i2 <= n,
                n == args@.len(),
                forall|k: int| 0 <= k < args@.len() ==> #[trigger] args@[k].wf(),
                cat_ok(args@),
                total == cat_dim0(args@, 0),
                total <= usize::MAX,
                forall|k: int| 0 <= k < args@.len() ==> #[trigger] args@[k].dims_sp()[0] >= 0,
                forall|k: int| 0 <= k < args@.len() ==> #[trigger] args@[k].dims_sp().len() >= 1,
                sum0 == total - cat_dim0(args@, i2 as int),
                out@ == cat_vals(args@, 0).take(out@.len() as int),
                cat_vals(args@, 0).len() == out@.len() + cat_vals(args@, i2 as int).len(),
            decreases n - i2,
        {
            let a = &args[i2];
            let va = a.materialize_self();
            let ghost before = out@;
            let mut va2 = va;
            out.append(&mut va2);
            proof {
                lemma_cat_dim0_prefix(args@, i2 + 1, args@.len() as int);
                lemma_cat_dim0_parts(args@, i2 as int);
                assert(cat_dim0(args@, i2 as int) == args@[i2 as int].dims_sp()[0] + cat_dim0(
                    args@,
                    i2 + 1,
                ));
                assert(cat_vals(args@, i2 as int) == args@[i2 as int].vals() + cat_vals(
                    args@,
                    i2 + 1,
                ));
                assert(out@ =~= cat_vals(args@, 0).take(out@.len() as int)) by {
                    assert(out@ == before + args@[i2 as int].vals());
                    assert(cat_vals(args@, 0).len() == before.len() + cat_vals(
                        args@,
                        i2 as int,
                    ).len());
                    assert forall|x: int| 0 <= x < out@.len() implies out@[x] == cat_vals(
                        args@,
                        0,
                    )[x] by {
                        if x < before.len() {
                            assert(before[x] == cat_vals(args@, 0).take(before.len() as int)[x]);
                        } else {
                            assert(out@[x] == args@[i2 as int].vals()[x - before.len()]);
                            lemma_cat_vals_index(args@, i2 as int, x - before.len());
                        }
                    }
                }
            }
            sum0 = sum0 + a.dim0_size();
            i2 = i2 + 1;
        }
        proof {
            assert(cat_vals(args@, n as int).len() == 0);
            assert(out@ =~= cat_vals(args@, 0));
            assert(sum0 == total);
            lemma_cat_vals_len(args@, 0);
            assert(cat_shape(args@)[0] == total);
            assert(cat_shape(args@).skip(1) =~= args@[0].dims_sp().skip(1));
            assert(prod(cat_shape(args@)) == total * prod(args@[0].dims_sp().skip(1)));
            assert(prod(cat_shape(args@)) == cat_vals(args@, 0).len());
        }
        let mut newdims = clone_dims(args[0].dims());
        newdims[0] = sum0;
        proof {
            assert(ints(newdims@) =~= cat_shape(args@));
            assert forall|x: int| 0 <= x < out@.len() implies in_dtype(
                dt,
                #[trigger] out@[x] as int,
            ) by {
                lemma_cat_vals_dtype(args@, 0, x);
            }
        }
        let opedge = BackpropOp(Some(Op::Cat(clone_tensors(args), 0)));
        let t = from_storage(
            out,
            crate::shape::Shape::new(newdims),
            opedge,
            false,
            dt,
            *args[0].device(),
            crate::tensor::TensorId::root(),
        );
        Ok(t)
    }

    /// The size of the leading dimension.
    fn dim0_size(&self) -> (r: usize)
        requires
            self.dims_sp().len() >= 1,
        ensures
            r == self.dims_sp()[0],
    {
        let dims = self.dims();
        dims[0]
    }
}

/// Clones a tensor list; each handle shares its tensor's storage.
fn clone_tensors(args: &Vec<Tensor>) -> (r: Vec<Tensor>)
    ensures
        r@ == args@,
{
    let mut r: Vec<Tensor> = Vec::new();
    let n = args.len();
    let mut i: usize = 0;
    while i < n
        invariant
            0 <= i <= n,
            n == args@.len(),
            r@ == args@.take(i as int),
        decreases n - i,
    {
        r.push(args[i].clone());
        proof {
            assert(r@ =~= args@.take(i + 1));
        }
        i = i + 1;
    }
    proof {
        assert(args@.take(n as int) =~= args@);
    }
    r
}

/// The combined length of laid-end-to-end values is the concatenated
/// element count times nothing more: it equals the product of the shared
/// trailing shape with the summed leading dimension.
proof fn lemma_cat_vals_len(args: Seq<Tensor>, i: int)
    requires
        cat_ok(args),
        0 <= i <= args.len(),
    ensures
        cat_vals(args, i).len() == cat_dim0(args, i) * prod(args[0].dims_sp().skip(1)),
    decreases args.len() - i,
{
    let p = prod(args[0].dims_sp().skip(1));
    if i == args.len() {
        assert(0 * p == 0) by (nonlinear_arith);
    } else {
        lemma_cat_vals_len(args, i + 1);
        args[i].lemma_vals_len();
        assert(args[i].dims_sp().skip(1) =~= args[0].dims_sp().skip(1)) by {
            assert forall|j: int|
                0 <= j < args[i].dims_sp().len() - 1 implies args[i].dims_sp().skip(1)[j]
                == args[0].dims_sp().skip(1)[j] by {
                assert(args[i].dims_sp()[j + 1] == args[0].dims_sp()[j + 1]);
            }
        }
        assert(prod(args[i].dims_sp()) == args[i].dims_sp()[0] * p);
        assert(args[i].dims_sp()[0] * p + cat_dim0(args, i + 1) * p == (args[i].dims_sp()[0]
            + cat_dim0(args, i + 1)) * p) by (nonlinear_arith);
    }
}

/// Indexing into the tensor at position `i` of the laid-end-to-end values.
proof fn lemma_cat_vals_index(args: Seq<Tensor>, i: int, x: int)
    requires
        0 <= i < args.len(),
        0 <= x < args[i].vals().len(),
    ensures
        cat_vals(args, 0).len() >= cat_vals(args, i).len(),
        cat_vals(args, i)[x] == args[i].vals()[x],
        cat_vals(args, 0)[cat_vals(args, 0).len() - cat_vals(args, i).len() + x]
            == args[i].vals()[x],
    decreases i,
{
    if i == 0 {
    } else {
        lemma_cat_prefix_len(args, 0, i);
        lemma_cat_index_from(args, 0, i, x);
    }
}

/// Tail lists are suffixes of the whole list's values.
proof fn lemma_cat_prefix_len(args: Seq<Tensor>, i: int, mid: int)
    requires
        0 <= i <= mid <= args.len(),
    ensures
        cat_vals(args, i).len() >= cat_vals(args, mid).len(),
    decreases mid - i,
{
    if i < mid {
        lemma_cat_prefix_len(args, i + 1, mid);
    }
}

/// Reading a position of the values of the tensor at `mid` from anywhere
/// earlier in the list.
proof fn lemma_cat_index_from(args: Seq<Tensor>, i: int, mid: int, x: int)
    requires
        0 <= i <= mid < args.len(),
        0 <= x < args[mid].vals().len(),
    ensures
        cat_vals(args, i).len() >= cat_vals(args, mid).len(),
        cat_vals(args, i)[cat_vals(args, i).len() - cat_vals(args, mid).len() + x]
            == args[mid].vals()[x],
    decreases mid - i,
{
    lemma_cat_prefix_len(args, i, mid);
    if i == mid {
    } else {
        lemma_cat_index_from(args, i + 1, mid, x);
    }
}

/// Every laid-end-to-end value lies in the shared dtype's range.
proof fn lemma_cat_vals_dtype(args: Seq<Tensor>, i: int, x: int)
    requires
        cat_ok(args),
        forall|k: int| 0 <= k < args.len() ==> #[trigger] args[k].wf(),
        0 <= i <= args.len(),
        0 <= x < cat_vals(args, i).len(),
    ensures
        in_dtype(args[0].dtype_sp(), cat_vals(args, i)[x] as int),
    decreases args.len() - i,
{
    if i < args.len() {
        if x < args[i].vals().len() {
            args[i].lemma_vals_in_dtype();
        } else {
            lemma_cat_vals_dtype(args, i + 1, x - args[i].vals().len());
        }
    }
}

} // verus!

verus! {

/// The number of leading-axis positions contributed by the tensors before
/// `i`: where tensor `i`'s block begins in the concatenated axis.
pub open spec fn cat_off(args: Seq<Tensor>, i: int) -> int {
    cat_dim0(args, 0) - cat_dim0(args, i)
}

/// Reading an axis-0 concatenation inside the block of operand `i` reads
/// that operand.
pub proof fn lemma_cat0_at(t: Tensor, args: Seq<Tensor>, i: int, c: Seq<int>)
    requires
        cat_ok(args),
        forall|k: int| 0 <= k < args.len() ==> #[trigger] args[k].wf(),
        t.wf(),
        t.dims_sp() == cat_shape(args),
        t.vals() == cat_vals(args, 0),
        0 <= i < args.len(),
        coords_in(c, args[i].dims_sp()),
    ensures
        coords_in(c.update(0, c[0] + cat_off(args, i)), t.dims_sp()),
        t.at(c.update(0, c[0] + cat_off(args, i))) == args[i].at(c),
{
    let off = cat_off(args, i);
    let p = prod(args[0].dims_sp().skip(1));
    let c2 = c.update(0, c[0] + off);
    {
        assert forall|k: int| 0 <= k < args.len() implies #[trigger] args[k].dims_sp().len()
            >= 1 by {}
        assert forall|k: int| 0 <= k < args.len() implies #[trigger] args[k].dims_sp()[0]
            >= 0 by {
            args[k].lemma_dims_nonneg();
        }
        lemma_cat_dim0_prefix(args, i, args.len() as int);
        lemma_cat_dim0_parts(args, i);
        lemma_cat_dim0_split(args, i);
        assert(coords_in(c2, t.dims_sp())) by {
            assert forall|x: int| 0 <= x < c2.len() implies 0 <= #[trigger] c2[x]
                < t.dims_sp()[x] by {
                if x == 0 {
                    assert(cat_dim0(args, i) >= args[i].dims_sp()[0]) by {
                        lemma_cat_dim0_parts(args, i + 1);
                        assert(cat_dim0(args, i) == args[i].dims_sp()[0] + cat_dim0(args, i + 1));
                    }
                    assert(t.dims_sp()[0] == cat_dim0(args, 0));
                } else {
                    assert(c2[x] == c[x]);
                    assert(t.dims_sp()[x] == args[0].dims_sp()[x]);
                    assert(args[i].dims_sp()[x] == args[0].dims_sp()[x]);
                }
            }
        }
        assert(args[i].wf());
        t.lemma_at_vals(c2);
        args[i].lemma_at_vals(c);
        lemma_cat_vals_len(args, 0);
        lemma_cat_vals_len(args, i);
        lemma_cat_index_from_pub(args, i, flat_of(c, args[i].dims_sp()));
        // positions: the blocks before `i` fill `off * p` values
        assert(cat_vals(args, 0).len() - cat_vals(args, i).len() == off * p) by (nonlinear_arith)
            requires
                cat_vals(args, 0).len() == cat_dim0(args, 0) * p,
                cat_vals(args, i).len() == cat_dim0(args, i) * p,
                off == cat_dim0(args, 0) - cat_dim0(args, i),
        ;
        assert(flat_of(c2, t.dims_sp()) == off * p + flat_of(c, args[i].dims_sp())) by {
            assert(c2[0] == c[0] + off);
            assert(c2.skip(1) =~= c.skip(1));
            assert(t.dims_sp().skip(1) =~= args[i].dims_sp().skip(1));
            assert(args[i].dims_sp().skip(1) =~= args[0].dims_sp().skip(1)) by {
                assert forall|x: int|
                    0 <= x < args[i].dims_sp().len() - 1 implies args[i].dims_sp().skip(1)[x]
                    == args[0].dims_sp().skip(1)[x] by {
                    assert(args[i].dims_sp()[x + 1] == args[0].dims_sp()[x + 1]);
                }
            }
            assert((c[0] + off) * p == c[0] * p + off * p) by (nonlinear_arith);
        }
    }
}

/// Splitting the total leading size at `i`.
proof fn lemma_cat_dim0_split(args: Seq<Tensor>, i: int)
    requires
        0 <= i < args.len(),
        forall|k: int| 0 <= k < args.len() ==> #[trigger] args[k].dims_sp().len() >= 1,
        forall|k: int| 0 <= k < args.len() ==> #[trigger] args[k].dims_sp()[0] >= 0,
    ensures
        cat_dim0(args, i) == args[i].dims_sp()[0] + cat_dim0(args, i + 1),
{
}

/// Public form of the block-index lemma.
proof fn lemma_cat_index_from_pub(args: Seq<Tensor>, i: int, x: int)
    requires
        0 <= i < args.len(),
        0 <= x < args[i].vals().len(),
    ensures
        cat_vals(args, 0).len() >= cat_vals(args, i).len(),
        cat_vals(args, 0)[cat_vals(args, 0).len() - cat_vals(args, i).len() + x]
            == args[i].vals()[x],
{
    lemma_cat_vals_index(args, i, x);
}

} // verus!

verus! {

/// The summed size of axis `dim` over the tensors from `i` on.
pub open spec fn catd_sum(args: Seq<Tensor>, dim: int, i: int) -> int
    decreases args.len() - i,
{
    if i < 0 || i >= args.len() {
        0
    } else {
        args[i].dims_sp()[dim] + catd_sum(args, dim, i + 1)
    }
}

/// Whether a tensor list concatenates along axis `dim`: nonempty, a common
/// rank with `dim` inside it, agreement on every other dimension, and one
/// dtype and device.
pub open spec fn catd_ok(args: Seq<Tensor>, dim: int) -> bool {
    &&& args.len() >= 1
    &&& 0 <= dim < args[0].dims_sp().len()
    &&& forall|i: int|
        0 <= i < args.len() ==> #[trigger] args[i].dims_sp().len() == args[0].dims_sp().len()
    &&& forall|i: int, j: int|
        0 <= i < args.len() && 0 <= j < args[0].dims_sp().len() && j != dim
            ==> #[trigger] args[i].dims_sp()[j] == args[0].dims_sp()[j]
    &&& forall|i: int| 0 <= i < args.len() ==> #[trigger] args[i].dtype_sp() == args[0].dtype_sp()
    &&& forall|i: int|
        0 <= i < args.len() ==> #[trigger] args[i].device_sp() == args[0].device_sp()
}

/// The shape of a concatenation along `dim`.
pub open spec fn catd_shape(args: Seq<Tensor>, dim: int) -> Seq<int> {
    args[0].dims_sp().update(dim, catd_sum(args, dim, 0))
}

/// Where operand `i`'s block begins along the concatenated axis.
pub open spec fn catd_off(args: Seq<Tensor>, dim: int, i: int) -> int {
    catd_sum(args, dim, 0) - catd_sum(args, dim, i)
}

/// Axis-0 sums of transposed operands are the axis-`dim` sums of the
/// originals.
proof fn lemma_catd_sum_swap(ts: Seq<Tensor>, args: Seq<Tensor>, dim: int, i: int)
    requires
        ts.len() == args.len(),
        0 <= i <= args.len(),
        forall|k: int| 0 <= k < args.len() ==> #[trigger] ts[k].dims_sp().len() >= 1,
        forall|k: int| 0 <= k < args.len() ==> #[trigger] ts[k].dims_sp()[0]
            == args[k].dims_sp()[dim],
    ensures
        cat_dim0(ts, i) == catd_sum(args, dim, i),
    decreases args.len() - i,
{
    if i < args.len() {
        lemma_catd_sum_swap(ts, args, dim, i + 1);
    }
}

impl Tensor {
    /// Concatenates the tensors along axis `dim`. All operands share their
    /// rank, dtype and device and agree on every dimension but `dim`; axis
    /// 0 is the primitive and other axes go through a transpose.
    pub fn cat(args: &Vec<Tensor>, dim: usize) -> (r: Result<Tensor, Error>)
        requires
            forall|i: int| 0 <= i < args@.len() ==> #[trigger] args@[i].wf(),
            catd_ok(args@, dim as int) ==> shape_ok(catd_shape(args@, dim as int)),
        ensures
            match r {
                Ok(t) => {
                    &&& catd_ok(args@, dim as int) || args@.len() == 1
                    &&& t.wf()
                    &&& args@.len() == 1 ==> t == args@[0]
                    &&& catd_ok(args@, dim as int) ==> {
                        &&& t.dims_sp() == catd_shape(args@, dim as int)
                        &&& t.dtype_sp() == args@[0].dtype_sp()
                        &&& t.device_sp() == args@[0].device_sp()
                        &&& forall|i: int, c: Seq<int>|
                            0 <= i < args@.len() && coords_in(c, #[trigger] args@[i].dims_sp())
                                ==> #[trigger] t.at(
                                c.update(
                                    dim as int,
                                    c[dim as int] + catd_off(args@, dim as int, i),
                                ),
                            ) == args@[i].at(c)
                    }
                },
                Err(e) => {
                    &&& !catd_ok(args@, dim as int)
                    &&& args@.len() != 1
                    &&& (args@.len() == 0 ==> e matches Error::OpRequiresAtLeastOneTensor { .. })
                    &&& ((e matches Error::DimOutOfRange { .. }) ==> exists|i: int|
                        0 <= i < args@.len() && dim >= #[trigger] args@[i].dims_sp().len())
                    &&& ((e matches Error::DTypeMismatchBinaryOp { .. }) ==> exists|i: int|
                        0 <= i < args@.len() && #[trigger] args@[i].dtype_sp()
                            != args@[0].dtype_sp())
                    &&& ((e matches Error::DeviceMismatchBinaryOp { .. }) ==> exists|i: int|
                        0 <= i < args@.len() && #[trigger] args@[i].device_sp()
                            != args@[0].device_sp())
                    &&& ((e matches Error::UnexpectedNumberOfDims { .. }) ==> exists|i: int|
                        0 <= i < args@.len() && #[trigger] args@[i].dims_sp().len()
                            != args@[0].dims_sp().len())
                    &&& ((e matches Error::ShapeMismatchCat { .. }) ==> exists|i: int, j: int|
                        0 <= i < args@.len() && args@[i].dims_sp().len()
                            == args@[0].dims_sp().len() && 0 <= j < args@[0].dims_sp().len() && j
                            != dim && #[trigger] args@[i].dims_sp()[j] != args@[0].dims_sp()[j])
                },
            },
    {
        let ghost dimi = dim as int;
        if args.len() == 0 {
            return Err(Error::OpRequiresAtLeastOneTensor { op: "cat" });
        }
        if args.len() == 1 {
            let t = args[0].clone();
            proof {
                if catd_ok(args@, dimi) {
                    assert(catd_sum(args@, dimi, 1) == 0);
                    assert(catd_sum(args@, dimi, 0) == args@[0].dims_sp()[dimi]);
                    assert(catd_shape(args@, dimi) =~= args@[0].dims_sp());
                    assert forall|i: int, c: Seq<int>|
                        0 <= i < args@.len() && coords_in(
                            c,
                            #[trigger] args@[i].dims_sp(),
                        ) implies #[trigger] t.at(
                        c.update(dimi, c[dimi] + catd_off(args@, dimi, i)),
                    ) == args@[i].at(c) by {
                        assert(i == 0);
                        assert(catd_off(args@, dimi, 0) == 0);
                        assert(c.update(dimi, c[dimi] + 0) =~= c);
                    }
                }
            }
            return Ok(t);
        }
        if dim >= args[0].rank() {
            proof {
                assert(dim >= args@[0].dims_sp().len());
            }
            return Err(
                Error::DimOutOfRange { shape: args[0].shape().clone(), dim, op: "cat" },
            );
        }
        if dim == 0 {
            proof {
                lemma_cat_eq_catd(args@, 0);
                if cat_ok(args@) {
                    assert(catd_ok(args@, 0));
                    assert(cat_shape(args@) =~= catd_shape(args@, 0));
                    assert(shape_ok(cat_shape(args@)));
                }
            }
            let r = Tensor::cat0(args);
            match r {
                Ok(t) => {
                    proof {
                        assert(catd_ok(args@, 0)) by {
                            assert(cat_ok(args@));
                        }
                        lemma_cat_eq_catd(args@, 0);
                        assert(t.dims_sp() =~= catd_shape(args@, 0));
                        assert forall|i: int, c: Seq<int>|
                            0 <= i < args@.len() && coords_in(
                                c,
                                #[trigger] args@[i].dims_sp(),
                            ) implies #[trigger] t.at(
                            c.update(0, c[0] + catd_off(args@, 0, i)),
                        ) == args@[i].at(c) by {
                            lemma_cat_eq_catd(args@, 0);
                            lemma_cat_eq_catd(args@, i);
                            assert(catd_off(args@, 0, i) == cat_off(args@, i));
                            lemma_cat0_at(t, args@, i, c);
                        }
                    }
                    Ok(t)
                },
                Err(e) => {
                    proof {
                        assert(!catd_ok(args@, 0)) by {
                            if catd_ok(args@, 0) {
                                assert(cat_ok(args@));
                            }
                        }
                        if e is UnexpectedNumberOfDims {
                            assert(args@[0].dims_sp().len() > 0);
                        }
                    }
                    Err(e)
                },
            }
        } else {
            let n = args.len();
            let mut ts: Vec<Tensor> = Vec::new();
            let mut i: usize = 0;
            while i < n
                invariant
                    0 <= i <= n,
                    n == args@.len(),
                    dimi == dim as int,
                    dim >= 1,
                    dim < args@[0].dims_sp().len(),
                    forall|k: int| 0 <= k < args@.len() ==> #[trigger] args@[k].wf(),
                    ts@.len() == i,
                    forall|k: int| 0 <= k < i ==> (#[trigger] ts@[k]).wf(),
                    forall|k: int|
                        0 <= k < i ==> (#[trigger] ts@[k]).dims_sp() == args@[k].dims_sp().update(
                            dimi,
                            args@[k].dims_sp()[0],
                        ).update(0, args@[k].dims_sp()[dimi]),
                    forall|k: int| 0 <= k < i ==> (#[trigger] ts@[k]).dtype_sp()
                        == args@[k].dtype_sp(),
                    forall|k: int| 0 <= k < i ==> (#[trigger] ts@[k]).device_sp()
                        == args@[k].device_sp(),
                    forall|k: int| 0 <= k < i ==> dim < (#[trigger] args@[k]).dims_sp().len(),
                    forall|k: int, q: Seq<int>|
                        0 <= k < i && coords_in(q, (#[trigger] ts@[k]).dims_sp())
                            ==> #[trigger] ts@[k].at(q) == args@[k].at(
                            q.update(0, q[dimi]).update(dimi, q[0]),
                        ),
                decreases n - i,
            {
                let r = args[i].transpose(0, dim);
                match r {
                    Ok(tt) => {
                        ts.push(tt);
                    },
                    Err(e) => {
                        proof {
                            assert(dim >= args@[i as int].dims_sp().len());
                            assert(!catd_ok(args@, dimi));
                        }
                        return Err(e);
                    },
                }
                i = i + 1;
            }
            proof {
                if catd_ok(args@, dimi) {
                    assert(cat_ok(ts@)) by {
                        assert forall|k: int|
                            0 <= k < ts@.len() implies #[trigger] ts@[k].dims_sp().len()
                            == ts@[0].dims_sp().len() by {}
                        assert forall|k: int, j: int|
                            0 <= k < ts@.len() && 1 <= j < ts@[0].dims_sp().len() implies #[trigger] ts@[k].dims_sp()[j]
                            == ts@[0].dims_sp()[j] by {
                            if j == dimi {
                                assert(ts@[k].dims_sp()[j] == args@[k].dims_sp()[0]);
                                assert(args@[k].dims_sp()[0] == args@[0].dims_sp()[0]);
                            } else {
                                assert(ts@[k].dims_sp()[j] == args@[k].dims_sp()[j]);
                                assert(args@[k].dims_sp()[j] == args@[0].dims_sp()[j]);
                            }
                        }
                    }
                    assert forall|k: int|
                        0 <= k < ts@.len() implies #[trigger] ts@[k].dims_sp()[0]
                        == args@[k].dims_sp()[dimi] by {}
                    lemma_catd_sum_swap(ts@, args@, dimi, 0);
                    assert(cat_shape(ts@) =~= catd_shape(args@, dimi).update(
                        dimi,
                        catd_shape(args@, dimi)[0],
                    ).update(0, catd_shape(args@, dimi)[dimi]));
                    crate::dims::lemma_pos_prod_perm(
                        catd_shape(args@, dimi),
                        Seq::new(
                            catd_shape(args@, dimi).len(),
                            |j: int|
                                if j == 0 {
                                    dimi
                                } else if j == dimi {
                                    0int
                                } else {
                                    j
                                },
                        ),
                    );
                    assert(crate::dims::composed(
                        catd_shape(args@, dimi),
                        Seq::new(
                            catd_shape(args@, dimi).len(),
                            |j: int|
                                if j == 0 {
                                    dimi
                                } else if j == dimi {
                                    0int
                                } else {
                                    j
                                },
                        ),
                    ) =~= cat_shape(ts@));
                    assert(shape_ok(cat_shape(ts@)));
                }
                if !catd_ok(args@, dimi) {
                    assert(!cat_ok(ts@)) by {
                        if cat_ok(ts@) {
                            assert(catd_ok(args@, dimi)) by {
                                assert forall|k: int|
                                    0 <= k < args@.len() implies #[trigger] args@[k].dims_sp().len()
                                    == args@[0].dims_sp().len() by {
                                    assert(ts@[k].dims_sp().len() == ts@[0].dims_sp().len());
                                }
                                assert forall|k: int, j: int|
                                    0 <= k < args@.len() && 0 <= j < args@[0].dims_sp().len() && j
                                        != dimi implies #[trigger] args@[k].dims_sp()[j]
                                    == args@[0].dims_sp()[j] by {
                                    if j == 0 {
                                        assert(ts@[k].dims_sp()[dimi] == args@[k].dims_sp()[0]);
                                        assert(ts@[k].dims_sp()[dimi] == ts@[0].dims_sp()[dimi]);
                                    } else {
                                        assert(ts@[k].dims_sp()[j] == args@[k].dims_sp()[j]);
                                        assert(ts@[k].dims_sp()[j] == ts@[0].dims_sp()[j]);
                                    }
                                }
                                assert forall|k: int|
                                    0 <= k < args@.len()
                                        implies #[trigger] args@[k].dtype_sp()
                                    == args@[0].dtype_sp() by {
                                    assert(ts@[k].dtype_sp() == args@[k].dtype_sp());
                                    assert(ts@[k].dtype_sp() == ts@[0].dtype_sp());
                                }
                                assert forall|k: int|
                                    0 <= k < args@.len()
                                        implies #[trigger] args@[k].device_sp()
                                    == args@[0].device_sp() by {
                                    assert(ts@[k].device_sp() == args@[k].device_sp());
                                    assert(ts@[k].device_sp() == ts@[0].device_sp());
                                }
                            }
                        }
                    }
                }
            }
            let kk = match Tensor::cat0(&ts) {
                Ok(kk) => kk,
                Err(e) => {
                    proof {
                        // map the failure back from the transposed operands
                        if e is DTypeMismatchBinaryOp {
                            let i0 = choose|i: int|
                                0 <= i < ts@.len() && #[trigger] ts@[i].dtype_sp()
                                    != ts@[0].dtype_sp();
                            assert(args@[i0].dtype_sp() != args@[0].dtype_sp());
                        }
                        if e is DeviceMismatchBinaryOp {
                            let i0 = choose|i: int|
                                0 <= i < ts@.len() && #[trigger] ts@[i].device_sp()
                                    != ts@[0].device_sp();
                            assert(args@[i0].device_sp() != args@[0].device_sp());
                        }
                        if e is UnexpectedNumberOfDims {
                            assert(ts@[0].dims_sp().len() == args@[0].dims_sp().len());
                            assert(ts@[0].dims_sp().len() > 0);
                            let i0 = choose|i: int|
                                0 <= i < ts@.len() && #[trigger] ts@[i].dims_sp().len()
                                    != ts@[0].dims_sp().len();
                            assert(args@[i0].dims_sp().len() != args@[0].dims_sp().len());
                        }
                        if e is ShapeMismatchCat {
                            let (i0, j0) = choose|i: int, j: int|
                                0 <= i < ts@.len() && ts@[i].dims_sp().len()
                                    == ts@[0].dims_sp().len() && 1 <= j < ts@[0].dims_sp().len()
                                    && #[trigger] ts@[i].dims_sp()[j] != ts@[0].dims_sp()[j];
                            assert(args@[i0].dims_sp().len() == args@[0].dims_sp().len());
                            if j0 == dimi {
                                assert(ts@[i0].dims_sp()[j0] == args@[i0].dims_sp()[0]);
                                assert(ts@[0].dims_sp()[j0] == args@[0].dims_sp()[0]);
                                assert(args@[i0].dims_sp()[0] != args@[0].dims_sp()[0]);
                            } else {
                                assert(ts@[i0].dims_sp()[j0] == args@[i0].dims_sp()[j0]);
                                assert(ts@[0].dims_sp()[j0] == args@[0].dims_sp()[j0]);
                                assert(args@[i0].dims_sp()[j0] != args@[0].dims_sp()[j0]);
                            }
                        }
                    }
                    return Err(e);
                },
            };
            let t = match kk.transpose(0, dim) {
                Ok(t) => t,
                Err(e) => {
                    proof {
                        assert(false);
                    }
                    return Err(e);
                },
            };
            proof {
                lemma_catd_sum_swap(ts@, args@, dimi, 0);
                assert(t.dims_sp() =~= catd_shape(args@, dimi));
                assert forall|i2: int, c: Seq<int>|
                    0 <= i2 < args@.len() && coords_in(
                        c,
                        #[trigger] args@[i2].dims_sp(),
                    ) implies #[trigger] t.at(
                    c.update(dimi, c[dimi] + catd_off(args@, dimi, i2)),
                ) == args@[i2].at(c) by {
                    let off = catd_off(args@, dimi, i2);
                    let cq = c.update(dimi, c[dimi] + off);
                    let sq = c.update(dimi, c[0]).update(0, c[dimi]);
                    assert(sq =~= c.update(0, c[dimi]).update(dimi, c[0]));
                    assert(coords_in(sq, ts@[i2].dims_sp())) by {
                        assert forall|x: int| 0 <= x < sq.len() implies 0 <= #[trigger] sq[x]
                            < ts@[i2].dims_sp()[x] by {
                            if x == 0 {
                                assert(sq[0] == c[dimi]);
                            } else if x == dimi {
                                assert(sq[x] == c[0]);
                            } else {
                                assert(sq[x] == c[x]);
                            }
                        }
                    }
                    lemma_cat0_at(kk, ts@, i2, sq);
                    lemma_catd_sum_swap(ts@, args@, dimi, i2);
                    assert(ts@[i2].at(sq) == args@[i2].at(
                        sq.update(0, sq[dimi]).update(dimi, sq[0]),
                    ));
                    assert(sq.update(0, sq[dimi]).update(dimi, sq[0]) =~= c);
                    // the transposed result reads the concatenation with the
                    // two axes exchanged
                    assert(coords_in(cq, t.dims_sp())) by {
                        assert forall|x: int| 0 <= x < cq.len() implies 0 <= #[trigger] cq[x]
                            < t.dims_sp()[x] by {
                            if x == dimi {
                                lemma_catd_parts(args@, dimi, i2);
                            } else {
                                assert(cq[x] == c[x]);
                                assert(t.dims_sp()[x] == args@[0].dims_sp()[x]);
                                assert(args@[i2].dims_sp()[x] == args@[0].dims_sp()[x]);
                            }
                        }
                    }
                    assert(t.at(cq) == kk.at(
                        cq.update(0, cq[dimi]).update(dimi, cq[0]),
                    ));
                    assert(cq.update(0, cq[dimi]).update(dimi, cq[0]) =~= sq.update(
                        0,
                        sq[0] + cat_off(ts@, i2),
                    ));
                }
            }
            Ok(t)
        }
    }
}

/// The axis-`dim` sums: parts are bounded by the whole.
proof fn lemma_catd_parts(args: Seq<Tensor>, dim: int, i: int)
    requires
        0 <= i < args.len(),
        catd_ok(args, dim),
        forall|k: int| 0 <= k < args.len() ==> #[trigger] args[k].wf(),
    ensures
        catd_off(args, dim, i) >= 0,
        catd_off(args, dim, i) + args[i].dims_sp()[dim] <= catd_sum(args, dim, 0),
    decreases args.len(),
{
    assert forall|k: int| 0 <= k < args.len() implies #[trigger] args[k].dims_sp()[dim] >= 0 by {
        args[k].lemma_dims_nonneg();
    }
    lemma_catd_nonneg(args, dim, i + 1);
    lemma_catd_le(args, dim, 0, i);
}

proof fn lemma_catd_nonneg(args: Seq<Tensor>, dim: int, i: int)
    requires
        0 <= i <= args.len(),
        forall|k: int| 0 <= k < args.len() ==> #[trigger] args[k].dims_sp()[dim] >= 0,
    ensures
        catd_sum(args, dim, i) >= 0,
    decreases args.len() - i,
{
    if i < args.len() {
        lemma_catd_nonneg(args, dim, i + 1);
    }
}

proof fn lemma_catd_le(args: Seq<Tensor>, dim: int, i: int, mid: int)
    requires
        0 <= i <= mid <= args.len(),
        forall|k: int| 0 <= k < args.len() ==> #[trigger] args[k].dims_sp()[dim] >= 0,
    ensures
        catd_sum(args, dim, i) >= catd_sum(args, dim, mid),
    decreases mid - i,
{
    if i < mid {
        lemma_catd_le(args, dim, i + 1, mid);
    }
}

/// For axis 0 the two sum forms agree.
proof fn lemma_cat_eq_catd(args: Seq<Tensor>, i: int)
    requires
        0 <= i <= args.len(),
    ensures
        cat_dim0(args, i) == catd_sum(args, 0, i),
    decreases args.len() - i,
{
    if i < args.len() {
        lemma_cat_eq_catd(args, i + 1);
    }
}

} // verus!

verus! {

/// Whether a tensor list stacks along a new axis at `dim`: nonempty, one
/// shape, one dtype and device, and `dim` at most the common rank.
pub open spec fn stack_ok(args: Seq<Tensor>, dim: int) -> bool {
    &&& args.len() >= 1
    &&& 0 <= dim <= args[0].dims_sp().len()
    &&& forall|i: int| 0 <= i < args.len() ==> #[trigger] args[i].dims_sp() == args[0].dims_sp()
    &&& forall|i: int| 0 <= i < args.len() ==> #[trigger] args[i].dtype_sp() == args[0].dtype_sp()
    &&& forall|i: int|
        0 <= i < args.len() ==> #[trigger] args[i].device_sp() == args[0].device_sp()
}

/// Summed sizes of a one-wide axis count the remaining operands.
proof fn lemma_catd_sum_ones(us: Seq<Tensor>, dim: int, i: int)
    requires
        0 <= i <= us.len(),
        forall|k: int| 0 <= k < us.len() ==> #[trigger] us[k].dims_sp()[dim] == 1,
    ensures
        catd_sum(us, dim, i) == us.len() - i,
    decreases us.len() - i,
{
    if i < us.len() {
        lemma_catd_sum_ones(us, dim, i + 1);
    }
}

impl Tensor {
    /// Stacks the tensors along a fresh axis inserted at `dim`: all
    /// operands share one shape, and slice `i` of the result along the new
    /// axis holds operand `i`.
    pub fn stack(args: &Vec<Tensor>, dim: usize) -> (r: Result<Tensor, Error>)
        requires
            forall|i: int| 0 <= i < args@.len() ==> #[trigger] args@[i].wf(),
            stack_ok(args@, dim as int) ==> shape_ok(
                args@[0].dims_sp().insert(dim as int, args@.len() as int),
            ),
        ensures
            match r {
                Ok(t) => {
                    &&& stack_ok(args@, dim as int)
                    &&& t.wf()
                    &&& t.dims_sp() == args@[0].dims_sp().insert(dim as int, args@.len() as int)
                    &&& t.dtype_sp() == args@[0].dtype_sp()
                    &&& t.device_sp() == args@[0].device_sp()
                    &&& forall|i: int, c: Seq<int>|
                        0 <= i < args@.len() && coords_in(c, args@[0].dims_sp())
                            ==> #[trigger] t.at(c.insert(dim as int, i)) == args@[i].at(c)
                },
                Err(_) => !stack_ok(args@, dim as int),
            },
    {
        let ghost dimi = dim as int;
        if args.len() == 0 {
            return Err(Error::OpRequiresAtLeastOneTensor { op: "stack" });
        }
        let n = args.len();
        let ghost d0 = args@[0].dims_sp();
        let mut us: Vec<Tensor> = Vec::new();
        let mut i: usize = 0;
        while i < n
            invariant
                0 <= i <= n,
                n == args@.len(),
                n >= 1,
                dimi == dim as int,
                d0 == args@[0].dims_sp(),
                forall|k: int| 0 <= k < args@.len() ==> #[trigger] args@[k].wf(),
                us@.len() == i,
                forall|k: int| 0 <= k < i ==> (#[trigger] us@[k]).wf(),
                forall|k: int| 0 <= k < i ==> dim <= (#[trigger] args@[k]).dims_sp().len(),
                forall|k: int|
                    0 <= k < i ==> (#[trigger] us@[k]).dims_sp() == args@[k].dims_sp().insert(
                        dimi,
                        1int,
                    ),
                forall|k: int| 0 <= k < i ==> (#[trigger] us@[k]).vals() == args@[k].vals(),
                forall|k: int| 0 <= k < i ==> (#[trigger] us@[k]).dtype_sp()
                    == args@[k].dtype_sp(),
                forall|k: int| 0 <= k < i ==> (#[trigger] us@[k]).device_sp()
                    == args@[k].device_sp(),
            decreases n - i,
        {
            let u = match args[i].unsqueeze(dim) {
                Ok(u) => u,
                Err(e) => {
                    proof {
                        assert(dim > args@[i as int].dims_sp().len());
                        assert(!stack_ok(args@, dimi));
                    }
                    return Err(e);
                },
            };
            us.push(u);
            i = i + 1;
        }
        proof {
            if stack_ok(args@, dimi) {
                assert(catd_ok(us@, dimi)) by {
                    assert forall|k: int|
                        0 <= k < us@.len() implies #[trigger] us@[k].dims_sp().len()
                        == us@[0].dims_sp().len() by {
                        assert(args@[k].dims_sp() == args@[0].dims_sp());
                    }
                    assert forall|k: int, j: int|
                        0 <= k < us@.len() && 0 <= j < us@[0].dims_sp().len() && j != dimi
                            implies #[trigger] us@[k].dims_sp()[j] == us@[0].dims_sp()[j] by {
                        assert(args@[k].dims_sp() == args@[0].dims_sp());
                        assert(us@[k].dims_sp() == args@[k].dims_sp().insert(dimi, 1int));
                        assert(us@[0].dims_sp() == args@[0].dims_sp().insert(dimi, 1int));
                    }
                }
                assert forall|k: int| 0 <= k < us@.len() implies #[trigger] us@[k].dims_sp()[dimi]
                    == 1 by {}
                lemma_catd_sum_ones(us@, dimi, 0);
                assert(catd_shape(us@, dimi) =~= args@[0].dims_sp().insert(
                    dimi,
                    args@.len() as int,
                ));
            }
            if !stack_ok(args@, dimi) {
                assert(!catd_ok(us@, dimi)) by {
                    if catd_ok(us@, dimi) {
                        assert(stack_ok(args@, dimi)) by {
                            assert forall|k: int|
                                0 <= k < args@.len() implies #[trigger] args@[k].dims_sp()
                                == args@[0].dims_sp() by {
                                assert(us@[k].dims_sp().len() == us@[0].dims_sp().len());
                                assert(us@[k].dims_sp() == args@[k].dims_sp().insert(dimi, 1int));
                                assert(us@[0].dims_sp() == args@[0].dims_sp().insert(dimi, 1int));
                                assert(args@[k].dims_sp() =~= args@[0].dims_sp()) by {
                                    assert forall|j: int|
                                        0 <= j < args@[k].dims_sp().len()
                                            implies args@[k].dims_sp()[j]
                                        == args@[0].dims_sp()[j] by {
                                        if j < dimi {
                                            assert(us@[k].dims_sp()[j] == args@[k].dims_sp()[j]);
                                            assert(us@[0].dims_sp()[j] == args@[0].dims_sp()[j]);
                                            assert(us@[k].dims_sp()[j] == us@[0].dims_sp()[j]);
                                        } else {
                                            assert(us@[k].dims_sp()[j + 1]
                                                == args@[k].dims_sp()[j]);
                                            assert(us@[0].dims_sp()[j + 1]
                                                == args@[0].dims_sp()[j]);
                                            assert(us@[k].dims_sp()[j + 1] == us@[0].dims_sp()[j
                                                + 1]);
                                        }
                                    }
                                }
                            }
                            assert forall|k: int|
                                0 <= k < args@.len() implies #[trigger] args@[k].dtype_sp()
                                == args@[0].dtype_sp() by {
                                assert(us@[k].dtype_sp() == us@[0].dtype_sp());
                            }
                            assert forall|k: int|
                                0 <= k < args@.len() implies #[trigger] args@[k].device_sp()
                                == args@[0].device_sp() by {
                                assert(us@[k].device_sp() == us@[0].device_sp());
                            }
                        }
                    }
                }
            }
        }
        let t = match Tensor::cat(&us, dim) {
            Ok(t) => t,
            Err(e) => {
                return Err(e);
            },
        };
        proof {
            lemma_catd_sum_ones(us@, dimi, 0);
            assert(t.dims_sp() =~= args@[0].dims_sp().insert(dimi, args@.len() as int));
            assert forall|i2: int, c: Seq<int>|
                0 <= i2 < args@.len() && coords_in(c, args@[0].dims_sp()) implies #[trigger] t.at(
                c.insert(dimi, i2),
            ) == args@[i2].at(c) by {
                let u = c.insert(dimi, 0int);
                assert(coords_in(u, us@[i2].dims_sp())) by {
                    assert(us@[i2].dims_sp() == args@[i2].dims_sp().insert(dimi, 1int));
                    assert(args@[i2].dims_sp() == args@[0].dims_sp());
                    assert forall|x: int| 0 <= x < u.len() implies 0 <= #[trigger] u[x]
                        < us@[i2].dims_sp()[x] by {
                        if x < dimi {
                            assert(u[x] == c[x]);
                            assert(us@[i2].dims_sp()[x] == args@[0].dims_sp()[x]);
                        } else if x == dimi {
                            assert(u[x] == 0);
                        } else {
                            assert(u[x] == c[x - 1]);
                            assert(us@[i2].dims_sp()[x] == args@[0].dims_sp()[x - 1]);
                        }
                    }
                }
                assert(t.at(u.update(dimi, u[dimi] + catd_off(us@, dimi, i2))) == us@[i2].at(u));
                lemma_catd_sum_ones(us@, dimi, i2);
                assert(catd_off(us@, dimi, i2) == i2);
                assert(u.update(dimi, 0 + i2) =~= c.insert(dimi, i2));
                // the unsqueezed operand reads the operand itself
                assert(us@[i2].at(u) == args@[i2].at(c)) by {
                    assert(us@[i2].wf());
                    assert(args@[i2].wf());
                    us@[i2].lemma_at_vals(u);
                    args@[i2].lemma_at_vals(c);
                    crate::dims::lemma_flat_insert_unit(c, args@[i2].dims_sp(), dimi);
                    assert(us@[i2].vals() == args@[i2].vals());
                }
            }
        }
        Ok(t)
    }
}

} // verus!

verus! {

impl Tensor {
    /// Pads the tensor with zeros along `dim`: `left` zero positions before
    /// the data and `right` after it. With no padding on either side the
    /// same handle is returned.
    pub fn pad_with_zeros(&self, dim: usize, left: usize, right: usize) -> (r: Result<
        Tensor,
        Error,
    >)
        requires
            self.wf(),
            dim < self.dims_sp().len() ==> shape_ok(
                self.dims_sp().update(
                    dim as int,
                    left + self.dims_sp()[dim as int] + right,
                ),
            ),
        ensures
            match r {
                Ok(t) => {
                    &&& dim < self.dims_sp().len() || (left == 0 && right == 0)
                    &&& t.wf()
                    &&& (left == 0 && right == 0 ==> t == *self)
                    &&& dim < self.dims_sp().len() ==> {
                        &&& t.dims_sp() == self.dims_sp().update(
                            dim as int,
                            left + self.dims_sp()[dim as int] + right,
                        )
                        &&& t.dtype_sp() == self.dtype_sp()
                        &&& t.device_sp() == self.device_sp()
                        &&& forall|c: Seq<int>|
                            coords_in(c, self.dims_sp()) ==> #[trigger] t.at(
                                c.update(dim as int, c[dim as int] + left),
                            ) == self.at(c)
                        &&& forall|c: Seq<int>|
                            coords_in(c, t.dims_sp()) && (c[dim as int] < left || c[dim as int]
                                >= left + self.dims_sp()[dim as int]) ==> #[trigger] t.at(c) == 0
                    }
                },
                Err(_) => dim >= self.dims_sp().len() && !(left == 0 && right == 0),
            },
    {
        let ghost dimi = dim as int;
        let ghost dd = self.dims_sp();
        if left == 0 && right == 0 {
            let t = self.clone();
            proof {
                if dim < dd.len() {
                    assert(t.dims_sp() =~= dd.update(dimi, left + dd[dimi] + right));
                    assert forall|c: Seq<int>| coords_in(c, dd) implies #[trigger] t.at(
                        c.update(dimi, c[dimi] + left),
                    ) == self.at(c) by {
                        assert(c.update(dimi, c[dimi] + 0) =~= c);
                    }
                    assert forall|c: Seq<int>|
                        coords_in(c, t.dims_sp()) && (c[dimi] < left || c[dimi] >= left
                            + dd[dimi]) implies #[trigger] t.at(c) == 0 by {
                        assert(0 <= c[dimi] < dd[dimi]);
                    }
                }
            }
            return Ok(t);
        }
        match self.check_dim(dim, "pad_with_zeros") {
            Ok(()) => {},
            Err(e) => {
                return Err(e);
            },
        }
        let dims = self.dims();
        let mut ldims = clone_dims(dims);
        ldims[dim] = left;
        let mut rdims = clone_dims(dims);
        rdims[dim] = right;
        proof {
            assert(ints(ldims@) =~= dd.update(dimi, left as int));
            assert(ints(rdims@) =~= dd.update(dimi, right as int));
            self.lemma_dims_nonneg();
            let padded = dd.update(dimi, left + dd[dimi] + right);
            assert forall|j: int|
                0 <= j < dd.len() implies crate::dims::pos1(#[trigger] ints(ldims@)[j])
                <= crate::dims::pos1(padded[j]) by {}
            crate::dims::lemma_pos_prod_le_pos1(ints(ldims@), padded);
            assert forall|j: int|
                0 <= j < dd.len() implies crate::dims::pos1(#[trigger] ints(rdims@)[j])
                <= crate::dims::pos1(padded[j]) by {}
            crate::dims::lemma_pos_prod_le_pos1(ints(rdims@), padded);
            assert(shape_ok(ints(ldims@)));
            assert(shape_ok(ints(rdims@)));
        }
        let zl = match Tensor::zeros(&ldims, self.dtype(), self.device()) {
            Ok(z) => z,
            Err(e) => {
                proof {
                    assert(false);
                }
                return Err(e);
            },
        };
        let zr = match Tensor::zeros(&rdims, self.dtype(), self.device()) {
            Ok(z) => z,
            Err(e) => {
                proof {
                    assert(false);
                }
                return Err(e);
            },
        };
        let mut parts: Vec<Tensor> = Vec::new();
        parts.push(zl);
        parts.push(self.clone());
        parts.push(zr);
        proof {
            assert(parts@.len() == 3);
            assert(parts@[0].dims_sp() == dd.update(dimi, left as int));
            assert(parts@[1].dims_sp() == dd);
            assert(parts@[2].dims_sp() == dd.update(dimi, right as int));
            assert(catd_ok(parts@, dimi)) by {
                assert forall|i: int, j: int|
                    0 <= i < 3 && 0 <= j < parts@[0].dims_sp().len() && j != dimi
                        implies #[trigger] parts@[i].dims_sp()[j]
                    == parts@[0].dims_sp()[j] by {}
                assert forall|i: int|
                    0 <= i < 3 implies #[trigger] parts@[i].dtype_sp()
                    == parts@[0].dtype_sp() by {}
                assert forall|i: int|
                    0 <= i < 3 implies #[trigger] parts@[i].device_sp()
                    == parts@[0].device_sp() by {}
            }
            assert(catd_sum(parts@, dimi, 3) == 0);
            assert(catd_sum(parts@, dimi, 2) == right);
            assert(catd_sum(parts@, dimi, 1) == dd[dimi] + right);
            assert(catd_sum(parts@, dimi, 0) == left + dd[dimi] + right);
            assert(catd_shape(parts@, dimi) =~= dd.update(dimi, left + dd[dimi] + right));
        }
        let t = match Tensor::cat(&parts, dim) {
            Ok(t) => t,
            Err(e) => {
                proof {
                    assert(false);
                }
                return Err(e);
            },
        };
        proof {
            assert(t.dims_sp() =~= dd.update(dimi, left + dd[dimi] + right));
            assert forall|c: Seq<int>| coords_in(c, dd) implies #[trigger] t.at(
                c.update(dimi, c[dimi] + left),
            ) == self.at(c) by {
                assert(catd_off(parts@, dimi, 1) == left as int);
                assert(t.at(c.update(dimi, c[dimi] + catd_off(parts@, dimi, 1))) == parts@[1].at(
                    c,
                ));
            }
            assert forall|c: Seq<int>|
                coords_in(c, t.dims_sp()) && (c[dimi] < left || c[dimi] >= left
                    + dd[dimi]) implies #[trigger] t.at(c) == 0 by {
                if c[dimi] < left {
                    let cl = c.update(dimi, c[dimi]);
                    assert(cl =~= c);
                    assert(coords_in(cl, parts@[0].dims_sp())) by {
                        assert forall|x: int| 0 <= x < cl.len() implies 0 <= #[trigger] cl[x]
                            < parts@[0].dims_sp()[x] by {
                            if x != dimi {
                                assert(cl[x] == c[x]);
                            }
                        }
                    }
                    assert(catd_off(parts@, dimi, 0) == 0);
                    assert(t.at(cl.update(dimi, cl[dimi] + catd_off(parts@, dimi, 0)))
                        == parts@[0].at(cl));
                    assert(cl.update(dimi, cl[dimi] + 0) =~= c);
                } else {
                    let cl = c.update(dimi, c[dimi] - (left + dd[dimi]));
                    assert(coords_in(cl, parts@[2].dims_sp())) by {
                        assert forall|x: int| 0 <= x < cl.len() implies 0 <= #[trigger] cl[x]
                            < parts@[2].dims_sp()[x] by {
                            if x != dimi {
                                assert(cl[x] == c[x]);
                            }
                        }
                    }
                    assert(catd_off(parts@, dimi, 2) == left + dd[dimi]);
                    assert(t.at(cl.update(dimi, cl[dimi] + catd_off(parts@, dimi, 2)))
                        == parts@[2].at(cl));
                    assert(cl.update(dimi, cl[dimi] + (left + dd[dimi])) =~= c);
                }
            }
        }
        Ok(t)
    }
}

} // verus!

verus! {

/// How many pieces a dimension of `size` splits into when `chunks` are
/// requested: fewer pieces come back when the dimension is too short.
pub open spec fn chunk_count(size: int, chunks: int) -> int {
    if size < chunks {
        size
    } else {
        chunks
    }
}

/// The width of piece `i`: the quotient, with the remainder spread one each
/// over the leading pieces.
pub open spec fn chunk_len(size: int, chunks: int, i: int) -> int {
    if size < chunks {
        1
    } else {
        size / chunks + if i < size % chunks {
            1int
        } else {
            0int
        }
    }
}

/// Where piece `i` begins.
pub open spec fn chunk_start(size: int, chunks: int, i: int) -> int {
    if size < chunks {
        i
    } else {
        i * (size / chunks) + if i <= size % chunks {
            i
        } else {
            size % chunks
        }
    }
}

impl Tensor {
    /// Splits the tensor into up to `chunks` pieces along `dim`; short
    /// dimensions yield fewer pieces, and any remainder widens the leading
    /// pieces by one.
    pub fn chunk(&self, chunks: usize, dim: usize) -> (r: Result<Vec<Tensor>, Error>)
        requires
            self.wf(),
            chunks >= 1,
        ensures
            match r {
                Ok(v) => {
                    &&& dim < self.dims_sp().len()
                    &&& v@.len() == chunk_count(self.dims_sp()[dim as int], chunks as int)
                    &&& forall|i: int|
                        0 <= i < v@.len() ==> (#[trigger] v@[i]).wf() && v@[i].dims_sp()
                            == self.dims_sp().update(
                            dim as int,
                            chunk_len(self.dims_sp()[dim as int], chunks as int, i),
                        ) && v@[i].dtype_sp() == self.dtype_sp()
                    &&& forall|i: int, c: Seq<int>|
                        0 <= i < v@.len() && coords_in(c, (#[trigger] v@[i]).dims_sp())
                            ==> #[trigger] v@[i].at(c) == self.at(
                            c.update(
                                dim as int,
                                c[dim as int] + chunk_start(
                                    self.dims_sp()[dim as int],
                                    chunks as int,
                                    i,
                                ),
                            ),
                        )
                },
                Err(e) => {
                    &&& dim >= self.dims_sp().len()
                    &&& e matches Error::DimOutOfRange { .. }
                },
            },
    {
        let ghost dimi = dim as int;
        let ghost dd = self.dims_sp();
        match self.check_dim(dim, "chunk") {
            Ok(()) => {},
            Err(e) => {
                return Err(e);
            },
        }
        let dims = self.dims();
        let size = dims[dim];
        let mut out: Vec<Tensor> = Vec::new();
        if size < chunks {
            let mut i: usize = 0;
            while i < size
                invariant
                    0 <= i <= size,
                    self.wf(),
                    dd == self.dims_sp(),
                    dim < dd.len(),
                    size == dd[dimi],
                    size < chunks,
                    dimi == dim as int,
                    out@.len() == i,
                    forall|k: int|
                        0 <= k < i ==> (#[trigger] out@[k]).wf() && out@[k].dims_sp()
                            == dd.update(dimi, 1int) && out@[k].dtype_sp() == self.dtype_sp(),
                    forall|k: int, c: Seq<int>|
                        0 <= k < i && coords_in(c, (#[trigger] out@[k]).dims_sp())
                            ==> #[trigger] out@[k].at(c) == self.at(
                            c.update(dimi, c[dimi] + k),
                        ),
                decreases size - i,
            {
                let piece = match self.narrow(dim, i, 1) {
                    Ok(p) => p,
                    Err(e) => {
                        proof {
                            assert(false);
                        }
                        return Err(e);
                    },
                };
                out.push(piece);
                i = i + 1;
            }
            proof {
                assert(chunk_count(dd[dimi], chunks as int) == size);
                assert forall|i2: int|
                    0 <= i2 < out@.len() implies (#[trigger] out@[i2]).dims_sp() == dd.update(
                    dimi,
                    chunk_len(dd[dimi], chunks as int, i2),
                ) by {}
            }
            Ok(out)
        } else {
            let cs = size / chunks;
            let rem = size % chunks;
            proof {
                assert(cs == dd[dimi] / (chunks as int) && rem == dd[dimi] % (chunks as int)) by {
                    assert(size as int >= 0 && chunks as int >= 1);
                }
                vstd::arithmetic::div_mod::lemma_fundamental_div_mod(
                    dd[dimi],
                    chunks as int,
                );
                vstd::arithmetic::div_mod::lemma_mod_bound(dd[dimi], chunks as int);
                vstd::arithmetic::div_mod::lemma_div_pos_is_pos(dd[dimi], chunks as int);
            }
            let mut start: usize = 0;
            let mut i: usize = 0;
            while i < chunks
                invariant
                    0 <= i <= chunks,
                    chunks >= 1,
                    self.wf(),
                    dd == self.dims_sp(),
                    dim < dd.len(),
                    size == dd[dimi],
                    size >= chunks,
                    dimi == dim as int,
                    cs == dd[dimi] / (chunks as int),
                    rem == dd[dimi] % (chunks as int),
                    0 <= rem < chunks,
                    cs >= 0,
                    dd[dimi] == (chunks as int) * cs + rem,
                    start as int == chunk_start(dd[dimi], chunks as int, i as int),
                    out@.len() == i,
                    forall|k: int|
                        0 <= k < i ==> (#[trigger] out@[k]).wf() && out@[k].dims_sp()
                            == dd.update(dimi, chunk_len(dd[dimi], chunks as int, k))
                            && out@[k].dtype_sp() == self.dtype_sp(),
                    forall|k: int, c: Seq<int>|
                        0 <= k < i && coords_in(c, (#[trigger] out@[k]).dims_sp())
                            ==> #[trigger] out@[k].at(c) == self.at(
                            c.update(dimi, c[dimi] + chunk_start(dd[dimi], chunks as int, k)),
                        ),
                decreases chunks - i,
            {
                let len = if i < rem {
                    proof {
                        assert(cs + 1 <= size) by (nonlinear_arith)
                            requires
                                size as int == (chunks as int) * cs + rem,
                                chunks as int >= 1,
                                cs >= 0,
                                rem >= 1,
                        ;
                    }
                    cs + 1
                } else {
                    cs
                };
                proof {
                    assert(len as int == chunk_len(dd[dimi], chunks as int, i as int));
                    assert(start + len <= size) by (nonlinear_arith)
                        requires
                            size as int == (chunks as int) * cs + rem,
                            start as int == (i as int) * cs + (if i as int <= rem {
                                i as int
                            } else {
                                rem as int
                            }),
                            len as int == cs + (if (i as int) < rem {
                                1int
                            } else {
                                0int
                            }),
                            0 <= i < chunks,
                            cs >= 0,
                            0 <= rem < chunks,
                    ;
                }
                let piece = match self.narrow(dim, start, len) {
                    Ok(p) => p,
                    Err(e) => {
                        proof {
                            assert(false);
                        }
                        return Err(e);
                    },
                };
                out.push(piece);
                proof {
                    assert(chunk_start(dd[dimi], chunks as int, i + 1) == start + len)
                        by (nonlinear_arith)
                        requires
                            start as int == (i as int) * cs + (if i as int <= rem {
                                i as int
                            } else {
                                rem as int
                            }),
                            len as int == cs + (if (i as int) < rem {
                                1int
                            } else {
                                0int
                            }),
                            chunk_start(dd[dimi], chunks as int, i + 1) == (i + 1) * cs + (if i + 1
                                <= rem {
                                i + 1
                            } else {
                                rem as int
                            }),
                            0 <= i < chunks,
                            0 <= rem < chunks,
                            size >= chunks,
                    ;
                }
                start = start + len;
                i = i + 1;
            }
            proof {
                assert(chunk_count(dd[dimi], chunks as int) == chunks);
            }
            Ok(out)
        }
    }
}

} // verus!
