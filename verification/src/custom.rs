//! The custom-op extension points: user-supplied kernels applied through the
//! tensor surface without touching the fixed operation vocabulary, and the
//! layer-application helper.

use vstd::prelude::*;
use crate::dims::{ints, lemma_shape_ok_suffix, prod, shape_ok};
use crate::dtype::DType;
use crate::error::Error;
use crate::op::{BackpropOp, CustomOp1, CustomOp2, CustomOp3, Module};
use crate::tensor::{from_storage, Tensor, TensorId};

verus! {

impl Tensor {
    /// Applies a unary custom kernel, without backward support: the kernel
    /// reads this tensor's storage through its layout and returns a fresh
    /// storage with its shape. The result holds the kernel's values with
    /// dtype `I64`.
    pub fn apply_op1_no_bwd<C: CustomOp1>(&self, c: &C) -> (r: Result<Tensor, Error>)
        requires
            self.wf(),
        ensures
            match r {
                Ok(t) => t.wf() && t.dtype_sp() == DType::I64 && t.device_sp()
                    == self.device_sp(),
                Err(_) => true,
            },
    {
        let (stv, lay) = self.storage_and_layout();
        proof {
            self.lemma_wf_suffix();
        }
        let out = match c.cpu_fwd(stv, lay) {
            Ok(p) => p,
            Err(e) => {
                return Err(e);
            },
        };
        let (data, shape) = out;
        proof {
            shape.lemma_view_nonneg();
        }
        if !crate::shape::suffix_check(shape.dims()) {
            return Err(
                Error::ShapeMismatch { buffer_size: data.len(), shape },
            );
        }
        proof {
            crate::dims::lemma_prod_le_pos_prod(shape@);
        }
        if !shape_fits(&shape) {
            return Err(
                Error::ShapeMismatch { buffer_size: data.len(), shape },
            );
        }
        let t = from_storage(
            data,
            shape,
            BackpropOp::none(),
            false,
            DType::I64,
            *self.device(),
            self.fresh_id(),
        );
        Ok(t)
    }

    /// Applies a binary custom kernel, without backward support.
    pub fn apply_op2_no_bwd<C: CustomOp2>(&self, rhs: &Tensor, c: &C) -> (r: Result<Tensor, Error>)
        requires
            self.wf(),
            rhs.wf(),
        ensures
            match r {
                Ok(t) => t.wf() && t.dtype_sp() == DType::I64 && t.device_sp()
                    == self.device_sp(),
                Err(_) => true,
            },
    {
        let (s1, l1) = self.storage_and_layout();
        let (s2, l2) = rhs.storage_and_layout();
        proof {
            self.lemma_wf_suffix();
            rhs.lemma_wf_suffix();
        }
        let out = match c.cpu_fwd(s1, l1, s2, l2) {
            Ok(p) => p,
            Err(e) => {
                return Err(e);
            },
        };
        let (data, shape) = out;
        proof {
            shape.lemma_view_nonneg();
        }
        if !shape_fits(&shape) {
            return Err(
                Error::ShapeMismatch { buffer_size: data.len(), shape },
            );
        }
        let t = from_storage(
            data,
            shape,
            BackpropOp::none(),
            false,
            DType::I64,
            *self.device(),
            self.fresh_id_with(rhs),
        );
        Ok(t)
    }

    /// Applies a ternary custom kernel, without backward support.
    pub fn apply_op3_no_bwd<C: CustomOp3>(&self, t2: &Tensor, t3: &Tensor, c: &C) -> (r: Result<
        Tensor,
        Error,
    >)
        requires
            self.wf(),
            t2.wf(),
            t3.wf(),
        ensures
            match r {
                Ok(t) => t.wf() && t.dtype_sp() == DType::I64 && t.device_sp()
                    == self.device_sp(),
                Err(_) => true,
            },
    {
        let (s1, l1) = self.storage_and_layout();
        let (s2, l2) = t2.storage_and_layout();
        let (s3, l3) = t3.storage_and_layout();
        proof {
            self.lemma_wf_suffix();
            t2.lemma_wf_suffix();
            t3.lemma_wf_suffix();
        }
        let out = match c.cpu_fwd(s1, l1, s2, l2, s3, l3) {
            Ok(p) => p,
            Err(e) => {
                return Err(e);
            },
        };
        let (data, shape) = out;
        proof {
            shape.lemma_view_nonneg();
        }
        if !shape_fits(&shape) {
            return Err(
                Error::ShapeMismatch { buffer_size: data.len(), shape },
            );
        }
        let t = from_storage(
            data,
            shape,
            BackpropOp::none(),
            false,
            DType::I64,
            *self.device(),
            t3.merge_with(self.fresh_id_with(t2)),
        );
        Ok(t)
    }

    /// Runs the `forward` method of layer `m` on this tensor.
    pub fn apply<M: Module>(&self, m: &M) -> (r: Result<Tensor, Error>)
        requires
            self.wf(),
    {
        m.forward(self)
    }
}

/// Whether a kernel-returned shape is addressable.
fn shape_fits(shape: &crate::shape::Shape) -> (r: bool)
    ensures
        r == shape_ok(shape@),
{
    let mut acc: usize = 1;
    let dims = shape.dims();
    let n = dims.len();
    let mut j: usize = n;
    let ghost d = shape@;
    proof {
        shape.lemma_view_nonneg();
        assert(d.skip(n as int) =~= Seq::<int>::empty());
        assert(crate::dims::pos_prod(d.skip(n as int)) == 1);
    }
    while j > 0
        invariant
            0 <= j <= n,
            n == dims@.len(),
            ints(dims@) == d,
            d == shape@,
            forall|i: int| 0 <= i < d.len() ==> #[trigger] d[i] >= 0,
            acc == crate::dims::pos_prod(d.skip(j as int)),
            acc >= 1,
        decreases j,
    {
        let jj = j - 1;
        let dv = if dims[jj] < 1 {
            1
        } else {
            dims[jj]
        };
        proof {
            assert(d.skip(jj as int)[0] == d[jj as int]);
            assert(d.skip(jj as int).skip(1) =~= d.skip(j as int));
            assert(crate::dims::pos_prod(d.skip(jj as int)) == crate::dims::pos1(d[jj as int])
                * crate::dims::pos_prod(d.skip(j as int)));
            assert(crate::dims::pos1(d[jj as int]) == dv as int);
        }
        proof {
            assert(acc * (dv as int) == crate::dims::pos1(d[jj as int]) * crate::dims::pos_prod(
                d.skip(j as int),
            )) by (nonlinear_arith)
                requires
                    acc == crate::dims::pos_prod(d.skip(j as int)),
                    dv as int == crate::dims::pos1(d[jj as int]),
            ;
        }
        acc = match acc.checked_mul(dv) {
            Some(v) => {
                proof {
                    assert(v >= 1) by (nonlinear_arith)
                        requires
                            v == acc * dv,
                            acc >= 1,
                            dv >= 1,
                    ;
                }
                v
            },
            None => {
                proof {
                    crate::dims::lemma_pos_prod_skip(d, 0);
                    assert(d.skip(0) =~= d);
                    assert(crate::dims::pos_prod(d) >= crate::dims::pos_prod(d.skip(jj as int)))
                        by {
                        crate::dims::lemma_pos_prod_skip(d, jj as int);
                    }
                }
                return false;
            },
        };
        j = jj;
    }
    proof {
        assert(d.skip(0) =~= d);
    }
    true
}

} // verus!
