//! Two-dimensional pooling over the trailing axes of a `(batch, channels,
//! h, w)` tensor: every output cell summarises one strided window of the
//! input, as a wrapped average or as a maximum.

use vstd::prelude::*;
use crate::dims::{coords_in, ints, lemma_pos_prod_le, lemma_shape_ok_suffix, shape_ok};
use crate::dtype::{in_dtype, wrap_val, DType};
use crate::elementwise::tdiv;
use crate::error::Error;
use crate::kernel::build_grid;
use crate::op::{BackpropOp, Op};
use crate::shape::clone_dims;
use crate::tensor::Tensor;

verus! {

/// The source coordinates one pooling window cell reads: the window anchor
/// scaled by the strides, displaced by the in-window offsets.
pub open spec fn pool_src(c: Seq<int>, sh: int, sw: int, i: int, j: int) -> Seq<int> {
    c.update(2, c[2] * sh + i).update(3, c[3] * sw + j)
}

/// The raw sum of the first `jx` cells of window row `i`.
pub open spec fn pool_row_sum(t: Tensor, c: Seq<int>, sh: int, sw: int, i: int, jx: int) -> int
    decreases jx,
{
    if jx <= 0 {
        0
    } else {
        pool_row_sum(t, c, sh, sw, i, jx - 1) + t.at(pool_src(c, sh, sw, i, jx - 1))
    }
}

/// The raw sum of the first `ix` full rows, each `kw` cells wide, of the
/// pooling window anchored at output coordinates `c`.
pub open spec fn pool_sum(t: Tensor, c: Seq<int>, sh: int, sw: int, kw: int, ix: int) -> int
    decreases ix,
{
    if ix <= 0 {
        0
    } else {
        pool_sum(t, c, sh, sw, kw, ix - 1) + pool_row_sum(t, c, sh, sw, ix - 1, kw)
    }
}

/// The largest of the first `jx` cells of window row `i`; `jx` of at most
/// one yields the row's first cell.
pub open spec fn pool_row_max(t: Tensor, c: Seq<int>, sh: int, sw: int, i: int, jx: int) -> i64
    decreases jx,
{
    if jx <= 1 {
        t.at(pool_src(c, sh, sw, i, 0))
    } else {
        let p = pool_row_max(t, c, sh, sw, i, jx - 1);
        let v = t.at(pool_src(c, sh, sw, i, jx - 1));
        if v > p {
            v
        } else {
            p
        }
    }
}

/// The largest cell of the first `ix` rows, each `kw` cells wide, of the
/// pooling window anchored at output coordinates `c`.
pub open spec fn pool_max(t: Tensor, c: Seq<int>, sh: int, sw: int, kw: int, ix: int) -> i64
    decreases ix,
{
    if ix <= 1 {
        pool_row_max(t, c, sh, sw, 0, kw)
    } else {
        let p = pool_max(t, c, sh, sw, kw, ix - 1);
        let v = pool_row_max(t, c, sh, sw, ix - 1, kw);
        if v > p {
            v
        } else {
            p
        }
    }
}

/// Whether a kernel and stride fit a four-dimensional shape: positive
/// strides and a kernel of at least one cell that fits inside the input.
pub open spec fn pool_ok(d: Seq<int>, kh: int, kw: int, sh: int, sw: int) -> bool {
    &&& d.len() == 4
    &&& 1 <= kh <= d[2]
    &&& 1 <= kw <= d[3]
    &&& sh >= 1
    &&& sw >= 1
}

/// The output shape of a pooling operation: one output cell per full window
/// position along each of the two trailing axes.
pub open spec fn pool_out_dims(d: Seq<int>, kh: int, kw: int, sh: int, sw: int) -> Seq<int> {
    d.update(2, (d[2] - kh) / sh + 1).update(3, (d[3] - kw) / sw + 1)
}

/// Every window anchored at an in-range output coordinate stays inside the
/// input axis: the anchor scaled by the stride leaves room for the kernel.
proof fn lemma_pool_coord(cx: int, k: int, s: int, d: int)
    requires
        s >= 1,
        1 <= k <= d,
        0 <= cx < (d - k) / s + 1,
    ensures
        cx * s + k <= d,
{
    let q = (d - k) / s;
    vstd::arithmetic::div_mod::lemma_fundamental_div_mod(d - k, s);
    vstd::arithmetic::div_mod::lemma_mod_bound(d - k, s);
    let r = (d - k) % s;
    assert(cx <= q);
    assert(cx * s <= q * s) by (nonlinear_arith)
        requires
            cx <= q,
            s >= 1,
    ;
    assert(q * s == (d - k) - r);
}

/// An output axis is never longer than its input axis.
proof fn lemma_pool_axis_le(k: int, s: int, d: int)
    requires
        s >= 1,
        1 <= k <= d,
    ensures
        0 <= (d - k) / s,
        (d - k) / s + 1 <= d,
{
    let q = (d - k) / s;
    vstd::arithmetic::div_mod::lemma_fundamental_div_mod(d - k, s);
    vstd::arithmetic::div_mod::lemma_mod_bound(d - k, s);
    let r = (d - k) % s;
    assert(q * s == (d - k) - r);
    assert(q >= 0) by (nonlinear_arith)
        requires
            q * s == (d - k) - r,
            0 <= r < s,
            d - k >= 0,
            s >= 1,
    ;
    assert(q <= q * s) by (nonlinear_arith)
        requires
            q >= 0,
            s >= 1,
    ;
}

impl Tensor {
    /// Reads the one input cell a window position names.
    fn pool_read(&self, cv: &Vec<usize>, sh: usize, sw: usize, i: usize, j: usize) -> (v: i64)
        requires
            self.wf(),
            self.dims_sp().len() == 4,
            ints(cv@).len() == 4,
            0 <= ints(cv@)[0] < self.dims_sp()[0],
            0 <= ints(cv@)[1] < self.dims_sp()[1],
            ints(cv@)[2] >= 0,
            ints(cv@)[3] >= 0,
            ints(cv@)[2] * (sh as int) + (i as int) < self.dims_sp()[2],
            ints(cv@)[3] * (sw as int) + (j as int) < self.dims_sp()[3],
        ensures
            v == self.at(pool_src(ints(cv@), sh as int, sw as int, i as int, j as int)),
            in_dtype(self.dtype_sp(), v as int),
    {
        let ghost ci = ints(cv@);
        let ghost dd = self.dims_sp();
        let dimsv = self.dims();
        let d2 = dimsv[2];
        let d3 = dimsv[3];
        proof {
            assert((cv@[2] as int) * (sh as int) <= u128::MAX) by (nonlinear_arith)
                requires
                    0 <= (cv@[2] as int) && (cv@[2] as int) < 0x1_0000_0000_0000_0000,
                    0 <= (sh as int) && (sh as int) < 0x1_0000_0000_0000_0000,
            ;
            assert((cv@[3] as int) * (sw as int) <= u128::MAX) by (nonlinear_arith)
                requires
                    0 <= (cv@[3] as int) && (cv@[3] as int) < 0x1_0000_0000_0000_0000,
                    0 <= (sw as int) && (sw as int) < 0x1_0000_0000_0000_0000,
            ;
            assert(dd[2] == d2 as int);
            assert(dd[3] == d3 as int);
        }
        let a = ((cv[2] as u128) * (sh as u128) + (i as u128)) as usize;
        let b = ((cv[3] as u128) * (sw as u128) + (j as u128)) as usize;
        let mut coord = clone_dims(cv);
        coord[2] = a;
        coord[3] = b;
        proof {
            assert(ints(coord@) =~= pool_src(ci, sh as int, sw as int, i as int, j as int));
            assert(coords_in(ints(coord@), dd)) by {
                assert forall|x: int| 0 <= x < coord@.len() implies 0 <= #[trigger] ints(coord@)[x]
                    < dd[x] by {
                    if x != 2 && x != 3 {
                        assert(ints(coord@)[x] == ci[x]);
                    }
                }
            }
            crate::dims::lemma_ints_nonneg(coord@);
        }
        let (stv, lay) = self.storage_and_layout();
        proof {
            assert(crate::dims::phys(self.off_sp(), ints(coord@), self.strides_sp())
                < self.st().len());
        }
        let v = crate::kernel::read_at(stv, lay.stride(), lay.start_offset(), &coord);
        proof {
            assert(v == self.at(ints(coord@)));
            assert(in_dtype(self.dtype_sp(), self.at(ints(coord@)) as int));
        }
        v
    }

    /// The wrapped running sum of one full window row.
    fn pool_row_sum_exec(&self, cv: &Vec<usize>, sh: usize, sw: usize, i: usize, kw: usize) -> (v:
        i64)
        requires
            self.wf(),
            self.dims_sp().len() == 4,
            ints(cv@).len() == 4,
            0 <= ints(cv@)[0] < self.dims_sp()[0],
            0 <= ints(cv@)[1] < self.dims_sp()[1],
            ints(cv@)[2] >= 0,
            ints(cv@)[3] >= 0,
            ints(cv@)[2] * (sh as int) + (i as int) < self.dims_sp()[2],
            ints(cv@)[3] * (sw as int) + (kw as int) <= self.dims_sp()[3],
            kw >= 1,
        ensures
            v as int == wrap_val(
                self.dtype_sp(),
                pool_row_sum(*self, ints(cv@), sh as int, sw as int, i as int, kw as int),
            ),
            in_dtype(self.dtype_sp(), v as int),
    {
        let ghost ci = ints(cv@);
        let dt = self.dtype();
        let mut acc: i64 = 0;
        let mut j: usize = 0;
        proof {
            crate::dtype::lemma_wrap_id(dt, 0);
        }
        while j < kw
            invariant
                0 <= j <= kw,
                self.wf(),
                self.dims_sp().len() == 4,
                ci == ints(cv@),
                ci.len() == 4,
                0 <= ci[0] < self.dims_sp()[0],
                0 <= ci[1] < self.dims_sp()[1],
                ci[2] >= 0,
                ci[3] >= 0,
                ci[2] * (sh as int) + (i as int) < self.dims_sp()[2],
                ci[3] * (sw as int) + (kw as int) <= self.dims_sp()[3],
                dt == self.dtype_sp(),
                acc as int == wrap_val(
                    dt,
                    pool_row_sum(*self, ci, sh as int, sw as int, i as int, j as int),
                ),
                in_dtype(dt, acc as int),
            decreases kw - j,
        {
            let x = self.pool_read(cv, sh, sw, i, j);
            proof {
                crate::dtype::lemma_wrap_absorb(
                    dt,
                    pool_row_sum(*self, ci, sh as int, sw as int, i as int, j as int),
                    x as int,
                );
                assert(pool_row_sum(*self, ci, sh as int, sw as int, i as int, j + 1)
                    == pool_row_sum(*self, ci, sh as int, sw as int, i as int, j as int) + self.at(
                    pool_src(ci, sh as int, sw as int, i as int, j as int),
                ));
            }
            acc = crate::dtype::wrap_add(dt, acc, x);
            j = j + 1;
        }
        acc
    }

    /// The largest cell of one full window row.
    fn pool_row_max_exec(&self, cv: &Vec<usize>, sh: usize, sw: usize, i: usize, kw: usize) -> (v:
        i64)
        requires
            self.wf(),
            self.dims_sp().len() == 4,
            ints(cv@).len() == 4,
            0 <= ints(cv@)[0] < self.dims_sp()[0],
            0 <= ints(cv@)[1] < self.dims_sp()[1],
            ints(cv@)[2] >= 0,
            ints(cv@)[3] >= 0,
            ints(cv@)[2] * (sh as int) + (i as int) < self.dims_sp()[2],
            ints(cv@)[3] * (sw as int) + (kw as int) <= self.dims_sp()[3],
            kw >= 1,
        ensures
            v == pool_row_max(*self, ints(cv@), sh as int, sw as int, i as int, kw as int),
            in_dtype(self.dtype_sp(), v as int),
    {
        let ghost ci = ints(cv@);
        let dt = self.dtype();
        let mut m = self.pool_read(cv, sh, sw, i, 0);
        let mut j: usize = 1;
        while j < kw
            invariant
                1 <= j <= kw,
                self.wf(),
                self.dims_sp().len() == 4,
                ci == ints(cv@),
                ci.len() == 4,
                0 <= ci[0] < self.dims_sp()[0],
                0 <= ci[1] < self.dims_sp()[1],
                ci[2] >= 0,
                ci[3] >= 0,
                ci[2] * (sh as int) + (i as int) < self.dims_sp()[2],
                ci[3] * (sw as int) + (kw as int) <= self.dims_sp()[3],
                dt == self.dtype_sp(),
                m == pool_row_max(*self, ci, sh as int, sw as int, i as int, j as int),
                in_dtype(dt, m as int),
            decreases kw - j,
        {
            let x = self.pool_read(cv, sh, sw, i, j);
            if x > m {
                m = x;
            }
            j = j + 1;
        }
        m
    }
}

} // verus!

verus! {

impl Tensor {
    /// One cell of the average pool: the wrapped window sum divided by the
    /// window's cell count, truncating.
    fn avg_cell(&self, cv: &Vec<usize>, sh: usize, sw: usize, kh: usize, kw: usize) -> (v: i64)
        requires
            self.wf(),
            pool_ok(self.dims_sp(), kh as int, kw as int, sh as int, sw as int),
            (kh as int) * (kw as int) <= i64::MAX,
            coords_in(
                ints(cv@),
                pool_out_dims(self.dims_sp(), kh as int, kw as int, sh as int, sw as int),
            ),
        ensures
            v as int == tdiv(
                wrap_val(
                    self.dtype_sp(),
                    pool_sum(*self, ints(cv@), sh as int, sw as int, kw as int, kh as int),
                ),
                (kh as int) * (kw as int),
            ),
            in_dtype(self.dtype_sp(), v as int),
    {
        let ghost ci = ints(cv@);
        let ghost dd = self.dims_sp();
        let dt = self.dtype();
        proof {
            let od = pool_out_dims(dd, kh as int, kw as int, sh as int, sw as int);
            assert(0 <= ci[2] < od[2]);
            assert(0 <= ci[3] < od[3]);
            lemma_pool_coord(ci[2], kh as int, sh as int, dd[2]);
            lemma_pool_coord(ci[3], kw as int, sw as int, dd[3]);
            assert(od[0] == dd[0] && od[1] == dd[1]);
            crate::dtype::lemma_wrap_id(dt, 0);
        }
        let mut acc: i64 = 0;
        let mut i: usize = 0;
        while i < kh
            invariant
                0 <= i <= kh,
                self.wf(),
                pool_ok(dd, kh as int, kw as int, sh as int, sw as int),
                dd == self.dims_sp(),
                ci == ints(cv@),
                ci.len() == 4,
                0 <= ci[0] < dd[0],
                0 <= ci[1] < dd[1],
                ci[2] >= 0,
                ci[3] >= 0,
                ci[2] * (sh as int) + (kh as int) <= dd[2],
                ci[3] * (sw as int) + (kw as int) <= dd[3],
                dt == self.dtype_sp(),
                acc as int == wrap_val(
                    dt,
                    pool_sum(*self, ci, sh as int, sw as int, kw as int, i as int),
                ),
                in_dtype(dt, acc as int),
            decreases kh - i,
        {
            let rs = self.pool_row_sum_exec(cv, sh, sw, i, kw);
            proof {
                let pp = pool_sum(*self, ci, sh as int, sw as int, kw as int, i as int);
                let rr = pool_row_sum(*self, ci, sh as int, sw as int, i as int, kw as int);
                crate::dtype::lemma_wrap_absorb(dt, pp, wrap_val(dt, rr));
                crate::dtype::lemma_wrap_absorb(dt, rr, pp);
                assert(pp + wrap_val(dt, rr) == wrap_val(dt, rr) + pp);
                assert(rr + pp == pp + rr);
                assert(pool_sum(*self, ci, sh as int, sw as int, kw as int, i + 1) == pp + rr);
            }
            acc = crate::dtype::wrap_add(dt, acc, rs);
            i = i + 1;
        }
        proof {
            assert((kh as int) * (kw as int) >= 1) by (nonlinear_arith)
                requires
                    kh >= 1,
                    kw >= 1,
            ;
        }
        let count: u64 = (kh as u64) * (kw as u64);
        let c64: i64 = count as i64;
        proof {
            match dt {
                DType::U8 | DType::U32 => {
                    crate::elementwise::lemma_tdiv_unsigned_pub(dt, acc as int, c64 as int);
                },
                DType::I64 => {
                    crate::elementwise::lemma_tdiv_bounds(acc as int, c64 as int);
                },
            }
        }
        crate::elementwise::div_by(acc, c64)
    }

    /// One cell of the max pool: the largest value in the window.
    fn max_cell(&self, cv: &Vec<usize>, sh: usize, sw: usize, kh: usize, kw: usize) -> (v: i64)
        requires
            self.wf(),
            pool_ok(self.dims_sp(), kh as int, kw as int, sh as int, sw as int),
            coords_in(
                ints(cv@),
                pool_out_dims(self.dims_sp(), kh as int, kw as int, sh as int, sw as int),
            ),
        ensures
            v == pool_max(*self, ints(cv@), sh as int, sw as int, kw as int, kh as int),
            in_dtype(self.dtype_sp(), v as int),
    {
        let ghost ci = ints(cv@);
        let ghost dd = self.dims_sp();
        let dt = self.dtype();
        proof {
            let od = pool_out_dims(dd, kh as int, kw as int, sh as int, sw as int);
            assert(0 <= ci[2] < od[2]);
            assert(0 <= ci[3] < od[3]);
            lemma_pool_coord(ci[2], kh as int, sh as int, dd[2]);
            lemma_pool_coord(ci[3], kw as int, sw as int, dd[3]);
            assert(od[0] == dd[0] && od[1] == dd[1]);
        }
        let mut m = self.pool_row_max_exec(cv, sh, sw, 0, kw);
        let mut i: usize = 1;
        while i < kh
            invariant
                1 <= i <= kh,
                self.wf(),
                pool_ok(dd, kh as int, kw as int, sh as int, sw as int),
                dd == self.dims_sp(),
                ci == ints(cv@),
                ci.len() == 4,
                0 <= ci[0] < dd[0],
                0 <= ci[1] < dd[1],
                ci[2] >= 0,
                ci[3] >= 0,
                ci[2] * (sh as int) + (kh as int) <= dd[2],
                ci[3] * (sw as int) + (kw as int) <= dd[3],
                dt == self.dtype_sp(),
                m == pool_max(*self, ci, sh as int, sw as int, kw as int, i as int),
                in_dtype(dt, m as int),
            decreases kh - i,
        {
            let x = self.pool_row_max_exec(cv, sh, sw, i, kw);
            if x > m {
                m = x;
            }
            i = i + 1;
        }
        m
    }
}

} // verus!

verus! {

impl Tensor {
    /// Average pooling over the two trailing axes with an explicit stride:
    /// the input `(batch, channels, h, w)` yields `(batch, channels, h', w')`
    /// where each axis holds one cell per full window position, and every
    /// output cell is the window's wrapped sum divided by the window size,
    /// truncating.
    pub fn avg_pool2d_with_stride(
        &self,
        kernel_size: (usize, usize),
        stride: (usize, usize),
    ) -> (r: Result<Tensor, Error>)
        requires
            self.wf(),
            self.dims_sp().len() == 4 ==> pool_ok(
                self.dims_sp(),
                kernel_size.0 as int,
                kernel_size.1 as int,
                stride.0 as int,
                stride.1 as int,
            ) && (kernel_size.0 as int) * (kernel_size.1 as int) <= i64::MAX,
        ensures
            match r {
                Ok(t) => {
                    &&& self.dims_sp().len() == 4
                    &&& t.wf()
                    &&& t.dims_sp() == pool_out_dims(
                        self.dims_sp(),
                        kernel_size.0 as int,
                        kernel_size.1 as int,
                        stride.0 as int,
                        stride.1 as int,
                    )
                    &&& t.dtype_sp() == self.dtype_sp()
                    &&& t.device_sp() == self.device_sp()
                    &&& forall|c: Seq<int>|
                        coords_in(c, t.dims_sp()) ==> #[trigger] t.at(c) as int == tdiv(
                            wrap_val(
                                self.dtype_sp(),
                                pool_sum(
                                    *self,
                                    c,
                                    stride.0 as int,
                                    stride.1 as int,
                                    kernel_size.1 as int,
                                    kernel_size.0 as int,
                                ),
                            ),
                            (kernel_size.0 as int) * (kernel_size.1 as int),
                        )
                },
                Err(e) => {
                    &&& self.dims_sp().len() != 4
                    &&& e matches Error::UnexpectedNumberOfDims { expected, got, .. } && expected
                        == 4 && got == self.dims_sp().len()
                },
            },
    {
        let ghost dd = self.dims_sp();
        if self.rank() != 4 {
            return Err(
                Error::UnexpectedNumberOfDims {
                    expected: 4,
                    got: self.rank(),
                    shape: self.shape().clone(),
                },
            );
        }
        let (kh, kw) = kernel_size;
        let (sh, sw) = stride;
        let dims = self.dims();
        let h = dims[2];
        let w = dims[3];
        proof {
            lemma_pool_axis_le(kh as int, sh as int, h as int);
            lemma_pool_axis_le(kw as int, sw as int, w as int);
        }
        let hout = (h - kh) / sh + 1;
        let wout = (w - kw) / sw + 1;
        let mut outdims = clone_dims(dims);
        outdims[2] = hout;
        outdims[3] = wout;
        let ghost od = pool_out_dims(dd, kh as int, kw as int, sh as int, sw as int);
        proof {
            assert(ints(outdims@) =~= od);
            crate::dims::lemma_ints_nonneg(outdims@);
            assert forall|x: int| 0 <= x < od.len() implies #[trigger] od[x] <= dd[x] by {}
            lemma_pos_prod_le(od, dd);
            assert(shape_ok(od));
            lemma_shape_ok_suffix(od);
        }
        let dt = self.dtype();
        let ghost fs = |c: Seq<int>|
            (tdiv(
                wrap_val(
                    self.dtype_sp(),
                    pool_sum(*self, c, sh as int, sw as int, kw as int, kh as int),
                ),
                (kh as int) * (kw as int),
            ) as i64);
        let cell = |cv: &Vec<usize>| -> (v: i64)
            requires
                self.wf(),
                pool_ok(self.dims_sp(), kh as int, kw as int, sh as int, sw as int),
                (kh as int) * (kw as int) <= i64::MAX,
                coords_in(
                    ints(cv@),
                    pool_out_dims(self.dims_sp(), kh as int, kw as int, sh as int, sw as int),
                ),
            ensures
                v as int == tdiv(
                    wrap_val(
                        self.dtype_sp(),
                        pool_sum(*self, ints(cv@), sh as int, sw as int, kw as int, kh as int),
                    ),
                    (kh as int) * (kw as int),
                ),
            { self.avg_cell(cv, sh, sw, kh, kw) };
        proof {
            assert forall|cq: Vec<usize>|
                coords_in(ints(cq@), ints(outdims@)) implies #[trigger] call_requires(
                cell,
                (&cq,),
            ) by {}
            assert forall|cq: Vec<usize>, v: i64|
                coords_in(ints(cq@), ints(outdims@)) && #[trigger] call_ensures(
                cell,
                (&cq,),
                v,
            ) implies v == fs(ints(cq@)) by {
                assert(v as int == tdiv(
                    wrap_val(dt, pool_sum(*self, ints(cq@), sh as int, sw as int, kw as int, kh as int)),
                    (kh as int) * (kw as int),
                ));
            }
            assert forall|c: Seq<int>|
                coords_in(c, ints(outdims@)) implies in_dtype(dt, #[trigger] fs(c) as int) by {
                lemma_avg_value_bounds(*self, c, sh as int, sw as int, kw as int, kh as int);
            }
        }
        let out = build_grid(&outdims, &cell, Ghost(fs));
        let opedge = BackpropOp::new1(
            self,
            Op::AvgPool2D { arg: self.clone(), kernel_size, stride },
        );
        let t = crate::tensor::grid_tensor(
            &outdims,
            out,
            Ghost(fs),
            opedge,
            dt,
            *self.device(),
            self.fresh_id(),
        );
        proof {
            assert forall|c: Seq<int>| coords_in(c, t.dims_sp()) implies #[trigger] t.at(c) as int
                == tdiv(
                wrap_val(dt, pool_sum(*self, c, sh as int, sw as int, kw as int, kh as int)),
                (kh as int) * (kw as int),
            ) by {
                lemma_avg_value_bounds(*self, c, sh as int, sw as int, kw as int, kh as int);
                assert(t.at(c) == fs(c));
            }
        }
        Ok(t)
    }

    /// Average pooling with a square kernel advancing by its own size.
    pub fn avg_pool2d(&self, sz: usize) -> (r: Result<Tensor, Error>)
        requires
            self.wf(),
            self.dims_sp().len() == 4 ==> pool_ok(
                self.dims_sp(),
                sz as int,
                sz as int,
                sz as int,
                sz as int,
            ) && (sz as int) * (sz as int) <= i64::MAX,
        ensures
            match r {
                Ok(t) => {
                    &&& self.dims_sp().len() == 4
                    &&& t.wf()
                    &&& t.dims_sp() == pool_out_dims(
                        self.dims_sp(),
                        sz as int,
                        sz as int,
                        sz as int,
                        sz as int,
                    )
                    &&& t.dtype_sp() == self.dtype_sp()
                    &&& t.device_sp() == self.device_sp()
                    &&& forall|c: Seq<int>|
                        coords_in(c, t.dims_sp()) ==> #[trigger] t.at(c) as int == tdiv(
                            wrap_val(
                                self.dtype_sp(),
                                pool_sum(*self, c, sz as int, sz as int, sz as int, sz as int),
                            ),
                            (sz as int) * (sz as int),
                        )
                },
                Err(e) => {
                    &&& self.dims_sp().len() != 4
                    &&& e matches Error::UnexpectedNumberOfDims { expected, got, .. } && expected
                        == 4 && got == self.dims_sp().len()
                },
            },
    {
        self.avg_pool2d_with_stride((sz, sz), (sz, sz))
    }

    /// Max pooling over the two trailing axes with an explicit stride: each
    /// output cell is the largest value of its window.
    pub fn max_pool2d_with_stride(
        &self,
        kernel_size: (usize, usize),
        stride: (usize, usize),
    ) -> (r: Result<Tensor, Error>)
        requires
            self.wf(),
            self.dims_sp().len() == 4 ==> pool_ok(
                self.dims_sp(),
                kernel_size.0 as int,
                kernel_size.1 as int,
                stride.0 as int,
                stride.1 as int,
            ),
        ensures
            match r {
                Ok(t) => {
                    &&& self.dims_sp().len() == 4
                    &&& t.wf()
                    &&& t.dims_sp() == pool_out_dims(
                        self.dims_sp(),
                        kernel_size.0 as int,
                        kernel_size.1 as int,
                        stride.0 as int,
                        stride.1 as int,
                    )
                    &&& t.dtype_sp() == self.dtype_sp()
                    &&& t.device_sp() == self.device_sp()
                    &&& forall|c: Seq<int>|
                        coords_in(c, t.dims_sp()) ==> #[trigger] t.at(c) == pool_max(
                            *self,
                            c,
                            stride.0 as int,
                            stride.1 as int,
                            kernel_size.1 as int,
                            kernel_size.0 as int,
                        )
                },
                Err(e) => {
                    &&& self.dims_sp().len() != 4
                    &&& e matches Error::UnexpectedNumberOfDims { expected, got, .. } && expected
                        == 4 && got == self.dims_sp().len()
                },
            },
    {
        let ghost dd = self.dims_sp();
        if self.rank() != 4 {
            return Err(
                Error::UnexpectedNumberOfDims {
                    expected: 4,
                    got: self.rank(),
                    shape: self.shape().clone(),
                },
            );
        }
        let (kh, kw) = kernel_size;
        let (sh, sw) = stride;
        let dims = self.dims();
        let h = dims[2];
        let w = dims[3];
        proof {
            lemma_pool_axis_le(kh as int, sh as int, h as int);
            lemma_pool_axis_le(kw as int, sw as int, w as int);
        }
        let hout = (h - kh) / sh + 1;
        let wout = (w - kw) / sw + 1;
        let mut outdims = clone_dims(dims);
        outdims[2] = hout;
        outdims[3] = wout;
        let ghost od = pool_out_dims(dd, kh as int, kw as int, sh as int, sw as int);
        proof {
            assert(ints(outdims@) =~= od);
            crate::dims::lemma_ints_nonneg(outdims@);
            assert forall|x: int| 0 <= x < od.len() implies #[trigger] od[x] <= dd[x] by {}
            lemma_pos_prod_le(od, dd);
            assert(shape_ok(od));
            lemma_shape_ok_suffix(od);
        }
        let dt = self.dtype();
        let ghost fs = |c: Seq<int>|
            pool_max(*self, c, sh as int, sw as int, kw as int, kh as int);
        let cell = |cv: &Vec<usize>| -> (v: i64)
            requires
                self.wf(),
                pool_ok(self.dims_sp(), kh as int, kw as int, sh as int, sw as int),
                coords_in(
                    ints(cv@),
                    pool_out_dims(self.dims_sp(), kh as int, kw as int, sh as int, sw as int),
                ),
            ensures
                v == pool_max(*self, ints(cv@), sh as int, sw as int, kw as int, kh as int),
                in_dtype(self.dtype_sp(), v as int),
            { self.max_cell(cv, sh, sw, kh, kw) };
        proof {
            assert forall|cq: Vec<usize>|
                coords_in(ints(cq@), ints(outdims@)) implies #[trigger] call_requires(
                cell,
                (&cq,),
            ) by {}
            assert forall|cq: Vec<usize>, v: i64|
                coords_in(ints(cq@), ints(outdims@)) && #[trigger] call_ensures(
                cell,
                (&cq,),
                v,
            ) implies v == fs(ints(cq@)) by {}
            assert forall|c: Seq<int>|
                coords_in(c, ints(outdims@)) implies in_dtype(dt, #[trigger] fs(c) as int) by {
                lemma_pool_max_in_dtype(*self, c, sh as int, sw as int, kw as int, kh as int);
            }
        }
        let out = build_grid(&outdims, &cell, Ghost(fs));
        let opedge = BackpropOp::new1(
            self,
            Op::MaxPool2D { arg: self.clone(), kernel_size, stride },
        );
        let t = crate::tensor::grid_tensor(
            &outdims,
            out,
            Ghost(fs),
            opedge,
            dt,
            *self.device(),
            self.fresh_id(),
        );
        Ok(t)
    }

    /// Max pooling with a square kernel advancing by its own size.
    pub fn max_pool2d(&self, sz: usize) -> (r: Result<Tensor, Error>)
        requires
            self.wf(),
            self.dims_sp().len() == 4 ==> pool_ok(
                self.dims_sp(),
                sz as int,
                sz as int,
                sz as int,
                sz as int,
            ),
        ensures
            match r {
                Ok(t) => {
                    &&& self.dims_sp().len() == 4
                    &&& t.wf()
                    &&& t.dims_sp() == pool_out_dims(
                        self.dims_sp(),
                        sz as int,
                        sz as int,
                        sz as int,
                        sz as int,
                    )
                    &&& t.dtype_sp() == self.dtype_sp()
                    &&& t.device_sp() == self.device_sp()
                    &&& forall|c: Seq<int>|
                        coords_in(c, t.dims_sp()) ==> #[trigger] t.at(c) == pool_max(
                            *self,
                            c,
                            sz as int,
                            sz as int,
                            sz as int,
                            sz as int,
                        )
                },
                Err(e) => {
                    &&& self.dims_sp().len() != 4
                    &&& e matches Error::UnexpectedNumberOfDims { expected, got, .. } && expected
                        == 4 && got == self.dims_sp().len()
                },
            },
    {
        self.max_pool2d_with_stride((sz, sz), (sz, sz))
    }
}

/// A window maximum over in-range coordinates stays in the tensor's dtype:
/// it is one of the window's cells.
proof fn lemma_pool_max_in_dtype(t: Tensor, c: Seq<int>, sh: int, sw: int, kw: int, ix: int)
    requires
        t.wf(),
        pool_ok(t.dims_sp(), ix, kw, sh, sw),
        coords_in(c, pool_out_dims(t.dims_sp(), ix, kw, sh, sw)),
    ensures
        in_dtype(t.dtype_sp(), pool_max(t, c, sh, sw, kw, ix) as int),
{
    let dd = t.dims_sp();
    let od = pool_out_dims(dd, ix, kw, sh, sw);
    assert(0 <= c[2] < od[2]);
    assert(0 <= c[3] < od[3]);
    lemma_pool_coord(c[2], ix, sh, dd[2]);
    lemma_pool_coord(c[3], kw, sw, dd[3]);
    assert(od[0] == dd[0] && od[1] == dd[1]);
    lemma_pool_max_in_dtype_rec(t, c, sh, sw, kw, ix);
}

/// The recursion behind `lemma_pool_max_in_dtype`, over window coordinates
/// already known to be in range.
proof fn lemma_pool_max_in_dtype_rec(t: Tensor, c: Seq<int>, sh: int, sw: int, kw: int, ix: int)
    requires
        t.wf(),
        t.dims_sp().len() == 4,
        c.len() == 4,
        0 <= c[0] < t.dims_sp()[0],
        0 <= c[1] < t.dims_sp()[1],
        c[2] >= 0,
        c[3] >= 0,
        ix >= 1,
        kw >= 1,
        sh >= 1,
        sw >= 1,
        c[2] * sh + ix <= t.dims_sp()[2],
        c[3] * sw + kw <= t.dims_sp()[3],
    ensures
        in_dtype(t.dtype_sp(), pool_max(t, c, sh, sw, kw, ix) as int),
    decreases ix,
{
    lemma_pool_row_max_in_dtype_rec(t, c, sh, sw, ix - 1, kw);
    if ix > 1 {
        lemma_pool_max_in_dtype_rec(t, c, sh, sw, kw, ix - 1);
    } else {
        lemma_pool_row_max_in_dtype_rec(t, c, sh, sw, 0, kw);
    }
}

/// An average-pool cell value is a wrapped sum divided by a positive count,
/// so it stays in the tensor's dtype and in machine range.
proof fn lemma_avg_value_bounds(t: Tensor, c: Seq<int>, sh: int, sw: int, kw: int, kh: int)
    requires
        kh >= 1,
        kw >= 1,
        kh * kw <= i64::MAX,
    ensures
        in_dtype(t.dtype_sp(), tdiv(wrap_val(t.dtype_sp(), pool_sum(t, c, sh, sw, kw, kh)), kh * kw)),
        i64::MIN <= tdiv(wrap_val(t.dtype_sp(), pool_sum(t, c, sh, sw, kw, kh)), kh * kw)
            <= i64::MAX,
{
    let dt = t.dtype_sp();
    let sv = wrap_val(dt, pool_sum(t, c, sh, sw, kw, kh));
    crate::dtype::lemma_wrap_in_dtype(dt, pool_sum(t, c, sh, sw, kw, kh));
    assert(kh * kw >= 1) by (nonlinear_arith)
        requires
            kh >= 1,
            kw >= 1,
    ;
    match dt {
        DType::U8 | DType::U32 => {
            crate::elementwise::lemma_tdiv_unsigned_pub(dt, sv, kh * kw);
        },
        DType::I64 => {
            crate::elementwise::lemma_tdiv_bounds(sv, kh * kw);
        },
    }
}

/// A row maximum over in-range coordinates is one of the row's cells, so it
/// stays in the tensor's dtype.
proof fn lemma_pool_row_max_in_dtype_rec(t: Tensor, c: Seq<int>, sh: int, sw: int, i: int, jx: int)
    requires
        t.wf(),
        t.dims_sp().len() == 4,
        c.len() == 4,
        0 <= c[0] < t.dims_sp()[0],
        0 <= c[1] < t.dims_sp()[1],
        c[2] >= 0,
        c[3] >= 0,
        i >= 0,
        jx >= 1,
        sh >= 1,
        sw >= 1,
        c[2] * sh + i < t.dims_sp()[2],
        c[3] * sw + jx <= t.dims_sp()[3],
    ensures
        in_dtype(t.dtype_sp(), pool_row_max(t, c, sh, sw, i, jx) as int),
    decreases jx,
{
    let dd = t.dims_sp();
    assert(c[2] * sh >= 0) by (nonlinear_arith)
        requires
            c[2] >= 0,
            sh >= 1,
    ;
    assert(c[3] * sw >= 0) by (nonlinear_arith)
        requires
            c[3] >= 0,
            sw >= 1,
    ;
    if jx <= 1 {
        let cu = pool_src(c, sh, sw, i, 0);
        assert(coords_in(cu, dd)) by {
            assert forall|x: int| 0 <= x < cu.len() implies 0 <= #[trigger] cu[x] < dd[x] by {
                if x != 2 && x != 3 {
                    assert(cu[x] == c[x]);
                }
            }
        }
        assert(in_dtype(t.dtype_sp(), t.at(cu) as int));
    } else {
        lemma_pool_row_max_in_dtype_rec(t, c, sh, sw, i, jx - 1);
        let cu = pool_src(c, sh, sw, i, jx - 1);
        assert(coords_in(cu, dd)) by {
            assert forall|x: int| 0 <= x < cu.len() implies 0 <= #[trigger] cu[x] < dd[x] by {
                if x != 2 && x != 3 {
                    assert(cu[x] == c[x]);
                }
            }
        }
        assert(in_dtype(t.dtype_sp(), t.at(cu) as int));
    }
}

} // verus!
