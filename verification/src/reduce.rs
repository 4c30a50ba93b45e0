//! Reductions along dimensions: sums over a dimension subset, and maximum,
//! minimum and first-occurrence argument reductions along one dimension,
//! each in a keep-dimensions and a squeeze-dimensions form.

use vstd::prelude::*;
use crate::dims::{coords_in, flat_of, ints, lemma_shape_ok_suffix, phys, prod, shape_ok};
use crate::dtype::{in_dtype, wrap_val, DType};
use crate::error::Error;
use crate::kernel::build_grid;
use crate::op::{BackpropOp, Op, ReduceOp};
use crate::shape::clone_dims;
use crate::tensor::{from_storage, Tensor};

verus! {

/// The plain integer sum of the first `k` elements along axis `d`, at the
/// coordinates `c` with `c[d]` replaced by the running index.
pub open spec fn axis_sum(t: Tensor, c: Seq<int>, d: int, k: int) -> int
    decreases k,
{
    if k <= 0 {
        0
    } else {
        axis_sum(t, c, d, k - 1) + t.at(c.update(d, k - 1))
    }
}

/// The greatest of the first `k` elements along axis `d`.
pub open spec fn axis_max(t: Tensor, c: Seq<int>, d: int, k: int) -> int
    decreases k,
{
    if k <= 1 {
        t.at(c.update(d, 0)) as int
    } else {
        let m = axis_max(t, c, d, k - 1);
        if t.at(c.update(d, k - 1)) > m {
            t.at(c.update(d, k - 1)) as int
        } else {
            m
        }
    }
}

/// The least of the first `k` elements along axis `d`.
pub open spec fn axis_min(t: Tensor, c: Seq<int>, d: int, k: int) -> int
    decreases k,
{
    if k <= 1 {
        t.at(c.update(d, 0)) as int
    } else {
        let m = axis_min(t, c, d, k - 1);
        if t.at(c.update(d, k - 1)) < m {
            t.at(c.update(d, k - 1)) as int
        } else {
            m
        }
    }
}

/// The index of the first greatest element among the first `k` along axis
/// `d`: a later element displaces the running answer only by being strictly
/// greater, so the first occurrence wins ties.
pub open spec fn axis_argmax(t: Tensor, c: Seq<int>, d: int, k: int) -> int
    decreases k,
{
    if k <= 1 {
        0
    } else {
        let a = axis_argmax(t, c, d, k - 1);
        if t.at(c.update(d, k - 1)) > t.at(c.update(d, a)) {
            k - 1
        } else {
            a
        }
    }
}

/// The index of the first least element among the first `k` along axis `d`.
pub open spec fn axis_argmin(t: Tensor, c: Seq<int>, d: int, k: int) -> int
    decreases k,
{
    if k <= 1 {
        0
    } else {
        let a = axis_argmin(t, c, d, k - 1);
        if t.at(c.update(d, k - 1)) < t.at(c.update(d, a)) {
            k - 1
        } else {
            a
        }
    }
}

/// The value a single-dimension reduction stores at output coordinates `c`
/// (whose entry at `d` is zero): the wrapped sum, the extremum, or the
/// wrapped index of the first extremum.
pub open spec fn red_val_sp(t: Tensor, c: Seq<int>, d: int, op: ReduceOp) -> int {
    let k = t.dims_sp()[d];
    match op {
        ReduceOp::Sum => wrap_val(t.dtype_sp(), axis_sum(t, c, d, k)),
        ReduceOp::Max => axis_max(t, c, d, k),
        ReduceOp::Min => axis_min(t, c, d, k),
        ReduceOp::ArgMax => wrap_val(DType::U32, axis_argmax(t, c, d, k)),
        ReduceOp::ArgMin => wrap_val(DType::U32, axis_argmin(t, c, d, k)),
    }
}

/// The dtype of a reduction's result: argument reductions index with `U32`,
/// the others keep the operand's dtype.
pub open spec fn red_dtype_sp(dt: DType, op: ReduceOp) -> DType {
    match op {
        ReduceOp::ArgMax | ReduceOp::ArgMin => DType::U32,
        _ => dt,
    }
}

/// An extremum over a nonempty axis is one of the axis's elements, so it
/// lies in the operand's dtype range.
proof fn lemma_axis_extremum_range(t: Tensor, c: Seq<int>, d: int, k: int)
    requires
        t.wf(),
        0 <= d < t.dims_sp().len(),
        c.len() == t.dims_sp().len(),
        forall|j: int| 0 <= j < c.len() && j != d ==> 0 <= #[trigger] c[j] < t.dims_sp()[j],
        1 <= k <= t.dims_sp()[d],
    ensures
        in_dtype(t.dtype_sp(), axis_max(t, c, d, k)),
        in_dtype(t.dtype_sp(), axis_min(t, c, d, k)),
        0 <= axis_argmax(t, c, d, k) < k,
        0 <= axis_argmin(t, c, d, k) < k,
    decreases k,
{
    assert forall|v: int| 0 <= v < t.dims_sp()[d] implies in_dtype(
        t.dtype_sp(),
        #[trigger] t.at(c.update(d, v)) as int,
    ) by {
        let cu = c.update(d, v);
        assert forall|j: int| 0 <= j < cu.len() implies 0 <= #[trigger] cu[j] < t.dims_sp()[j] by {
            if j != d {
                assert(cu[j] == c[j]);
            }
        }
        assert(coords_in(cu, t.dims_sp()));
    }
    if k > 1 {
        lemma_axis_extremum_range(t, c, d, k - 1);
    }
}

impl Tensor {
    /// The reduction value at one output coordinate tuple: runs the kernel
    /// along axis `d` of this tensor.
    fn reduce_cell(&self, cv: &Vec<usize>, d: usize, op: ReduceOp) -> (r: i64)
        requires
            self.wf(),
            d < self.dims_sp().len(),
            cv@.len() == self.dims_sp().len(),
            ints(cv@)[d as int] == 0,
            forall|j: int|
                0 <= j < cv@.len() && j != d ==> 0 <= #[trigger] ints(cv@)[j] < self.dims_sp()[j],
            op == ReduceOp::Sum || self.dims_sp()[d as int] >= 1,
        ensures
            r as int == red_val_sp(*self, ints(cv@), d as int, op),
            in_dtype(red_dtype_sp(self.dtype_sp(), op), r as int),
    {
        let ghost ci = ints(cv@);
        let ghost dd = self.dims_sp();
        let dt = self.dtype();
        let (stv, lay) = self.storage_and_layout();
        let stridesv = lay.stride();
        let off = lay.start_offset();
        let dimsv = lay.dims();
        let kd = dimsv[d];
        let mut coord = clone_dims(cv);
        proof {
            self.lemma_dims_nonneg();
            assert forall|v: int|
                0 <= v < dd[d as int] implies coords_in(#[trigger] ci.update(d as int, v), dd) by {
                let cu = ci.update(d as int, v);
                assert forall|j: int| 0 <= j < cu.len() implies 0 <= #[trigger] cu[j] < dd[j] by {
                    if j != d {
                        assert(cu[j] == ci[j]);
                    }
                }
            }
        }
        match op {
            ReduceOp::Sum => {
                let mut acc: i64 = 0;
                let mut k: usize = 0;
                proof {
                    crate::dtype::lemma_wrap_id(dt, 0);
                }
                while k < kd
                    invariant
                        0 <= k <= kd,
                        self.wf(),
                        dt == self.dtype_sp(),
                        dd == self.dims_sp(),
                        ci == ints(cv@),
                        d < dd.len(),
                        kd == dd[d as int],
                        coord@.len() == cv@.len(),
                        cv@.len() == dd.len(),
                        forall|j: int| 0 <= j < coord@.len() && j != d ==> #[trigger] coord@[j]
                            == cv@[j],
                        stv@ == self.st(),
                        ints(stridesv@) == self.strides_sp(),
                        off == self.off_sp(),
                        forall|v: int|
                            0 <= v < dd[d as int] ==> coords_in(
                                #[trigger] ci.update(d as int, v),
                                dd,
                            ),
                        acc as int == wrap_val(dt, axis_sum(*self, ci, d as int, k as int)),
                        in_dtype(dt, acc as int),
                    decreases kd - k,
                {
                    coord[d] = k;
                    proof {
                        assert(ints(coord@) =~= ci.update(d as int, k as int));
                        assert(coords_in(ints(coord@), dd));
                        assert(phys(off as int, ints(coord@), ints(stridesv@)) < stv@.len());
                        crate::dims::lemma_ints_nonneg(coord@);
                    }
                    let x = crate::kernel::read_at(stv, stridesv, off, &coord);
                    proof {
                        assert(x == self.at(ci.update(d as int, k as int)));
                        assert(in_dtype(dt, x as int));
                        crate::dtype::lemma_wrap_absorb(
                            dt,
                            axis_sum(*self, ci, d as int, k as int),
                            x as int,
                        );
                    }
                    acc = crate::dtype::wrap_add(dt, acc, x);
                    k = k + 1;
                }
                acc
            },
            ReduceOp::Max | ReduceOp::Min => {
                let is_max = match op {
                    ReduceOp::Max => true,
                    _ => false,
                };
                coord[d] = 0;
                proof {
                    assert(ints(coord@) =~= ci.update(d as int, 0));
                    assert(coords_in(ints(coord@), dd));
                    crate::dims::lemma_ints_nonneg(coord@);
                }
                let mut acc: i64 = crate::kernel::read_at(stv, stridesv, off, &coord);
                let mut k: usize = 1;
                while k < kd
                    invariant
                        1 <= k <= kd || (kd == 0 && k == 1),
                        self.wf(),
                        dt == self.dtype_sp(),
                        dd == self.dims_sp(),
                        ci == ints(cv@),
                        d < dd.len(),
                        kd == dd[d as int],
                        kd >= 1,
                        coord@.len() == cv@.len(),
                        cv@.len() == dd.len(),
                        forall|j: int| 0 <= j < coord@.len() && j != d ==> #[trigger] coord@[j]
                            == cv@[j],
                        stv@ == self.st(),
                        ints(stridesv@) == self.strides_sp(),
                        off == self.off_sp(),
                        forall|v: int|
                            0 <= v < dd[d as int] ==> coords_in(
                                #[trigger] ci.update(d as int, v),
                                dd,
                            ),
                        is_max ==> acc as int == axis_max(*self, ci, d as int, k as int),
                        !is_max ==> acc as int == axis_min(*self, ci, d as int, k as int),
                    decreases kd - k,
                {
                    coord[d] = k;
                    proof {
                        assert(ints(coord@) =~= ci.update(d as int, k as int));
                        assert(coords_in(ints(coord@), dd));
                        crate::dims::lemma_ints_nonneg(coord@);
                    }
                    let x = crate::kernel::read_at(stv, stridesv, off, &coord);
                    proof {
                        assert(x == self.at(ci.update(d as int, k as int)));
                    }
                    if is_max {
                        if x > acc {
                            acc = x;
                        }
                    } else {
                        if x < acc {
                            acc = x;
                        }
                    }
                    k = k + 1;
                }
                proof {
                    lemma_axis_extremum_range(*self, ci, d as int, kd as int);
                }
                acc
            },
            ReduceOp::ArgMax | ReduceOp::ArgMin => {
                let is_max = match op {
                    ReduceOp::ArgMax => true,
                    _ => false,
                };
                coord[d] = 0;
                proof {
                    assert(ints(coord@) =~= ci.update(d as int, 0));
                    assert(coords_in(ints(coord@), dd));
                    crate::dims::lemma_ints_nonneg(coord@);
                }
                let mut bestv: i64 = crate::kernel::read_at(stv, stridesv, off, &coord);
                let mut best: usize = 0;
                let mut k: usize = 1;
                while k < kd
                    invariant
                        1 <= k <= kd || (kd == 0 && k == 1),
                        self.wf(),
                        dd == self.dims_sp(),
                        ci == ints(cv@),
                        d < dd.len(),
                        kd == dd[d as int],
                        kd >= 1,
                        coord@.len() == cv@.len(),
                        cv@.len() == dd.len(),
                        forall|j: int| 0 <= j < coord@.len() && j != d ==> #[trigger] coord@[j]
                            == cv@[j],
                        stv@ == self.st(),
                        ints(stridesv@) == self.strides_sp(),
                        off == self.off_sp(),
                        forall|v: int|
                            0 <= v < dd[d as int] ==> coords_in(
                                #[trigger] ci.update(d as int, v),
                                dd,
                            ),
                        0 <= best < k,
                        is_max ==> best as int == axis_argmax(*self, ci, d as int, k as int),
                        !is_max ==> best as int == axis_argmin(*self, ci, d as int, k as int),
                        bestv == self.at(ci.update(d as int, best as int)),
                    decreases kd - k,
                {
                    coord[d] = k;
                    proof {
                        assert(ints(coord@) =~= ci.update(d as int, k as int));
                        assert(coords_in(ints(coord@), dd));
                        crate::dims::lemma_ints_nonneg(coord@);
                    }
                    let x = crate::kernel::read_at(stv, stridesv, off, &coord);
                    proof {
                        assert(x == self.at(ci.update(d as int, k as int)));
                    }
                    if is_max {
                        if x > bestv {
                            bestv = x;
                            best = k;
                        }
                    } else {
                        if x < bestv {
                            bestv = x;
                            best = k;
                        }
                    }
                    k = k + 1;
                }
                let r64: u64 = (best as u64) % 0x1_0000_0000;
                proof {
                    vstd::arithmetic::div_mod::lemma_mod_bound(best as int, 0x1_0000_0000);
                    crate::dtype::lemma_wrap_in_dtype(DType::U32, best as int);
                }
                r64 as i64
            },
        }
    }
}

} // verus!

verus! {

/// The integer sum of this tensor's elements over every combination of the
/// listed axes, the coordinates of the remaining axes held at `c`; the axes
/// from position `i` of the list on are still to be summed.
pub open spec fn box_sum(t: Tensor, c: Seq<int>, ds: Seq<int>, i: int) -> int
    decreases ds.len() - i, head_bound(t, ds, i), 1int,
{
    if i < 0 || i >= ds.len() {
        t.at(c) as int
    } else {
        box_axis(t, c, ds, i, t.dims_sp()[ds[i]])
    }
}

/// The sizes bound used to order the mutual recursion of `box_sum` and
/// `box_axis`.
pub open spec fn head_bound(t: Tensor, ds: Seq<int>, i: int) -> int {
    if 0 <= i < ds.len() {
        clamp0(t.dims_sp()[ds[i]]) + 1
    } else {
        0
    }
}

/// A value cut off below at zero.
pub open spec fn clamp0(x: int) -> int {
    if x < 0 {
        0
    } else {
        x
    }
}

/// The partial sum over the first `k` positions of axis `ds[i]`.
pub open spec fn box_axis(t: Tensor, c: Seq<int>, ds: Seq<int>, i: int, k: int) -> int
    decreases ds.len() - i, clamp0(k), 0int,
{
    if i < 0 || i >= ds.len() {
        0
    } else if k <= 0 {
        0
    } else {
        box_axis(t, c, ds, i, k - 1) + box_sum(t, c.update(ds[i], k - 1), ds, i + 1)
    }
}

/// The shape left by a keep-dimensions reduction: every listed axis becomes
/// a single element wide.
pub open spec fn mask_dims(dims: Seq<int>, ds: Seq<int>) -> Seq<int> {
    Seq::new(dims.len(), |j: int| if ds.contains(j) { 1int } else { dims[j] })
}

/// The shape left by a squeeze-dimensions reduction: every listed axis is
/// removed; the axes from position `j` on are kept or dropped in order.
pub open spec fn filter_dims(dims: Seq<int>, ds: Seq<int>, j: int) -> Seq<int>
    decreases dims.len() - j,
{
    if j < 0 || j >= dims.len() {
        Seq::empty()
    } else if ds.contains(j) {
        filter_dims(dims, ds, j + 1)
    } else {
        seq![dims[j]] + filter_dims(dims, ds, j + 1)
    }
}

} // verus!

verus! {

impl Tensor {
    /// The wrapped sum over the axes `ds[i..]`, with the other coordinates
    /// taken from `coord`. Positions of `coord` at axes still to be summed
    /// are scratch space; the others are preserved.
    fn box_cell(&self, ds: &Vec<usize>, i: usize, coord: &mut Vec<usize>) -> (r: i64)
        requires
            self.wf(),
            i <= ds@.len(),
            forall|m: int| 0 <= m < ds@.len() ==> 0 <= #[trigger] ints(ds@)[m] < self.dims_sp().len(),
            old(coord)@.len() == self.dims_sp().len(),
            forall|j: int|
                0 <= j < old(coord)@.len() && !(exists|m: int|
                    i <= m < ds@.len() && #[trigger] ints(ds@)[m] == j) ==> 0 <= #[trigger] ints(
                    old(coord)@,
                )[j] < self.dims_sp()[j],
        ensures
            final (coord)@.len() == old(coord)@.len(),
            forall|j: int|
                0 <= j < old(coord)@.len() && !(exists|m: int|
                    i <= m < ds@.len() && #[trigger] ints(ds@)[m] == j) ==> final (coord)@[j] == old(
                    coord,
                )@[j],
            r as int == wrap_val(
                self.dtype_sp(),
                box_sum(*self, ints(old(coord)@), ints(ds@), i as int),
            ),
            in_dtype(self.dtype_sp(), r as int),
        decreases ds@.len() - i,
    {
        let ghost dd = self.dims_sp();
        let ghost dsi = ints(ds@);
        let dt = self.dtype();
        if i == ds.len() {
            proof {
                assert(coords_in(ints(coord@), dd)) by {
                    assert forall|j: int| 0 <= j < ints(coord@).len() implies 0 <= #[trigger] ints(
                        coord@,
                    )[j] < dd[j] by {
                        assert(!(exists|m: int|
                            i <= m < ds@.len() && #[trigger] ints(ds@)[m] == j));
                    }
                }
                crate::dims::lemma_ints_nonneg(coord@);
            }
            let (stv, lay) = self.storage_and_layout();
            let stridesv = lay.stride();
            let off = lay.start_offset();
            let x = crate::kernel::read_at(stv, stridesv, off, coord);
            proof {
                assert(x == self.at(ints(coord@)));
                assert(in_dtype(dt, x as int));
                crate::dtype::lemma_wrap_id(dt, x as int);
            }
            x
        } else {
            let nds = ds.len();
            let d = ds[i];
            proof {
                assert(ints(ds@)[i as int] == d as int);
                assert(0 <= ints(ds@)[i as int] < dd.len());
            }
            let dimsv = self.dims();
            let kd = dimsv[d];
            let ghost c0 = ints(coord@);
            let mut acc: i64 = 0;
            let mut k: usize = 0;
            proof {
                crate::dtype::lemma_wrap_id(dt, 0);
            }
            while k < kd
                invariant
                    0 <= k <= kd,
                    self.wf(),
                    dt == self.dtype_sp(),
                    dd == self.dims_sp(),
                    dsi == ints(ds@),
                    i < ds@.len(),
                    nds == ds@.len(),
                    d == ds@[i as int],
                    d < dd.len(),
                    kd == dd[d as int],
                    coord@.len() == dd.len(),
                    forall|m: int| 0 <= m < ds@.len() ==> 0 <= #[trigger] ints(ds@)[m] < dd.len(),
                    forall|j: int|
                        0 <= j < coord@.len() && !(exists|m: int|
                            i <= m < ds@.len() && #[trigger] ints(ds@)[m] == j) ==> #[trigger] coord@[j]
                            == old(coord)@[j],
                    c0 == ints(old(coord)@),
                    forall|j: int|
                        0 <= j < old(coord)@.len() && !(exists|m: int|
                            i <= m < ds@.len() && #[trigger] ints(ds@)[m] == j) ==> 0
                            <= #[trigger] ints(old(coord)@)[j] < dd[j],
                    acc as int == wrap_val(dt, box_axis(*self, c0, dsi, i as int, k as int)),
                    in_dtype(dt, acc as int),
                decreases kd - k,
            {
                let mut sub_coord = clone_dims(coord);
                sub_coord[d] = k;
                let ghost before = ints(sub_coord@);
                proof {
                    assert(before =~= c0.update(d as int, k as int));
                    assert forall|j: int|
                        0 <= j < sub_coord@.len() && !(exists|m: int|
                            i + 1 <= m < ds@.len() && #[trigger] ints(ds@)[m] == j) implies 0
                        <= #[trigger] ints(sub_coord@)[j] < dd[j] by {
                        if j == d {
                            assert(ints(sub_coord@)[j] == k as int);
                        } else {
                            assert(!(exists|m: int|
                                i <= m < ds@.len() && #[trigger] ints(ds@)[m] == j));
                            assert(sub_coord@[j] == coord@[j]);
                        }
                    }
                }
                let sub = self.box_cell(ds, i + 1, &mut sub_coord);
                proof {
                    assert(sub as int == wrap_val(
                        dt,
                        box_sum(*self, c0.update(d as int, k as int), dsi, i as int + 1),
                    ));
                    crate::dtype::lemma_wrap_absorb(
                        dt,
                        box_sum(*self, c0.update(d as int, k as int), dsi, i as int + 1),
                        box_axis(*self, c0, dsi, i as int, k as int),
                    );
                    crate::dtype::lemma_wrap_absorb(
                        dt,
                        box_axis(*self, c0, dsi, i as int, k as int),
                        wrap_val(
                            dt,
                            box_sum(*self, c0.update(d as int, k as int), dsi, i as int + 1),
                        ),
                    );
                }
                acc = crate::dtype::wrap_add(dt, acc, sub);
                k = k + 1;
            }
            acc
        }
    }
}

} // verus!

verus! {

impl Tensor {
    /// Sums over the listed dimensions, keeping each as a single-element
    /// axis. The sum wraps in the tensor's dtype.
    pub fn sum_keepdim(&self, ds: &Vec<usize>) -> (r: Result<Tensor, Error>)
        requires
            self.wf(),
            ints(ds@).no_duplicates(),
        ensures
            match r {
                Ok(t) => {
                    &&& forall|m: int|
                        0 <= m < ds@.len() ==> 0 <= #[trigger] ints(ds@)[m]
                            < self.dims_sp().len()
                    &&& t.wf()
                    &&& t.dims_sp() == mask_dims(self.dims_sp(), ints(ds@))
                    &&& t.dtype_sp() == self.dtype_sp()
                    &&& t.device_sp() == self.device_sp()
                    &&& t.vals() == sum_grid(*self, ints(ds@))
                    &&& forall|c: Seq<int>|
                        coords_in(c, t.dims_sp()) ==> #[trigger] t.at(c) as int == wrap_val(
                            self.dtype_sp(),
                            box_sum(*self, c, ints(ds@), 0),
                        )
                },
                Err(e) => {
                    &&& exists|m: int|
                        0 <= m < ds@.len() && #[trigger] ints(ds@)[m] >= self.dims_sp().len()
                    &&& e matches Error::DimOutOfRange { .. }
                },
            },
    {
        let ghost dd = self.dims_sp();
        let ghost dsi = ints(ds@);
        let rank = self.rank();
        let nds = ds.len();
        let mut m: usize = 0;
        while m < nds
            invariant
                0 <= m <= nds,
                nds == ds@.len(),
                dd == self.dims_sp(),
                rank == dd.len(),
                dsi == ints(ds@),
                self.wf(),
                forall|mm: int| 0 <= mm < m ==> 0 <= #[trigger] dsi[mm] < rank,
            decreases nds - m,
        {
            if ds[m] >= rank {
                proof {
                    assert(dsi[m as int] >= dd.len());
                }
                return Err(
                    Error::DimOutOfRange { shape: self.shape().clone(), dim: ds[m], op: "sum" },
                );
            }
            m = m + 1;
        }
        let mut outdims = clone_dims(self.dims());
        let mut m2: usize = 0;
        while m2 < nds
            invariant
                0 <= m2 <= nds,
                nds == ds@.len(),
                dd == self.dims_sp(),
                dsi == ints(ds@),
                self.wf(),
                forall|mm: int| 0 <= mm < nds ==> 0 <= #[trigger] dsi[mm] < dd.len(),
                outdims@.len() == dd.len(),
                forall|j: int|
                    0 <= j < dd.len() ==> ints(outdims@)[j] == (if (exists|mm: int|
                        0 <= mm < m2 && #[trigger] dsi[mm] == j) {
                        1int
                    } else {
                        dd[j]
                    }),
            decreases nds - m2,
        {
            let dm = ds[m2];
            proof {
                assert(dsi[m2 as int] == dm as int);
                assert(0 <= dsi[m2 as int] < dd.len());
            }
            let ghost prev = outdims@;
            outdims[dm] = 1;
            proof {
                assert(outdims@ == prev.update(dm as int, 1usize));
                assert forall|j: int|
                    0 <= j < dd.len() implies ints(outdims@)[j] == (if (exists|mm: int|
                        0 <= mm < m2 + 1 && #[trigger] dsi[mm] == j) {
                        1int
                    } else {
                        dd[j]
                    }) by {
                    if j == dm {
                        assert(outdims@[j] == 1);
                        assert(dsi[m2 as int] == j);
                    } else {
                        assert(outdims@[j] == prev[j]);
                        assert(ints(prev)[j] == (if (exists|mm: int|
                            0 <= mm < m2 && #[trigger] dsi[mm] == j) {
                            1int
                        } else {
                            dd[j]
                        }));
                        assert(ints(outdims@)[j] == ints(prev)[j]);
                        if exists|mm: int| 0 <= mm < m2 + 1 && #[trigger] dsi[mm] == j {
                            let mm0 = choose|mm: int|
                                0 <= mm < m2 + 1 && #[trigger] dsi[mm] == j;
                            assert(mm0 < m2);
                            assert(exists|mm: int| 0 <= mm < m2 && #[trigger] dsi[mm] == j);
                        } else {
                            assert(!(exists|mm: int| 0 <= mm < m2 && #[trigger] dsi[mm] == j));
                        }
                    }
                }
            }
            m2 = m2 + 1;
        }
        proof {
            assert(ints(outdims@) =~= mask_dims(dd, dsi));
            self.lemma_dims_nonneg();
            assert forall|j: int|
                0 <= j < dd.len() implies crate::dims::pos1(#[trigger] ints(outdims@)[j])
                <= crate::dims::pos1(dd[j]) by {}
            crate::dims::lemma_pos_prod_le_pos1(ints(outdims@), dd);
            assert(shape_ok(ints(outdims@)));
            crate::dims::lemma_ints_nonneg(outdims@);
            lemma_shape_ok_suffix(ints(outdims@));
        }
        let dt = self.dtype();
        let ghost fs = |c: Seq<int>| (wrap_val(self.dtype_sp(), box_sum(*self, c, dsi, 0)) as i64);
        let cell = |cv: &Vec<usize>| -> (v: i64)
            requires
                coords_in(ints(cv@), ints(outdims@)),
            ensures
                v as int == wrap_val(self.dtype_sp(), box_sum(*self, ints(cv@), ints(ds@), 0)),
            {
                let mut coord = clone_dims(cv);
                proof {
                    assert forall|j: int|
                        0 <= j < coord@.len() && !(exists|mm: int|
                            0 <= mm < ds@.len() && #[trigger] ints(ds@)[mm] == j) implies 0
                        <= #[trigger] ints(coord@)[j] < self.dims_sp()[j] by {
                        assert(ints(coord@)[j] == ints(cv@)[j]);
                        assert(ints(outdims@)[j] == self.dims_sp()[j]) by {
                            assert(!ints(ds@).contains(j));
                        }
                    }
                }
                let v = self.box_cell(ds, 0, &mut coord);
                v
            };
        proof {
            assert forall|cq: Vec<usize>|
                coords_in(ints(cq@), ints(outdims@)) implies #[trigger] call_requires(
                cell,
                (&cq,),
            ) by {}
            assert forall|cq: Vec<usize>, v: i64|
                coords_in(ints(cq@), ints(outdims@)) && #[trigger] call_ensures(
                cell,
                (&cq,),
                v,
            ) implies v == fs(ints(cq@)) by {
                crate::dtype::lemma_wrap_in_dtype(
                    self.dtype_sp(),
                    box_sum(*self, ints(cq@), dsi, 0),
                );
            }
        }
        let out = build_grid(&outdims, &cell, Ghost(fs));
        let opedge = BackpropOp::new1(self, Op::Reduce(self.clone(), ReduceOp::Sum, clone_dims(ds)));
        let t = crate::tensor::grid_tensor(
            &outdims,
            out,
            Ghost(fs),
            opedge,
            dt,
            *self.device(),
            self.fresh_id(),
        );
        proof {
            assert forall|c: Seq<int>| coords_in(c, t.dims_sp()) implies #[trigger] t.at(c) as int
                == wrap_val(self.dtype_sp(), box_sum(*self, c, dsi, 0)) by {
                assert(t.at(c) == fs(c));
                crate::dtype::lemma_wrap_in_dtype(self.dtype_sp(), box_sum(*self, c, dsi, 0));
            }
            assert(fs =~= (|c: Seq<int>|
                (wrap_val(self.dtype_sp(), box_sum(*self, c, dsi, 0)) as i64)));
            assert(t.vals() == sum_grid(*self, dsi));
        }
        Ok(t)
    }
}

} // verus!

verus! {

/// The row-major values of the keep-dimensions multi-axis sum of `t`.
pub open spec fn sum_grid(t: Tensor, ds: Seq<int>) -> Seq<i64> {
    crate::dims::grid_all(
        |c: Seq<int>| (wrap_val(t.dtype_sp(), box_sum(t, c, ds, 0)) as i64),
        mask_dims(t.dims_sp(), ds),
    )
}

/// The row-major values of the keep-dimensions single-axis reduction of `t`.
pub open spec fn reduce_grid(t: Tensor, d: int, op: ReduceOp) -> Seq<i64> {
    crate::dims::grid_all(
        |c: Seq<int>| (red_val_sp(t, c, d, op) as i64),
        mask_dims(t.dims_sp(), seq![d]),
    )
}

/// The product of the listed axes' sizes: how many elements each reduction
/// cell sums over.
pub open spec fn listed_prod(dims: Seq<int>, ds: Seq<int>, i: int) -> int
    decreases ds.len() - i,
{
    if i < 0 || i >= ds.len() {
        1
    } else {
        dims[ds[i]] * listed_prod(dims, ds, i + 1)
    }
}

/// Masking the listed axes to one and then dropping them leaves the same
/// element count as dropping them directly; products agree suffix by suffix.
#[verifier::rlimit(50)]
#[verifier::spinoff_prover]
proof fn lemma_mask_filter_prod(kd: Seq<int>, ds: Seq<int>, j: int)
    requires
        0 <= j <= kd.len(),
        forall|i: int| 0 <= i < kd.len() && ds.contains(i) ==> #[trigger] kd[i] == 1,
    ensures
        prod(kd.skip(j)) == prod(filter_dims(kd, ds, j)),
        crate::dims::pos_prod(filter_dims(kd, ds, j)) <= crate::dims::pos_prod(kd.skip(j)),
    decreases kd.len() - j,
{
    if j == kd.len() {
        assert(kd.skip(j) =~= Seq::<int>::empty());
    } else {
        lemma_mask_filter_prod(kd, ds, j + 1);
        assert(kd.skip(j)[0] == kd[j]);
        assert(kd.skip(j).skip(1) =~= kd.skip(j + 1));
        crate::dims::lemma_pos_prod_pos(filter_dims(kd, ds, j + 1));
        crate::dims::lemma_pos_prod_pos(kd.skip(j + 1));
        if ds.contains(j) {
            assert(kd[j] == 1);
            assert(prod(kd.skip(j)) == 1 * prod(kd.skip(j + 1)));
            assert(crate::dims::pos_prod(kd.skip(j)) == crate::dims::pos1(1int)
                * crate::dims::pos_prod(kd.skip(j + 1)));
        } else {
            assert(filter_dims(kd, ds, j) == seq![kd[j]] + filter_dims(kd, ds, j + 1));
            assert((seq![kd[j]] + filter_dims(kd, ds, j + 1))[0] == kd[j]);
            assert((seq![kd[j]] + filter_dims(kd, ds, j + 1)).skip(1) =~= filter_dims(
                kd,
                ds,
                j + 1,
            ));
            assert(crate::dims::pos1(kd[j]) * crate::dims::pos_prod(filter_dims(kd, ds, j + 1))
                <= crate::dims::pos1(kd[j]) * crate::dims::pos_prod(kd.skip(j + 1)))
                by (nonlinear_arith)
                requires
                    crate::dims::pos1(kd[j]) >= 1,
                    1 <= crate::dims::pos_prod(filter_dims(kd, ds, j + 1))
                        <= crate::dims::pos_prod(kd.skip(j + 1)),
            ;
            assert(prod(filter_dims(kd, ds, j)) == kd[j] * prod(filter_dims(kd, ds, j + 1)));
            assert(crate::dims::pos_prod(filter_dims(kd, ds, j)) == crate::dims::pos1(kd[j])
                * crate::dims::pos_prod(filter_dims(kd, ds, j + 1)));
            assert(prod(kd.skip(j)) == kd[j] * prod(kd.skip(j + 1)));
            assert(crate::dims::pos_prod(kd.skip(j)) == crate::dims::pos1(kd[j])
                * crate::dims::pos_prod(kd.skip(j + 1)));
        }
        assert(prod(kd.skip(j)) == prod(filter_dims(kd, ds, j)));
        assert(crate::dims::pos_prod(filter_dims(kd, ds, j)) <= crate::dims::pos_prod(kd.skip(j)));
    }
}

/// Whether the integer list `ds` holds `j`.
fn list_contains(ds: &Vec<usize>, j: usize) -> (r: bool)
    ensures
        r == ints(ds@).contains(j as int),
{
    let n = ds.len();
    let mut m: usize = 0;
    while m < n
        invariant
            0 <= m <= n,
            n == ds@.len(),
            forall|i: int| 0 <= i < m ==> #[trigger] ints(ds@)[i] != j as int,
        decreases n - m,
    {
        if ds[m] == j {
            proof {
                assert(ints(ds@)[m as int] == j as int);
            }
            return true;
        }
        m = m + 1;
    }
    proof {
        if ints(ds@).contains(j as int) {
            let i0 = choose|i: int| 0 <= i < ds@.len() && #[trigger] ints(ds@)[i] == j as int;
            assert(false);
        }
    }
    false
}

impl Tensor {
    /// A keep-dimensions single-axis reduction.
    fn reduce_keep(&self, dim: usize, op: ReduceOp) -> (r: Result<Tensor, Error>)
        requires
            self.wf(),
            op == ReduceOp::Sum || (dim < self.dims_sp().len() ==> self.dims_sp()[dim as int]
                >= 1),
        ensures
            match r {
                Ok(t) => {
                    &&& dim < self.dims_sp().len()
                    &&& t.wf()
                    &&& t.dims_sp() == mask_dims(self.dims_sp(), seq![dim as int])
                    &&& t.dims_sp() == self.dims_sp().update(dim as int, 1int)
                    &&& t.dtype_sp() == red_dtype_sp(self.dtype_sp(), op)
                    &&& t.device_sp() == self.device_sp()
                    &&& t.vals() == reduce_grid(*self, dim as int, op)
                    &&& forall|c: Seq<int>|
                        coords_in(c, t.dims_sp()) ==> #[trigger] t.at(c) as int == red_val_sp(
                            *self,
                            c,
                            dim as int,
                            op,
                        )
                },
                Err(e) => {
                    &&& dim >= self.dims_sp().len()
                    &&& e matches Error::DimOutOfRange { .. }
                },
            },
    {
        let ghost dd = self.dims_sp();
        match self.check_dim(dim, op.name()) {
            Ok(()) => {},
            Err(e) => {
                return Err(e);
            },
        }
        let mut outdims = clone_dims(self.dims());
        outdims[dim] = 1;
        proof {
            assert(ints(outdims@) =~= mask_dims(dd, seq![dim as int])) by {
                assert forall|j: int|
                    0 <= j < dd.len() implies ints(outdims@)[j] == mask_dims(
                    dd,
                    seq![dim as int],
                )[j] by {
                    if j == dim {
                        assert(seq![dim as int][0] == j);
                        assert(seq![dim as int].contains(j));
                    } else {
                        assert(!seq![dim as int].contains(j)) by {
                            if seq![dim as int].contains(j) {
                                let i0 = choose|i: int|
                                    0 <= i < 1 && #[trigger] seq![dim as int][i] == j;
                                assert(seq![dim as int][0] == dim as int);
                            }
                        }
                    }
                }
            }
            assert(ints(outdims@) =~= dd.update(dim as int, 1int));
            self.lemma_dims_nonneg();
            assert forall|j: int|
                0 <= j < dd.len() implies crate::dims::pos1(#[trigger] ints(outdims@)[j])
                <= crate::dims::pos1(dd[j]) by {}
            crate::dims::lemma_pos_prod_le_pos1(ints(outdims@), dd);
            assert(shape_ok(ints(outdims@)));
            crate::dims::lemma_ints_nonneg(outdims@);
            lemma_shape_ok_suffix(ints(outdims@));
        }
        let dt = self.dtype();
        let rdt = match op {
            ReduceOp::ArgMax | ReduceOp::ArgMin => DType::U32,
            _ => dt,
        };
        let ghost fs = |c: Seq<int>| (red_val_sp(*self, c, dim as int, op) as i64);
        let cell = |cv: &Vec<usize>| -> (v: i64)
            requires
                coords_in(ints(cv@), ints(outdims@)),
            ensures
                v as int == red_val_sp(*self, ints(cv@), dim as int, op),
                in_dtype(red_dtype_sp(self.dtype_sp(), op), v as int),
            {
                proof {
                    assert(ints(cv@)[dim as int] == 0) by {
                        assert(ints(outdims@)[dim as int] == 1);
                    }
                    assert forall|j: int|
                        0 <= j < cv@.len() && j != dim implies 0 <= #[trigger] ints(cv@)[j]
                        < self.dims_sp()[j] by {
                        assert(ints(outdims@)[j] == self.dims_sp()[j]);
                    }
                }
                self.reduce_cell(cv, dim, op)
            };
        proof {
            assert forall|cq: Vec<usize>|
                coords_in(ints(cq@), ints(outdims@)) implies #[trigger] call_requires(
                cell,
                (&cq,),
            ) by {}
            assert forall|cq: Vec<usize>, v: i64|
                coords_in(ints(cq@), ints(outdims@)) && #[trigger] call_ensures(
                cell,
                (&cq,),
                v,
            ) implies v == fs(ints(cq@)) by {}
        }
        let out = build_grid(&outdims, &cell, Ghost(fs));
        let mut dsv: Vec<usize> = Vec::new();
        dsv.push(dim);
        let opedge = BackpropOp::new1(self, Op::Reduce(self.clone(), op, dsv));
        proof {
            assert forall|c: Seq<int>|
                coords_in(c, ints(outdims@)) implies in_dtype(rdt, #[trigger] fs(c) as int) by {
                lemma_red_val_range(*self, c, dim as int, op);
            }
        }
        let t = crate::tensor::grid_tensor(
            &outdims,
            out,
            Ghost(fs),
            opedge,
            rdt,
            *self.device(),
            self.fresh_id(),
        );
        proof {
            assert forall|c: Seq<int>| coords_in(c, t.dims_sp()) implies #[trigger] t.at(c) as int
                == red_val_sp(*self, c, dim as int, op) by {
                assert(t.at(c) == fs(c));
                lemma_red_val_range(*self, c, dim as int, op);
            }
            assert(fs =~= (|c: Seq<int>| (red_val_sp(*self, c, dim as int, op) as i64)));
            assert(t.vals() == reduce_grid(*self, dim as int, op));
        }
        Ok(t)
    }
}

/// A reduction value lies in the result dtype's range.
proof fn lemma_red_val_range(t: Tensor, c: Seq<int>, d: int, op: ReduceOp)
    requires
        t.wf(),
        0 <= d < t.dims_sp().len(),
        coords_in(c, mask_dims(t.dims_sp(), seq![d])),
        op == ReduceOp::Sum || t.dims_sp()[d] >= 1,
    ensures
        in_dtype(red_dtype_sp(t.dtype_sp(), op), red_val_sp(t, c, d, op)),
{
    assert(mask_dims(t.dims_sp(), seq![d]).len() == t.dims_sp().len());
    assert forall|j: int|
        0 <= j < c.len() && j != d implies 0 <= #[trigger] c[j] < t.dims_sp()[j] by {
        assert(!seq![d].contains(j)) by {
            if seq![d].contains(j) {
                let i0 = choose|i: int| 0 <= i < 1 && #[trigger] seq![d][i] == j;
                assert(seq![d][0] == d);
            }
        }
        assert(mask_dims(t.dims_sp(), seq![d])[j] == t.dims_sp()[j]);
    }
    match op {
        ReduceOp::Sum => {
            crate::dtype::lemma_wrap_in_dtype(t.dtype_sp(), axis_sum(t, c, d, t.dims_sp()[d]));
        },
        ReduceOp::Max | ReduceOp::Min => {
            lemma_axis_extremum_range(t, c, d, t.dims_sp()[d]);
        },
        ReduceOp::ArgMax | ReduceOp::ArgMin => {
            crate::dtype::lemma_wrap_in_dtype(DType::U32, axis_argmax(t, c, d, t.dims_sp()[d]));
            crate::dtype::lemma_wrap_in_dtype(DType::U32, axis_argmin(t, c, d, t.dims_sp()[d]));
        },
    }
}

} // verus!

verus! {

/// Filtering skips exactly the listed positions, so entries that agree off
/// the list filter identically.
proof fn lemma_filter_same(a: Seq<int>, b: Seq<int>, ds: Seq<int>, j: int)
    requires
        a.len() == b.len(),
        0 <= j,
        forall|i: int| 0 <= i < a.len() && !ds.contains(i) ==> #[trigger] a[i] == b[i],
    ensures
        filter_dims(a, ds, j) == filter_dims(b, ds, j),
    decreases a.len() - j,
{
    if j < a.len() {
        lemma_filter_same(a, b, ds, j + 1);
        if !ds.contains(j) {
            assert(a[j] == b[j]);
        }
    }
}

/// A list that covers every position from `j` on filters everything away.
proof fn lemma_filter_all(a: Seq<int>, ds: Seq<int>, j: int)
    requires
        0 <= j,
        forall|i: int| j <= i < a.len() ==> ds.contains(i),
    ensures
        filter_dims(a, ds, j).len() == 0,
    decreases a.len() - j,
{
    if j < a.len() {
        lemma_filter_all(a, ds, j + 1);
    }
}

impl Tensor {
    /// Reshapes away the listed axes of a keep-dimensions reduction result,
    /// whose shape is the original shape with those axes masked to one.
    fn drop_listed(&self, ds: &Vec<usize>, Ghost(dd0): Ghost<Seq<int>>) -> (r: Result<
        Tensor,
        Error,
    >)
        requires
            self.wf(),
            dd0.len() == self.dims_sp().len(),
            self.dims_sp() == mask_dims(dd0, ints(ds@)),
            forall|j: int| 0 <= j < dd0.len() ==> #[trigger] dd0[j] >= 0,
        ensures
            match r {
                Ok(t) => {
                    &&& t.wf()
                    &&& t.dims_sp() == filter_dims(dd0, ints(ds@), 0)
                    &&& t.vals() == self.vals()
                    &&& t.dtype_sp() == self.dtype_sp()
                    &&& t.device_sp() == self.device_sp()
                },
                Err(_) => false,
            },
    {
        let ghost dsi = ints(ds@);
        let ghost kd = self.dims_sp();
        let dims = self.dims();
        let n = dims.len();
        let mut built: Vec<usize> = Vec::new();
        let mut j: usize = 0;
        while j < n
            invariant
                0 <= j <= n,
                n == dims@.len(),
                kd == ints(dims@),
                kd == self.dims_sp(),
                dsi == ints(ds@),
                ints(built@) + filter_dims(kd, dsi, j as int) =~= filter_dims(kd, dsi, 0),
            decreases n - j,
        {
            let ghost pre = ints(built@);
            if !list_contains(ds, j) {
                built.push(dims[j]);
                proof {
                    assert(filter_dims(kd, dsi, j as int) == seq![kd[j as int]] + filter_dims(
                        kd,
                        dsi,
                        j + 1,
                    ));
                    assert(ints(built@) =~= pre + seq![kd[j as int]]);
                    assert(ints(built@) + filter_dims(kd, dsi, j + 1) =~= pre + filter_dims(
                        kd,
                        dsi,
                        j as int,
                    ));
                }
            } else {
                proof {
                    assert(filter_dims(kd, dsi, j as int) == filter_dims(kd, dsi, j + 1));
                }
            }
            j = j + 1;
        }
        proof {
            assert(filter_dims(kd, dsi, n as int).len() == 0);
            assert(ints(built@) + filter_dims(kd, dsi, n as int) =~= ints(built@));
            assert(ints(built@) == filter_dims(kd, dsi, 0));
            assert forall|i: int| 0 <= i < kd.len() && dsi.contains(i) implies #[trigger] kd[i]
                == 1 by {
                assert(mask_dims(dd0, dsi)[i] == 1);
            }
            lemma_mask_filter_prod(kd, dsi, 0);
            assert(kd.skip(0) =~= kd);
            self.lemma_dims_nonneg();
            crate::dims::lemma_pos_prod_le_pos1(kd, kd);
            assert(crate::dims::pos_prod(filter_dims(kd, dsi, 0)) <= crate::dims::pos_prod(kd));
            assert(shape_ok(ints(built@)));
            lemma_filter_same(dd0, kd, dsi, 0);
            assert(filter_dims(dd0, dsi, 0) == filter_dims(kd, dsi, 0));
        }
        let r = self.reshape(&built);
        match r {
            Ok(t) => Ok(t),
            Err(e) => {
                proof {
                    assert(false);
                }
                Err(e)
            },
        }
    }

    /// Sums over the listed dimensions and squeezes each away.
    pub fn sum(&self, ds: &Vec<usize>) -> (r: Result<Tensor, Error>)
        requires
            self.wf(),
            ints(ds@).no_duplicates(),
        ensures
            match r {
                Ok(t) => {
                    &&& forall|m: int|
                        0 <= m < ds@.len() ==> 0 <= #[trigger] ints(ds@)[m]
                            < self.dims_sp().len()
                    &&& t.wf()
                    &&& t.dims_sp() == filter_dims(self.dims_sp(), ints(ds@), 0)
                    &&& t.dtype_sp() == self.dtype_sp()
                    &&& t.device_sp() == self.device_sp()
                    &&& t.vals() == sum_grid(*self, ints(ds@))
                },
                Err(e) => {
                    &&& exists|m: int|
                        0 <= m < ds@.len() && #[trigger] ints(ds@)[m] >= self.dims_sp().len()
                    &&& e matches Error::DimOutOfRange { .. }
                },
            },
    {
        let keep = match self.sum_keepdim(ds) {
            Ok(t) => t,
            Err(e) => {
                return Err(e);
            },
        };
        proof {
            self.lemma_dims_nonneg();
        }
        let r = keep.drop_listed(ds, Ghost(self.dims_sp()));
        match r {
            Ok(t) => Ok(t),
            Err(e) => {
                proof {
                    assert(false);
                }
                Err(e)
            },
        }
    }

    /// Sums every element into a rank-0 tensor.
    pub fn sum_all(&self) -> (r: Result<Tensor, Error>)
        requires
            self.wf(),
        ensures
            match r {
                Ok(t) => {
                    &&& t.wf()
                    &&& t.dims_sp().len() == 0
                    &&& t.dtype_sp() == self.dtype_sp()
                    &&& t.device_sp() == self.device_sp()
                    &&& t.at(Seq::<int>::empty()) as int == wrap_val(
                        self.dtype_sp(),
                        box_sum(
                            *self,
                            Seq::new(self.dims_sp().len(), |i: int| 0int),
                            Seq::new(self.dims_sp().len(), |i: int| i),
                            0,
                        ),
                    )
                },
                Err(_) => false,
            },
    {
        let ghost dd = self.dims_sp();
        let rank = self.rank();
        let mut dsv: Vec<usize> = Vec::new();
        let mut j: usize = 0;
        while j < rank
            invariant
                0 <= j <= rank,
                dsv@.len() == j,
                forall|i: int| 0 <= i < j ==> #[trigger] ints(dsv@)[i] == i,
            decreases rank - j,
        {
            let ghost prevd = dsv@;
            dsv.push(j);
            proof {
                assert forall|i: int| 0 <= i < j + 1 implies #[trigger] ints(dsv@)[i] == i by {
                    if i < j {
                        assert(ints(prevd)[i] == i);
                        assert(dsv@[i] == prevd[i]);
                        assert(ints(dsv@)[i] == ints(prevd)[i]);
                    } else {
                        assert(dsv@[i] == j);
                    }
                }
            }
            j = j + 1;
        }
        let ghost dsi = ints(dsv@);
        proof {
            assert(dsi =~= Seq::new(dd.len(), |i: int| i));
            assert(dsi.no_duplicates());
        }
        let t = match self.sum(&dsv) {
            Ok(t) => t,
            Err(e) => {
                proof {
                    let m0 = choose|m: int|
                        0 <= m < dsv@.len() && #[trigger] ints(dsv@)[m] >= dd.len();
                    assert(false);
                }
                return Err(e);
            },
        };
        proof {
            assert forall|i: int| 0 <= i < dd.len() implies dsi.contains(i) by {
                assert(dsi[i] == i);
            }
            lemma_filter_all(dd, dsi, 0);
            assert(t.dims_sp().len() == 0);
            // the single element of the result grid sits at the all-zero
            // coordinates of the masked shape
            let kd = mask_dims(dd, dsi);
            let zc = Seq::new(dd.len(), |i: int| 0int);
            assert(coords_in(zc, kd)) by {
                assert forall|i: int| 0 <= i < dd.len() implies 0 <= #[trigger] zc[i] < kd[i] by {
                    assert(dsi.contains(i));
                }
            }
            let fsum = |c: Seq<int>| (wrap_val(self.dtype_sp(), box_sum(*self, c, dsi, 0)) as i64);
            crate::dims::lemma_grid_index(fsum, kd, zc);
            assert(flat_of(zc, kd) == 0) by {
                crate::dims::lemma_flat_dot(zc, kd);
                crate::dims::lemma_row_major_len(kd);
                crate::dims::lemma_dot_zero_left(crate::dims::row_major(kd), kd.len() as int);
                assert(crate::dims::row_major(kd).take(kd.len() as int) =~= crate::dims::row_major(
                    kd,
                ));
                assert(zc =~= Seq::new(kd.len(), |i: int| 0int));
            }
            t.lemma_vals_len();
            assert(t.vals()[0] == fsum(zc));
            t.lemma_at_vals(Seq::<int>::empty());
            assert(flat_of(Seq::<int>::empty(), t.dims_sp()) == 0);
            crate::dtype::lemma_wrap_in_dtype(self.dtype_sp(), box_sum(*self, zc, dsi, 0));
        }
        Ok(t)
    }
}

} // verus!

verus! {

impl Tensor {
    /// The greatest value along a dimension, kept as a one-element axis.
    /// The dimension must not be empty.
    pub fn max_keepdim(&self, dim: usize) -> (r: Result<Tensor, Error>)
        requires
            self.wf(),
            dim < self.dims_sp().len() ==> self.dims_sp()[dim as int] >= 1,
        ensures
            match r {
                Ok(t) => {
                    &&& dim < self.dims_sp().len()
                    &&& t.wf()
                    &&& t.dims_sp() == self.dims_sp().update(dim as int, 1int)
                    &&& t.dtype_sp() == self.dtype_sp()
                    &&& t.device_sp() == self.device_sp()
                    &&& forall|c: Seq<int>|
                        coords_in(c, t.dims_sp()) ==> #[trigger] t.at(c) as int == axis_max(
                            *self,
                            c,
                            dim as int,
                            self.dims_sp()[dim as int],
                        )
                },
                Err(e) => {
                    &&& dim >= self.dims_sp().len()
                    &&& e matches Error::DimOutOfRange { .. }
                },
            },
    {
        self.reduce_keep(dim, ReduceOp::Max)
    }

    /// The greatest value along a dimension, with the axis squeezed away.
    pub fn max(&self, dim: usize) -> (r: Result<Tensor, Error>)
        requires
            self.wf(),
            dim < self.dims_sp().len() ==> self.dims_sp()[dim as int] >= 1,
        ensures
            match r {
                Ok(t) => {
                    &&& dim < self.dims_sp().len()
                    &&& t.wf()
                    &&& t.dims_sp() == self.dims_sp().remove(dim as int)
                    &&& t.dtype_sp() == self.dtype_sp()
                    &&& t.device_sp() == self.device_sp()
                    &&& t.vals() == reduce_grid(*self, dim as int, ReduceOp::Max)
                },
                Err(e) => {
                    &&& dim >= self.dims_sp().len()
                    &&& e matches Error::DimOutOfRange { .. }
                },
            },
    {
        self.reduce_squeezed(dim, ReduceOp::Max)
    }

    /// The least value along a dimension, kept as a one-element axis.
    pub fn min_keepdim(&self, dim: usize) -> (r: Result<Tensor, Error>)
        requires
            self.wf(),
            dim < self.dims_sp().len() ==> self.dims_sp()[dim as int] >= 1,
        ensures
            match r {
                Ok(t) => {
                    &&& dim < self.dims_sp().len()
                    &&& t.wf()
                    &&& t.dims_sp() == self.dims_sp().update(dim as int, 1int)
                    &&& t.dtype_sp() == self.dtype_sp()
                    &&& t.device_sp() == self.device_sp()
                    &&& forall|c: Seq<int>|
                        coords_in(c, t.dims_sp()) ==> #[trigger] t.at(c) as int == axis_min(
                            *self,
                            c,
                            dim as int,
                            self.dims_sp()[dim as int],
                        )
                },
                Err(e) => {
                    &&& dim >= self.dims_sp().len()
                    &&& e matches Error::DimOutOfRange { .. }
                },
            },
    {
        self.reduce_keep(dim, ReduceOp::Min)
    }

    /// The least value along a dimension, with the axis squeezed away.
    pub fn min(&self, dim: usize) -> (r: Result<Tensor, Error>)
        requires
            self.wf(),
            dim < self.dims_sp().len() ==> self.dims_sp()[dim as int] >= 1,
        ensures
            match r {
                Ok(t) => {
                    &&& dim < self.dims_sp().len()
                    &&& t.wf()
                    &&& t.dims_sp() == self.dims_sp().remove(dim as int)
                    &&& t.dtype_sp() == self.dtype_sp()
                    &&& t.device_sp() == self.device_sp()
                    &&& t.vals() == reduce_grid(*self, dim as int, ReduceOp::Min)
                },
                Err(e) => {
                    &&& dim >= self.dims_sp().len()
                    &&& e matches Error::DimOutOfRange { .. }
                },
            },
    {
        self.reduce_squeezed(dim, ReduceOp::Min)
    }

    /// The index of the first greatest value along a dimension, kept as a
    /// one-element axis; ties go to the first occurrence.
    pub fn argmax_keepdim(&self, dim: usize) -> (r: Result<Tensor, Error>)
        requires
            self.wf(),
            dim < self.dims_sp().len() ==> self.dims_sp()[dim as int] >= 1,
        ensures
            match r {
                Ok(t) => {
                    &&& dim < self.dims_sp().len()
                    &&& t.wf()
                    &&& t.dims_sp() == self.dims_sp().update(dim as int, 1int)
                    &&& t.dtype_sp() == DType::U32
                    &&& t.device_sp() == self.device_sp()
                    &&& forall|c: Seq<int>|
                        coords_in(c, t.dims_sp()) ==> #[trigger] t.at(c) as int == wrap_val(
                            DType::U32,
                            axis_argmax(*self, c, dim as int, self.dims_sp()[dim as int]),
                        )
                },
                Err(e) => {
                    &&& dim >= self.dims_sp().len()
                    &&& e matches Error::DimOutOfRange { .. }
                },
            },
    {
        self.reduce_keep(dim, ReduceOp::ArgMax)
    }

    /// The index of the first greatest value along a dimension, with the
    /// axis squeezed away; ties go to the first occurrence.
    pub fn argmax(&self, dim: usize) -> (r: Result<Tensor, Error>)
        requires
            self.wf(),
            dim < self.dims_sp().len() ==> self.dims_sp()[dim as int] >= 1,
        ensures
            match r {
                Ok(t) => {
                    &&& dim < self.dims_sp().len()
                    &&& t.wf()
                    &&& t.dims_sp() == self.dims_sp().remove(dim as int)
                    &&& t.dtype_sp() == DType::U32
                    &&& t.device_sp() == self.device_sp()
                    &&& t.vals() == reduce_grid(*self, dim as int, ReduceOp::ArgMax)
                },
                Err(e) => {
                    &&& dim >= self.dims_sp().len()
                    &&& e matches Error::DimOutOfRange { .. }
                },
            },
    {
        self.reduce_squeezed(dim, ReduceOp::ArgMax)
    }

    /// The index of the first least value along a dimension, kept as a
    /// one-element axis; ties go to the first occurrence.
    pub fn argmin_keepdim(&self, dim: usize) -> (r: Result<Tensor, Error>)
        requires
            self.wf(),
            dim < self.dims_sp().len() ==> self.dims_sp()[dim as int] >= 1,
        ensures
            match r {
                Ok(t) => {
                    &&& dim < self.dims_sp().len()
                    &&& t.wf()
                    &&& t.dims_sp() == self.dims_sp().update(dim as int, 1int)
                    &&& t.dtype_sp() == DType::U32
                    &&& t.device_sp() == self.device_sp()
                    &&& forall|c: Seq<int>|
                        coords_in(c, t.dims_sp()) ==> #[trigger] t.at(c) as int == wrap_val(
                            DType::U32,
                            axis_argmin(*self, c, dim as int, self.dims_sp()[dim as int]),
                        )
                },
                Err(e) => {
                    &&& dim >= self.dims_sp().len()
                    &&& e matches Error::DimOutOfRange { .. }
                },
            },
    {
        self.reduce_keep(dim, ReduceOp::ArgMin)
    }

    /// The index of the first least value along a dimension, with the axis
    /// squeezed away; ties go to the first occurrence.
    pub fn argmin(&self, dim: usize) -> (r: Result<Tensor, Error>)
        requires
            self.wf(),
            dim < self.dims_sp().len() ==> self.dims_sp()[dim as int] >= 1,
        ensures
            match r {
                Ok(t) => {
                    &&& dim < self.dims_sp().len()
                    &&& t.wf()
                    &&& t.dims_sp() == self.dims_sp().remove(dim as int)
                    &&& t.dtype_sp() == DType::U32
                    &&& t.device_sp() == self.device_sp()
                    &&& t.vals() == reduce_grid(*self, dim as int, ReduceOp::ArgMin)
                },
                Err(e) => {
                    &&& dim >= self.dims_sp().len()
                    &&& e matches Error::DimOutOfRange { .. }
                },
            },
    {
        self.reduce_squeezed(dim, ReduceOp::ArgMin)
    }

    /// A single-axis reduction with the reduced axis squeezed away.
    fn reduce_squeezed(&self, dim: usize, op: ReduceOp) -> (r: Result<Tensor, Error>)
        requires
            self.wf(),
            op == ReduceOp::Sum || (dim < self.dims_sp().len() ==> self.dims_sp()[dim as int]
                >= 1),
        ensures
            match r {
                Ok(t) => {
                    &&& dim < self.dims_sp().len()
                    &&& t.wf()
                    &&& t.dims_sp() == self.dims_sp().remove(dim as int)
                    &&& t.dtype_sp() == red_dtype_sp(self.dtype_sp(), op)
                    &&& t.device_sp() == self.device_sp()
                    &&& t.vals() == reduce_grid(*self, dim as int, op)
                },
                Err(e) => {
                    &&& dim >= self.dims_sp().len()
                    &&& e matches Error::DimOutOfRange { .. }
                },
            },
    {
        let keep = match self.reduce_keep(dim, op) {
            Ok(t) => t,
            Err(e) => {
                return Err(e);
            },
        };
        let t = match keep.squeeze(dim) {
            Ok(t) => t,
            Err(e) => {
                proof {
                    assert(false);
                }
                return Err(e);
            },
        };
        proof {
            assert(keep.dims_sp()[dim as int] == 1);
            assert(t.dims_sp() =~= self.dims_sp().remove(dim as int)) by {
                keep.dims_sp().remove_ensures(dim as int);
                self.dims_sp().remove_ensures(dim as int);
                assert forall|i: int|
                    0 <= i < t.dims_sp().len() implies t.dims_sp()[i] == self.dims_sp().remove(
                    dim as int,
                )[i] by {
                    if i < dim {
                        assert(keep.dims_sp().remove(dim as int)[i] == keep.dims_sp()[i]);
                        assert(self.dims_sp().remove(dim as int)[i] == self.dims_sp()[i]);
                    } else {
                        assert(keep.dims_sp().remove(dim as int)[i] == keep.dims_sp()[i + 1]);
                        assert(self.dims_sp().remove(dim as int)[i] == self.dims_sp()[i + 1]);
                    }
                }
            }
        }
        Ok(t)
    }
}

} // verus!

verus! {

/// The row-major values of the keep-dimensions mean: each cell is the
/// wrapped sum divided, truncating toward zero, by the count of summed
/// elements.
pub open spec fn mean_grid(t: Tensor, ds: Seq<int>) -> Seq<i64> {
    crate::dims::grid_all(
        |c: Seq<int>|
            (crate::elementwise::tdiv(
                wrap_val(t.dtype_sp(), box_sum(t, c, ds, 0)),
                listed_prod(t.dims_sp(), ds, 0),
            ) as i64),
        mask_dims(t.dims_sp(), ds),
    )
}

/// Every factor and partial product of a positive listed product is
/// positive and no larger than the whole.
proof fn lemma_listed_prod_parts(dims: Seq<int>, ds: Seq<int>, i: int)
    requires
        0 <= i <= ds.len(),
        forall|m: int| 0 <= m < ds.len() ==> 0 <= #[trigger] ds[m] < dims.len(),
        forall|j: int| 0 <= j < dims.len() ==> #[trigger] dims[j] >= 0,
        listed_prod(dims, ds, 0) >= 1,
    ensures
        listed_prod(dims, ds, i) >= 1,
        forall|m: int| i <= m < ds.len() ==> #[trigger] dims[ds[m]] >= 1,
    decreases ds.len() - i,
{
    lemma_listed_prod_pos(dims, ds, 0, i);
    if i < ds.len() {
        assert(listed_prod(dims, ds, i) == dims[ds[i]] * listed_prod(dims, ds, i + 1));
        lemma_listed_prod_parts(dims, ds, i + 1);
        assert forall|m: int| i <= m < ds.len() implies #[trigger] dims[ds[m]] >= 1 by {
            if m == i {
                assert(dims[ds[i]] * listed_prod(dims, ds, i + 1) >= 1);
                crate::dims::lemma_prod_nonneg(Seq::<int>::empty());
                assert(dims[ds[i]] >= 1) by (nonlinear_arith)
                    requires
                        dims[ds[i]] * listed_prod(dims, ds, i + 1) >= 1,
                        dims[ds[i]] >= 0,
                ;
            }
        }
    }
}

/// A positive listed product has positive suffix products.
proof fn lemma_listed_prod_pos(dims: Seq<int>, ds: Seq<int>, i: int, upto: int)
    requires
        0 <= i <= upto <= ds.len(),
        forall|m: int| 0 <= m < ds.len() ==> 0 <= #[trigger] ds[m] < dims.len(),
        forall|j: int| 0 <= j < dims.len() ==> #[trigger] dims[j] >= 0,
        listed_prod(dims, ds, i) >= 1,
    ensures
        listed_prod(dims, ds, upto) >= 1,
    decreases upto - i,
{
    if i < upto {
        assert(listed_prod(dims, ds, i) == dims[ds[i]] * listed_prod(dims, ds, i + 1));
        assert(listed_prod(dims, ds, i + 1) >= 1) by (nonlinear_arith)
            requires
                dims[ds[i]] * listed_prod(dims, ds, i + 1) >= 1,
                dims[ds[i]] >= 0,
                listed_prod(dims, ds, i + 1) >= 0 || listed_prod(dims, ds, i + 1) < 0,
        ;
        lemma_listed_prod_pos(dims, ds, i + 1, upto);
    }
}

impl Tensor {
    /// The mean over the listed dimensions, kept as one-element axes: the
    /// wrapped sum of each cell divided, truncating toward zero, by the
    /// count of elements summed. The count must be positive and fit the
    /// machine.
    pub fn mean_keepdim(&self, ds: &Vec<usize>) -> (r: Result<Tensor, Error>)
        requires
            self.wf(),
            ints(ds@).no_duplicates(),
            listed_prod(self.dims_sp(), ints(ds@), 0) >= 1,
            listed_prod(self.dims_sp(), ints(ds@), 0) <= i64::MAX,
            listed_prod(self.dims_sp(), ints(ds@), 0) <= usize::MAX,
        ensures
            match r {
                Ok(t) => {
                    &&& forall|m: int|
                        0 <= m < ds@.len() ==> 0 <= #[trigger] ints(ds@)[m]
                            < self.dims_sp().len()
                    &&& t.wf()
                    &&& t.dims_sp() == mask_dims(self.dims_sp(), ints(ds@))
                    &&& t.dtype_sp() == self.dtype_sp()
                    &&& t.device_sp() == self.device_sp()
                    &&& t.vals() == mean_grid(*self, ints(ds@))
                    &&& forall|c: Seq<int>|
                        coords_in(c, t.dims_sp()) ==> #[trigger] t.at(c) as int
                            == crate::elementwise::tdiv(
                            wrap_val(self.dtype_sp(), box_sum(*self, c, ints(ds@), 0)),
                            listed_prod(self.dims_sp(), ints(ds@), 0),
                        )
                },
                Err(e) => {
                    &&& exists|m: int|
                        0 <= m < ds@.len() && #[trigger] ints(ds@)[m] >= self.dims_sp().len()
                    &&& e matches Error::DimOutOfRange { .. }
                },
            },
    {
        let ghost dd = self.dims_sp();
        let ghost dsi = ints(ds@);
        let s = match self.sum_keepdim(ds) {
            Ok(t) => t,
            Err(e) => {
                return Err(e);
            },
        };
        proof {
            self.lemma_dims_nonneg();
            lemma_listed_prod_parts(dd, dsi, 0);
        }
        // the number of elements each cell summed over
        let nds = ds.len();
        let dimsv = self.dims();
        let mut n: usize = 1;
        let mut m: usize = 0;
        while m < nds
            invariant
                0 <= m <= nds,
                nds == ds@.len(),
                dd == ints(dimsv@),
                dd == self.dims_sp(),
                dsi == ints(ds@),
                forall|mm: int| 0 <= mm < nds ==> 0 <= #[trigger] dsi[mm] < dd.len(),
                forall|j: int| 0 <= j < dd.len() ==> #[trigger] dd[j] >= 0,
                listed_prod(dd, dsi, 0) >= 1,
                listed_prod(dd, dsi, 0) <= usize::MAX,
                n >= 1,
                n * listed_prod(dd, dsi, m as int) == listed_prod(dd, dsi, 0),
            decreases nds - m,
        {
            let ghost rest = listed_prod(dd, dsi, m as int);
            let ghost rest2 = listed_prod(dd, dsi, m + 1);
            proof {
                assert(rest == dd[dsi[m as int]] * rest2);
                lemma_listed_prod_pos(dd, dsi, 0, m as int);
                lemma_listed_prod_pos(dd, dsi, 0, m + 1);
                assert(dd[dsi[m as int]] >= 1);
                assert((n * dd[dsi[m as int]]) * rest2 == n * rest) by (nonlinear_arith)
                    requires
                        rest == dd[dsi[m as int]] * rest2,
                ;
                assert(n * dd[dsi[m as int]] <= listed_prod(dd, dsi, 0)) by (nonlinear_arith)
                    requires
                        (n * dd[dsi[m as int]]) * rest2 == listed_prod(dd, dsi, 0),
                        rest2 >= 1,
                        n >= 1,
                        dd[dsi[m as int]] >= 1,
                ;
                assert(n * dd[dsi[m as int]] >= 1) by (nonlinear_arith)
                    requires
                        n >= 1,
                        dd[dsi[m as int]] >= 1,
                ;
            }
            n = n * dimsv[ds[m]];
            m = m + 1;
        }
        proof {
            assert(listed_prod(dd, dsi, nds as int) == 1);
            assert(n == listed_prod(dd, dsi, 0));
        }
        let n64: i64 = n as i64;
        let data = s.materialize_self();
        let dt = self.dtype();
        let mut out: Vec<i64> = Vec::new();
        let mut i: usize = 0;
        let cnt = data.len();
        while i < cnt
            invariant
                0 <= i <= cnt,
                cnt == data@.len(),
                out@.len() == i,
                n64 as int == listed_prod(dd, dsi, 0),
                n64 >= 1,
                forall|k: int| 0 <= k < cnt ==> in_dtype(dt, #[trigger] data@[k] as int),
                forall|k: int| 0 <= k < i ==> #[trigger] out@[k] as int
                    == crate::elementwise::tdiv(data@[k] as int, n64 as int),
                forall|k: int| 0 <= k < i ==> in_dtype(dt, #[trigger] out@[k] as int),
            decreases cnt - i,
        {
            let x = data[i];
            let v = crate::elementwise::div_by(x, n64);
            proof {
                match dt {
                    DType::U8 | DType::U32 => {
                        crate::elementwise::lemma_tdiv_unsigned_pub(dt, x as int, n64 as int);
                    },
                    DType::I64 => {},
                }
            }
            out.push(v);
            i = i + 1;
        }
        let opedge = BackpropOp::new1(self, Op::Reduce(self.clone(), ReduceOp::Sum, clone_dims(ds)));
        let t = from_storage(
            out,
            s.shape().clone(),
            opedge,
            false,
            dt,
            *self.device(),
            self.fresh_id(),
        );
        proof {
            s.lemma_vals_len();
            assert forall|c: Seq<int>| coords_in(c, t.dims_sp()) implies #[trigger] t.at(c) as int
                == crate::elementwise::tdiv(
                wrap_val(self.dtype_sp(), box_sum(*self, c, dsi, 0)),
                listed_prod(dd, dsi, 0),
            ) by {
                s.lemma_at_vals(c);
                t.lemma_at_vals(c);
            }
            let fm = |c: Seq<int>|
                (crate::elementwise::tdiv(
                    wrap_val(self.dtype_sp(), box_sum(*self, c, dsi, 0)),
                    listed_prod(dd, dsi, 0),
                ) as i64);
            assert(t.vals() =~= crate::dims::grid_all(fm, mask_dims(dd, dsi))) by {
                crate::dims::lemma_ints_nonneg(ds@);
                assert forall|j: int|
                    0 <= j < mask_dims(dd, dsi).len() implies #[trigger] mask_dims(dd, dsi)[j]
                    >= 0 by {
                    self.lemma_dims_nonneg();
                }
                crate::dims::lemma_grid_all_len(fm, mask_dims(dd, dsi));
                t.lemma_vals_len();
                assert forall|i2: int|
                    0 <= i2 < t.vals().len() implies t.vals()[i2] == crate::dims::grid_all(
                    fm,
                    mask_dims(dd, dsi),
                )[i2] by {
                    t.lemma_dims_nonneg();
                    crate::dims::lemma_flat_all_elem(
                        t.st(),
                        t.dims_sp(),
                        t.strides_sp(),
                        t.off_sp(),
                        i2,
                    );
                    let c = choose|c: Seq<int>|
                        coords_in(c, t.dims_sp()) && flat_of(c, t.dims_sp()) == i2 && t.vals()[i2]
                            == t.st()[#[trigger] phys(t.off_sp(), c, t.strides_sp())];
                    t.lemma_at_vals(c);
                    crate::dims::lemma_grid_index(fm, mask_dims(dd, dsi), c);
                }
            }
        }
        Ok(t)
    }

    /// The mean over the listed dimensions, squeezed away.
    pub fn mean(&self, ds: &Vec<usize>) -> (r: Result<Tensor, Error>)
        requires
            self.wf(),
            ints(ds@).no_duplicates(),
            listed_prod(self.dims_sp(), ints(ds@), 0) >= 1,
            listed_prod(self.dims_sp(), ints(ds@), 0) <= i64::MAX,
            listed_prod(self.dims_sp(), ints(ds@), 0) <= usize::MAX,
        ensures
            match r {
                Ok(t) => {
                    &&& t.wf()
                    &&& t.dims_sp() == filter_dims(self.dims_sp(), ints(ds@), 0)
                    &&& t.dtype_sp() == self.dtype_sp()
                    &&& t.device_sp() == self.device_sp()
                    &&& t.vals() == mean_grid(*self, ints(ds@))
                },
                Err(e) => {
                    &&& exists|m: int|
                        0 <= m < ds@.len() && #[trigger] ints(ds@)[m] >= self.dims_sp().len()
                    &&& e matches Error::DimOutOfRange { .. }
                },
            },
    {
        let keep = match self.mean_keepdim(ds) {
            Ok(t) => t,
            Err(e) => {
                return Err(e);
            },
        };
        proof {
            self.lemma_dims_nonneg();
        }
        let r = keep.drop_listed(ds, Ghost(self.dims_sp()));
        match r {
            Ok(t) => Ok(t),
            Err(e) => {
                proof {
                    assert(false);
                }
                Err(e)
            },
        }
    }
}

} // verus!

verus! {

/// Over the list of every axis in order, the listed product is the element
/// count.
proof fn lemma_listed_prod_full(dims: Seq<int>, ds: Seq<int>, i: int)
    requires
        ds.len() == dims.len(),
        forall|m: int| 0 <= m < ds.len() ==> #[trigger] ds[m] == m,
        0 <= i <= ds.len(),
    ensures
        listed_prod(dims, ds, i) == prod(dims.skip(i)),
    decreases ds.len() - i,
{
    if i == ds.len() {
        assert(dims.skip(i) =~= Seq::<int>::empty());
    } else {
        lemma_listed_prod_full(dims, ds, i + 1);
        assert(dims.skip(i)[0] == dims[i]);
        assert(dims.skip(i).skip(1) =~= dims.skip(i + 1));
        assert(ds[i] == i);
    }
}

impl Tensor {
    /// The mean of every element, as a rank-0 tensor: the wrapped total
    /// divided, truncating toward zero, by the element count, which must be
    /// positive and fit the machine.
    pub fn mean_all(&self) -> (r: Result<Tensor, Error>)
        requires
            self.wf(),
            1 <= self.count_sp(),
            self.count_sp() <= i64::MAX,
        ensures
            match r {
                Ok(t) => {
                    &&& t.wf()
                    &&& t.dims_sp().len() == 0
                    &&& t.dtype_sp() == self.dtype_sp()
                    &&& t.device_sp() == self.device_sp()
                    &&& t.at(Seq::<int>::empty()) as int == crate::elementwise::tdiv(
                        wrap_val(
                            self.dtype_sp(),
                            box_sum(
                                *self,
                                Seq::new(self.dims_sp().len(), |i: int| 0int),
                                Seq::new(self.dims_sp().len(), |i: int| i),
                                0,
                            ),
                        ),
                        self.count_sp(),
                    )
                },
                Err(_) => false,
            },
    {
        let ghost dd = self.dims_sp();
        let rank = self.rank();
        let mut dsv: Vec<usize> = Vec::new();
        let mut j: usize = 0;
        while j < rank
            invariant
                0 <= j <= rank,
                dsv@.len() == j,
                forall|i: int| 0 <= i < j ==> #[trigger] ints(dsv@)[i] == i,
            decreases rank - j,
        {
            let ghost prevd = dsv@;
            dsv.push(j);
            proof {
                assert forall|i: int| 0 <= i < j + 1 implies #[trigger] ints(dsv@)[i] == i by {
                    if i < j {
                        assert(ints(prevd)[i] == i);
                        assert(dsv@[i] == prevd[i]);
                        assert(ints(dsv@)[i] == ints(prevd)[i]);
                    } else {
                        assert(dsv@[i] == j);
                    }
                }
            }
            j = j + 1;
        }
        let ghost dsi = ints(dsv@);
        proof {
            assert(dsi.no_duplicates());
            lemma_listed_prod_full(dd, dsi, 0);
            assert(dd.skip(0) =~= dd);
            assert(listed_prod(dd, dsi, 0) == self.count_sp());
            self.lemma_dims_nonneg();
            crate::dims::lemma_prod_le_pos_prod(dd);
            assert(self.count_sp() <= usize::MAX);
        }
        let t = match self.mean(&dsv) {
            Ok(t) => t,
            Err(e) => {
                proof {
                    let m0 = choose|m: int|
                        0 <= m < dsv@.len() && #[trigger] ints(dsv@)[m] >= dd.len();
                    assert(false);
                }
                return Err(e);
            },
        };
        proof {
            assert forall|i: int| 0 <= i < dd.len() implies dsi.contains(i) by {
                assert(dsi[i] == i);
            }
            lemma_filter_all(dd, dsi, 0);
            assert(t.dims_sp().len() == 0);
            let kd = mask_dims(dd, dsi);
            let zc = Seq::new(dd.len(), |i: int| 0int);
            assert(coords_in(zc, kd)) by {
                assert forall|i: int| 0 <= i < dd.len() implies 0 <= #[trigger] zc[i] < kd[i] by {
                    assert(dsi.contains(i));
                }
            }
            let fm = |c: Seq<int>|
                (crate::elementwise::tdiv(
                    wrap_val(self.dtype_sp(), box_sum(*self, c, dsi, 0)),
                    listed_prod(dd, dsi, 0),
                ) as i64);
            crate::dims::lemma_grid_index(fm, kd, zc);
            assert(flat_of(zc, kd) == 0) by {
                crate::dims::lemma_flat_dot(zc, kd);
                crate::dims::lemma_row_major_len(kd);
                crate::dims::lemma_dot_zero_left(crate::dims::row_major(kd), kd.len() as int);
                assert(crate::dims::row_major(kd).take(kd.len() as int) =~= crate::dims::row_major(
                    kd,
                ));
                assert(zc =~= Seq::new(kd.len(), |i: int| 0int));
            }
            t.lemma_vals_len();
            assert(t.vals()[0] == fm(zc));
            t.lemma_at_vals(Seq::<int>::empty());
            assert(flat_of(Seq::<int>::empty(), t.dims_sp()) == 0);
            // the quotient of an in-range wrapped sum is representable
            crate::dtype::lemma_wrap_in_dtype(self.dtype_sp(), box_sum(*self, zc, dsi, 0));
            crate::elementwise::lemma_tdiv_bounds(
                wrap_val(self.dtype_sp(), box_sum(*self, zc, dsi, 0)),
                self.count_sp(),
            );
            assert(dsi =~= Seq::new(dd.len(), |i: int| i));
            assert(zc =~= Seq::new(dd.len(), |i: int| 0int));
        }
        Ok(t)
    }
}

} // verus!
