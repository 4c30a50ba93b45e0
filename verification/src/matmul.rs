//! Batched matrix multiplication: both operands share their leading batch
//! dimensions and contract over one shared inner dimension, with the
//! products and the running sum wrapping in the operands' dtype.

use vstd::prelude::*;
use crate::dims::{coords_in, ints, lemma_shape_ok_suffix, phys, prod, shape_ok};
use crate::dtype::{in_dtype, wrap_val, DType};
use crate::error::Error;
use crate::kernel::build_grid;
use crate::op::{BackpropOp, Op};
use crate::shape::clone_dims;
use crate::tensor::{Tensor};

verus! {

/// The wrapped running sum of the first `j` products of a result cell: the
/// result coordinates `c` carry the batch indices, the row index second to
/// last and the column index last; the contraction index replaces the last
/// coordinate for the left operand and the second-to-last for the right.
pub open spec fn mm_sum(a: Tensor, b: Tensor, c: Seq<int>, j: int) -> int
    decreases j,
{
    let ll = c.len() as int;
    if j <= 0 {
        0
    } else {
        mm_sum(a, b, c, j - 1) + wrap_val(
            a.dtype_sp(),
            a.at(c.update(ll - 1, j - 1)) * b.at(c.update(ll - 2, j - 1)),
        )
    }
}

/// Whether two shapes are compatible for matrix multiplication: equal rank
/// of at least two, identical batch dimensions, and a shared inner
/// dimension.
pub open spec fn mm_compat(ad: Seq<int>, bd: Seq<int>) -> bool {
    &&& ad.len() >= 2
    &&& bd.len() == ad.len()
    &&& forall|j: int| 0 <= j < ad.len() - 2 ==> #[trigger] ad[j] == bd[j]
    &&& ad[ad.len() - 1] == bd[bd.len() - 2]
}

/// The shape of a matrix product: the left operand's shape with the last
/// dimension replaced by the right operand's column count.
pub open spec fn mm_shape(ad: Seq<int>, bd: Seq<int>) -> Seq<int> {
    ad.update(ad.len() - 1, bd[bd.len() - 1])
}

impl Tensor {
    /// One cell of the matrix product.
    fn mm_cell(&self, b: &Tensor, cv: &Vec<usize>) -> (r: i64)
        requires
            self.wf(),
            b.wf(),
            self.dtype_sp() == b.dtype_sp(),
            mm_compat(self.dims_sp(), b.dims_sp()),
            coords_in(ints(cv@), mm_shape(self.dims_sp(), b.dims_sp())),
        ensures
            r as int == wrap_val(
                self.dtype_sp(),
                mm_sum(*self, *b, ints(cv@), self.dims_sp()[self.dims_sp().len() - 1]),
            ),
            in_dtype(self.dtype_sp(), r as int),
    {
        let ghost ci = ints(cv@);
        let ghost ad = self.dims_sp();
        let ghost bd = b.dims_sp();
        let dt = self.dtype();
        let ll = cv.len();
        let dimsv = self.dims();
        let kk = dimsv[ll - 1];
        let (sta, laya) = self.storage_and_layout();
        let stra = laya.stride();
        let offa = laya.start_offset();
        let (stb, layb) = b.storage_and_layout();
        let strb = layb.stride();
        let offb = layb.start_offset();
        let mut ca = clone_dims(cv);
        let mut cb = clone_dims(cv);
        let mut acc: i64 = 0;
        let mut j: usize = 0;
        proof {
            crate::dtype::lemma_wrap_id(dt, 0);
            self.lemma_dims_nonneg();
            b.lemma_dims_nonneg();
            assert forall|v: int|
                0 <= v < ad[ll - 1] implies coords_in(#[trigger] ci.update(ll - 1, v), ad)
                && coords_in(ci.update(ll - 2, v), bd) by {
                let cau = ci.update(ll - 1, v);
                let cbu = ci.update(ll - 2, v);
                assert forall|x: int| 0 <= x < cau.len() implies 0 <= #[trigger] cau[x]
                    < ad[x] by {
                    if x != ll - 1 {
                        assert(cau[x] == ci[x]);
                        assert(mm_shape(ad, bd)[x] == ad[x]);
                    }
                }
                assert forall|x: int| 0 <= x < cbu.len() implies 0 <= #[trigger] cbu[x]
                    < bd[x] by {
                    if x != ll - 2 {
                        assert(cbu[x] == ci[x]);
                        if x == ll - 1 {
                            assert(mm_shape(ad, bd)[x] == bd[x]);
                        } else {
                            assert(mm_shape(ad, bd)[x] == ad[x] && ad[x] == bd[x]);
                        }
                    } else {
                        assert(cbu[x] == v && bd[ll - 2] == ad[ll - 1]);
                    }
                }
            }
        }
        while j < kk
            invariant
                0 <= j <= kk,
                self.wf(),
                b.wf(),
                dt == self.dtype_sp(),
                dt == b.dtype_sp(),
                ad == self.dims_sp(),
                bd == b.dims_sp(),
                mm_compat(ad, bd),
                ci == ints(cv@),
                coords_in(ci, mm_shape(ad, bd)),
                ll == cv@.len(),
                ll == ad.len(),
                ll >= 2,
                kk == ad[ll - 1],
                ca@.len() == ll,
                cb@.len() == ll,
                forall|x: int| 0 <= x < ll && x != ll - 1 ==> #[trigger] ca@[x] == cv@[x],
                forall|x: int| 0 <= x < ll && x != ll - 2 ==> #[trigger] cb@[x] == cv@[x],
                sta@ == self.st(),
                ints(stra@) == self.strides_sp(),
                offa == self.off_sp(),
                stb@ == b.st(),
                ints(strb@) == b.strides_sp(),
                offb == b.off_sp(),
                forall|v: int|
                    0 <= v < ad[ll - 1] ==> coords_in(#[trigger] ci.update(ll - 1, v), ad)
                        && coords_in(ci.update(ll - 2, v), bd),
                acc as int == wrap_val(dt, mm_sum(*self, *b, ci, j as int)),
                in_dtype(dt, acc as int),
            decreases kk - j,
        {
            ca[ll - 1] = j;
            cb[ll - 2] = j;
            proof {
                assert(ints(ca@) =~= ci.update(ll - 1, j as int));
                assert(ints(cb@) =~= ci.update(ll - 2, j as int));
                assert(coords_in(ints(ca@), ad));
                assert(coords_in(ints(cb@), bd));
                crate::dims::lemma_ints_nonneg(ca@);
                crate::dims::lemma_ints_nonneg(cb@);
                assert(phys(offa as int, ints(ca@), ints(stra@)) < sta@.len());
                assert(phys(offb as int, ints(cb@), ints(strb@)) < stb@.len());
            }
            let xa = crate::kernel::read_at(sta, stra, offa, &ca);
            let xb = crate::kernel::read_at(stb, strb, offb, &cb);
            proof {
                assert(xa == self.at(ci.update(ll - 1, j as int)));
                assert(xb == b.at(ci.update(ll - 2, j as int)));
                assert(in_dtype(dt, xa as int) && in_dtype(dt, xb as int));
            }
            let p = crate::dtype::wrap_mul(dt, xa, xb);
            proof {
                crate::dtype::lemma_wrap_absorb(
                    dt,
                    mm_sum(*self, *b, ci, j as int),
                    wrap_val(dt, xa * xb),
                );
            }
            acc = crate::dtype::wrap_add(dt, acc, p);
            j = j + 1;
        }
        acc
    }

    /// The batched matrix product of this tensor (shape `b..., m, k`) with
    /// `rhs` (shape `b..., k, n`), of shape `b..., m, n`: each cell is the
    /// contraction over the shared inner dimension, wrapping in the dtype.
    pub fn matmul(&self, rhs: &Tensor) -> (r: Result<Tensor, Error>)
        requires
            self.wf(),
            rhs.wf(),
            mm_compat(self.dims_sp(), rhs.dims_sp()) ==> shape_ok(
                mm_shape(self.dims_sp(), rhs.dims_sp()),
            ),
        ensures
            match r {
                Ok(t) => {
                    &&& mm_compat(self.dims_sp(), rhs.dims_sp())
                    &&& self.dtype_sp() == rhs.dtype_sp()
                    &&& t.wf()
                    &&& t.dims_sp() == mm_shape(self.dims_sp(), rhs.dims_sp())
                    &&& t.dtype_sp() == self.dtype_sp()
                    &&& t.device_sp() == self.device_sp()
                    &&& forall|c: Seq<int>|
                        coords_in(c, t.dims_sp()) ==> #[trigger] t.at(c) as int == wrap_val(
                            self.dtype_sp(),
                            mm_sum(*self, *rhs, c, self.dims_sp()[self.dims_sp().len() - 1]),
                        )
                },
                Err(e) => {
                    ||| (!mm_compat(self.dims_sp(), rhs.dims_sp()) && (e
                        matches Error::ShapeMismatchBinaryOp { lhs, rhs: r2, .. } && lhs@
                        == self.dims_sp() && r2@ == rhs.dims_sp()))
                    ||| (mm_compat(self.dims_sp(), rhs.dims_sp()) && self.dtype_sp()
                        != rhs.dtype_sp() && (e matches Error::DTypeMismatchBinaryOp { .. }))
                },
            },
    {
        let ghost ad = self.dims_sp();
        let ghost bd = rhs.dims_sp();
        let adims = self.dims();
        let bdims = rhs.dims();
        let la = adims.len();
        let lb = bdims.len();
        if la < 2 || lb != la {
            proof {
                assert(!mm_compat(ad, bd));
            }
            return Err(
                Error::ShapeMismatchBinaryOp {
                    lhs: self.shape().clone(),
                    rhs: rhs.shape().clone(),
                    op: "matmul",
                },
            );
        }
        let mut j: usize = 0;
        while j < la - 2
            invariant
                0 <= j <= la - 2,
                la >= 2,
                la == adims@.len(),
                la == bdims@.len(),
                ad == ints(adims@),
                bd == ints(bdims@),
                ad == self.dims_sp(),
                bd == rhs.dims_sp(),
                forall|x: int| 0 <= x < j ==> #[trigger] ad[x] == bd[x],
            decreases la - 2 - j,
        {
            if adims[j] != bdims[j] {
                proof {
                    assert(ad[j as int] == adims@[j as int] as int);
                    assert(bd[j as int] == bdims@[j as int] as int);
                    assert(ad[j as int] != bd[j as int]);
                    assert(!mm_compat(ad, bd));
                }
                return Err(
                    Error::ShapeMismatchBinaryOp {
                        lhs: self.shape().clone(),
                        rhs: rhs.shape().clone(),
                        op: "matmul",
                    },
                );
            }
            j = j + 1;
        }
        if adims[la - 1] != bdims[la - 2] {
            proof {
                assert(ad[la - 1] == adims@[la - 1] as int);
                assert(bd[la - 2] == bdims@[la - 2] as int);
                assert(ad[ad.len() - 1] != bd[bd.len() - 2]);
                assert(!mm_compat(ad, bd));
            }
            return Err(
                Error::ShapeMismatchBinaryOp {
                    lhs: self.shape().clone(),
                    rhs: rhs.shape().clone(),
                    op: "matmul",
                },
            );
        }
        if !crate::elementwise::dtype_same(self.dtype(), rhs.dtype()) {
            return Err(
                Error::DTypeMismatchBinaryOp {
                    lhs: self.dtype(),
                    rhs: rhs.dtype(),
                    op: "matmul",
                },
            );
        }
        proof {
            assert(mm_compat(ad, bd));
        }
        let mut outdims = clone_dims(adims);
        outdims[la - 1] = bdims[lb - 1];
        proof {
            assert(ints(outdims@) =~= mm_shape(ad, bd));
            crate::dims::lemma_ints_nonneg(outdims@);
            lemma_shape_ok_suffix(ints(outdims@));
        }
        let dt = self.dtype();
        let ghost fs = |c: Seq<int>|
            (wrap_val(self.dtype_sp(), mm_sum(*self, *rhs, c, ad[ad.len() - 1])) as i64);
        let cell = |cv: &Vec<usize>| -> (v: i64)
            requires
                coords_in(ints(cv@), ints(outdims@)),
            ensures
                v as int == wrap_val(
                    self.dtype_sp(),
                    mm_sum(
                        *self,
                        *rhs,
                        ints(cv@),
                        self.dims_sp()[self.dims_sp().len() - 1],
                    ),
                ),
                in_dtype(self.dtype_sp(), v as int),
            { self.mm_cell(rhs, cv) };
        proof {
            assert forall|cq: Vec<usize>|
                coords_in(ints(cq@), ints(outdims@)) implies #[trigger] call_requires(
                cell,
                (&cq,),
            ) by {}
            assert forall|cq: Vec<usize>, v: i64|
                coords_in(ints(cq@), ints(outdims@)) && #[trigger] call_ensures(
                cell,
                (&cq,),
                v,
            ) implies v == fs(ints(cq@)) by {
                crate::dtype::lemma_wrap_in_dtype(
                    self.dtype_sp(),
                    mm_sum(*self, *rhs, ints(cq@), ad[ad.len() - 1]),
                );
            }
        }
        let out = build_grid(&outdims, &cell, Ghost(fs));
        let opedge = BackpropOp::new2(self, rhs, Op::Matmul(self.clone(), rhs.clone()));
        proof {
            assert forall|c: Seq<int>|
                coords_in(c, ints(outdims@)) implies in_dtype(dt, #[trigger] fs(c) as int) by {
                crate::dtype::lemma_wrap_in_dtype(dt, mm_sum(*self, *rhs, c, ad[ad.len() - 1]));
            }
        }
        let t = crate::tensor::grid_tensor(
            &outdims,
            out,
            Ghost(fs),
            opedge,
            dt,
            *self.device(),
            self.fresh_id_with(rhs),
        );
        proof {
            assert forall|c: Seq<int>| coords_in(c, t.dims_sp()) implies #[trigger] t.at(c) as int
                == wrap_val(self.dtype_sp(), mm_sum(*self, *rhs, c, ad[ad.len() - 1])) by {
                assert(t.at(c) == fs(c));
                crate::dtype::lemma_wrap_in_dtype(dt, mm_sum(*self, *rhs, c, ad[ad.len() - 1]));
            }
        }
        Ok(t)
    }
}

} // verus!

verus! {

use crate::elementwise::{bcast_pair_ok, bcast_shape, lemma_bcast_shape_ok};
use crate::dims::{bcast_src, broadcast_ok};

/// Whether two shapes are compatible for broadcast matrix multiplication:
/// rank at least two on both sides, a shared inner dimension, and batch
/// prefixes that broadcast against each other.
pub open spec fn bmm_compat(ad: Seq<int>, bd: Seq<int>) -> bool {
    &&& ad.len() >= 2
    &&& bd.len() >= 2
    &&& ad[ad.len() - 1] == bd[bd.len() - 2]
    &&& bcast_pair_ok(ad.take(ad.len() - 2), bd.take(bd.len() - 2))
}

/// The broadcast batch prefix of a broadcast matrix product.
pub open spec fn bmm_batch(ad: Seq<int>, bd: Seq<int>) -> Seq<int> {
    bcast_shape(ad.take(ad.len() - 2), bd.take(bd.len() - 2))
}

/// The left operand's broadcast shape: the common batch prefix followed by
/// its own matrix dimensions.
pub open spec fn bmm_lshape(ad: Seq<int>, bd: Seq<int>) -> Seq<int> {
    bmm_batch(ad, bd) + ad.skip(ad.len() - 2)
}

/// The right operand's broadcast shape.
pub open spec fn bmm_rshape(ad: Seq<int>, bd: Seq<int>) -> Seq<int> {
    bmm_batch(ad, bd) + bd.skip(bd.len() - 2)
}

/// The shape of a broadcast matrix product: the common batch prefix, the
/// left row count, and the right column count.
pub open spec fn bmm_shape(ad: Seq<int>, bd: Seq<int>) -> Seq<int> {
    bmm_batch(ad, bd) + seq![ad[ad.len() - 2], bd[bd.len() - 1]]
}

/// The wrapped running sum of the first `j` products of a broadcast matrix
/// product cell: as `mm_sum`, but each operand is read through its
/// broadcast source coordinates.
pub open spec fn bmm_sum(a: Tensor, b: Tensor, c: Seq<int>, j: int) -> int
    decreases j,
{
    let ll = c.len() as int;
    if j <= 0 {
        0
    } else {
        bmm_sum(a, b, c, j - 1) + wrap_val(
            a.dtype_sp(),
            a.at(bcast_src(c.update(ll - 1, j - 1), a.dims_sp())) * b.at(
                bcast_src(c.update(ll - 2, j - 1), b.dims_sp()),
            ),
        )
    }
}

/// When both broadcast views read back into their sources cellwise, the
/// plain product sum over the views equals the broadcast product sum over
/// the sources.
proof fn lemma_bmm_sum_congr(a: Tensor, b: Tensor, va: Tensor, vb: Tensor, c: Seq<int>, j: int)
    requires
        va.dtype_sp() == a.dtype_sp(),
        c.len() >= 2,
        forall|jj: int|
            0 <= jj < j ==> #[trigger] va.at(c.update(c.len() - 1, jj)) == a.at(
                bcast_src(c.update(c.len() - 1, jj), a.dims_sp()),
            ),
        forall|jj: int|
            0 <= jj < j ==> #[trigger] vb.at(c.update(c.len() - 2, jj)) == b.at(
                bcast_src(c.update(c.len() - 2, jj), b.dims_sp()),
            ),
    ensures
        mm_sum(va, vb, c, j) == bmm_sum(a, b, c, j),
    decreases j,
{
    if j > 0 {
        lemma_bmm_sum_congr(a, b, va, vb, c, j - 1);
    }
}

/// The broadcast-common shape of two batch prefixes, or nothing when they
/// do not broadcast against each other.
fn merge_batches(a: &Vec<usize>, b: &Vec<usize>) -> (r: Option<Vec<usize>>)
    ensures
        match r {
            Some(v) => {
                &&& bcast_pair_ok(ints(a@), ints(b@))
                &&& ints(v@) == bcast_shape(ints(a@), ints(b@))
            },
            None => !bcast_pair_ok(ints(a@), ints(b@)),
        },
{
    let ghost ld = ints(a@);
    let ghost rd = ints(b@);
    let nl = a.len();
    let nr = b.len();
    let n = if nl >= nr {
        nl
    } else {
        nr
    };
    let ghost nmin: int = if nl <= nr {
        nl as int
    } else {
        nr as int
    };
    let ghost target = bcast_shape(ld, rd);
    let mut out: Vec<usize> = Vec::new();
    let mut k: usize = 0;
    while k < n
        invariant
            0 <= k <= n,
            nl == a@.len(),
            nr == b@.len(),
            ld == ints(a@),
            rd == ints(b@),
            n == (if nl >= nr {
                nl
            } else {
                nr
            }),
            nmin == (if nl <= nr {
                nl as int
            } else {
                nr as int
            }),
            target == bcast_shape(ld, rd),
            out@.len() == k,
            forall|i: int| 0 <= i < k ==> ints(out@)[i] == #[trigger] target[i],
            forall|j: int|
                n - nmin <= j < k ==> {
                    let lv = #[trigger] ld[j - (n - ld.len())];
                    let rv = rd[j - (n - rd.len())];
                    lv == rv || lv == 1 || rv == 1
                },
        decreases n - k,
    {
        let il_ok = nl >= n - k;
        let ir_ok = nr >= n - k;
        let v: usize = if il_ok && ir_ok {
            let lv = a[k - (n - nl)];
            let rv = b[k - (n - nr)];
            if lv == rv {
                lv
            } else if lv == 1 {
                rv
            } else if rv == 1 {
                lv
            } else {
                proof {
                    let ki = k as int;
                    assert(ld[ki - (n - ld.len())] == lv as int);
                    assert(rd[ki - (n - rd.len())] == rv as int);
                    assert(!bcast_pair_ok(ld, rd)) by {
                        if bcast_pair_ok(ld, rd) {
                            let jj = n - 1 - ki;
                            assert(0 <= jj < nmin);
                            assert({
                                let lvx = ld[ld.len() - 1 - jj];
                                let rvx = rd[rd.len() - 1 - jj];
                                lvx == rvx || lvx == 1 || rvx == 1
                            });
                            assert(ld.len() - 1 - jj == ki - (n - ld.len()));
                            assert(rd.len() - 1 - jj == ki - (n - rd.len()));
                        }
                    }
                }
                return None;
            }
        } else if il_ok {
            a[k - (n - nl)]
        } else {
            b[k - (n - nr)]
        };
        out.push(v);
        proof {
            assert forall|i: int| 0 <= i < k + 1 implies ints(out@)[i] == #[trigger] target[i] by {
                if i == k {
                    assert(ints(out@)[i] == v as int);
                }
            }
        }
        k = k + 1;
    }
    proof {
        assert(ints(out@) =~= target);
        assert forall|j: int| 0 <= j < nmin implies {
            let lv = #[trigger] ld[ld.len() - 1 - j];
            let rv = rd[rd.len() - 1 - j];
            lv == rv || lv == 1 || rv == 1
        } by {
            let jpos = n - 1 - j;
            assert(n - nmin <= jpos < n);
            assert({
                let lv = ld[jpos - (n - ld.len())];
                let rv = rd[jpos - (n - rd.len())];
                lv == rv || lv == 1 || rv == 1
            });
            assert(jpos - (n - ld.len()) == ld.len() - 1 - j);
            assert(jpos - (n - rd.len()) == rd.len() - 1 - j);
        }
        assert(bcast_pair_ok(ld, rd));
    }
    Some(out)
}

impl Tensor {
    /// The matrix product with batch broadcasting: both operands' batch
    /// prefixes are broadcast to their common shape before the batched
    /// product is taken.
    pub fn broadcast_matmul(&self, rhs: &Tensor) -> (r: Result<Tensor, Error>)
        requires
            self.wf(),
            rhs.wf(),
            bmm_compat(self.dims_sp(), rhs.dims_sp()) ==> shape_ok(
                bmm_lshape(self.dims_sp(), rhs.dims_sp()),
            ) && shape_ok(bmm_rshape(self.dims_sp(), rhs.dims_sp())) && shape_ok(
                bmm_shape(self.dims_sp(), rhs.dims_sp()),
            ),
        ensures
            match r {
                Ok(t) => {
                    &&& bmm_compat(self.dims_sp(), rhs.dims_sp())
                    &&& self.dtype_sp() == rhs.dtype_sp()
                    &&& t.wf()
                    &&& t.dims_sp() == bmm_shape(self.dims_sp(), rhs.dims_sp())
                    &&& t.dtype_sp() == self.dtype_sp()
                    &&& t.device_sp() == self.device_sp()
                    &&& forall|c: Seq<int>|
                        coords_in(c, t.dims_sp()) ==> #[trigger] t.at(c) as int == wrap_val(
                            self.dtype_sp(),
                            bmm_sum(*self, *rhs, c, self.dims_sp()[self.dims_sp().len() - 1]),
                        )
                },
                Err(e) => {
                    ||| (!bmm_compat(self.dims_sp(), rhs.dims_sp()) && (e
                        matches Error::ShapeMismatchBinaryOp { lhs, rhs: r2, .. } && lhs@
                        == self.dims_sp() && r2@ == rhs.dims_sp()))
                    ||| (bmm_compat(self.dims_sp(), rhs.dims_sp()) && self.dtype_sp()
                        != rhs.dtype_sp() && (e matches Error::DTypeMismatchBinaryOp { .. }))
                },
            },
    {
        let ghost ad = self.dims_sp();
        let ghost bd = rhs.dims_sp();
        let adims = self.dims();
        let bdims = rhs.dims();
        let la = adims.len();
        let lb = bdims.len();
        if la < 2 || lb < 2 || adims[la - 1] != bdims[lb - 2] {
            proof {
                assert(!bmm_compat(ad, bd));
            }
            return Err(
                Error::ShapeMismatchBinaryOp {
                    lhs: self.shape().clone(),
                    rhs: rhs.shape().clone(),
                    op: "broadcast_matmul",
                },
            );
        }
        let mut abatch: Vec<usize> = Vec::new();
        let mut x: usize = 0;
        while x < la - 2
            invariant
                0 <= x <= la - 2,
                la == adims@.len(),
                ad == ints(adims@),
                abatch@.len() == x,
                forall|i: int| 0 <= i < x ==> ints(abatch@)[i] == #[trigger] ad[i],
            decreases la - 2 - x,
        {
            let v = adims[x];
            abatch.push(v);
            proof {
                assert forall|i: int| 0 <= i < x + 1 implies ints(abatch@)[i]
                    == #[trigger] ad[i] by {
                    if i == x {
                        assert(abatch@[i] == v);
                    }
                }
            }
            x = x + 1;
        }
        let mut bbatch: Vec<usize> = Vec::new();
        let mut y: usize = 0;
        while y < lb - 2
            invariant
                0 <= y <= lb - 2,
                lb == bdims@.len(),
                bd == ints(bdims@),
                bbatch@.len() == y,
                forall|i: int| 0 <= i < y ==> ints(bbatch@)[i] == #[trigger] bd[i],
            decreases lb - 2 - y,
        {
            let v = bdims[y];
            bbatch.push(v);
            proof {
                assert forall|i: int| 0 <= i < y + 1 implies ints(bbatch@)[i]
                    == #[trigger] bd[i] by {
                    if i == y {
                        assert(bbatch@[i] == v);
                    }
                }
            }
            y = y + 1;
        }
        proof {
            assert(ints(abatch@) =~= ad.take(la - 2));
            assert(ints(bbatch@) =~= bd.take(lb - 2));
        }
        let batch = match merge_batches(&abatch, &bbatch) {
            Some(v) => v,
            None => {
                proof {
                    assert(!bmm_compat(ad, bd));
                }
                return Err(
                    Error::ShapeMismatchBinaryOp {
                        lhs: self.shape().clone(),
                        rhs: rhs.shape().clone(),
                        op: "broadcast_matmul",
                    },
                );
            },
        };
        proof {
            assert(bmm_compat(ad, bd));
            assert(ints(batch@) == bmm_batch(ad, bd));
        }
        let nb = batch.len();
        let mut lshape = clone_dims(&batch);
        lshape.push(adims[la - 2]);
        lshape.push(adims[la - 1]);
        let mut rshape = clone_dims(&batch);
        rshape.push(bdims[lb - 2]);
        rshape.push(bdims[lb - 1]);
        proof {
            assert(ints(lshape@) =~= bmm_lshape(ad, bd));
            assert(ints(rshape@) =~= bmm_rshape(ad, bd));
            lemma_bcast_shape_ok(ad.take(la - 2), bd.take(lb - 2));
            let bb = bmm_batch(ad, bd);
            let ls = bmm_lshape(ad, bd);
            let rs = bmm_rshape(ad, bd);
            assert(broadcast_ok(ad, ls)) by {
                assert forall|j: int| 0 <= j < ad.len() implies #[trigger] ad[j] == ls[ls.len()
                    - ad.len() + j] || ad[j] == 1 by {
                    if j < la - 2 {
                        assert(ad.take(la - 2)[j] == bb[bb.len() - (la - 2) + j] || ad.take(
                            la - 2,
                        )[j] == 1);
                        assert(ls[ls.len() - ad.len() + j] == bb[bb.len() - (la - 2) + j]);
                    } else {
                        assert(ls[ls.len() - ad.len() + j] == ad.skip(la - 2)[j - (la - 2)]);
                    }
                }
            }
            assert(broadcast_ok(bd, rs)) by {
                assert forall|j: int| 0 <= j < bd.len() implies #[trigger] bd[j] == rs[rs.len()
                    - bd.len() + j] || bd[j] == 1 by {
                    if j < lb - 2 {
                        assert(bd.take(lb - 2)[j] == bb[bb.len() - (lb - 2) + j] || bd.take(
                            lb - 2,
                        )[j] == 1);
                        assert(rs[rs.len() - bd.len() + j] == bb[bb.len() - (lb - 2) + j]);
                    } else {
                        assert(rs[rs.len() - bd.len() + j] == bd.skip(lb - 2)[j - (lb - 2)]);
                    }
                }
            }
        }
        let va = match self.broadcast_as(&lshape) {
            Ok(t) => t,
            Err(_) => {
                proof {
                    assert(false);
                }
                return Err(
                    Error::ShapeMismatchBinaryOp {
                        lhs: self.shape().clone(),
                        rhs: rhs.shape().clone(),
                        op: "broadcast_matmul",
                    },
                );
            },
        };
        let vb = match rhs.broadcast_as(&rshape) {
            Ok(t) => t,
            Err(_) => {
                proof {
                    assert(false);
                }
                return Err(
                    Error::ShapeMismatchBinaryOp {
                        lhs: self.shape().clone(),
                        rhs: rhs.shape().clone(),
                        op: "broadcast_matmul",
                    },
                );
            },
        };
        proof {
            let ls = bmm_lshape(ad, bd);
            let rs = bmm_rshape(ad, bd);
            assert(mm_compat(ls, rs)) by {
                assert forall|j: int| 0 <= j < ls.len() - 2 implies #[trigger] ls[j] == rs[j] by {
                    assert(ls[j] == bmm_batch(ad, bd)[j]);
                    assert(rs[j] == bmm_batch(ad, bd)[j]);
                }
                assert(ls[ls.len() - 1] == ad.skip(la - 2)[1]);
                assert(rs[rs.len() - 2] == bd.skip(lb - 2)[0]);
            }
            assert(mm_shape(ls, rs) =~= bmm_shape(ad, bd));
        }
        let t = match va.matmul(&vb) {
            Ok(t) => t,
            Err(e) => {
                proof {
                    assert(va.dtype_sp() != vb.dtype_sp());
                    assert(self.dtype_sp() != rhs.dtype_sp());
                    assert(e matches Error::DTypeMismatchBinaryOp { .. });
                }
                return Err(e);
            },
        };
        proof {
            let ls = bmm_lshape(ad, bd);
            let rs = bmm_rshape(ad, bd);
            let od = bmm_shape(ad, bd);
            let ll = od.len() as int;
            let k = ad[la - 1];
            assert(ls[ll - 1] == ad.skip(la - 2)[1]);
            assert forall|c: Seq<int>| coords_in(c, od) implies #[trigger] t.at(c) as int
                == wrap_val(self.dtype_sp(), bmm_sum(*self, *rhs, c, k)) by {
                assert(t.at(c) as int == wrap_val(va.dtype_sp(), mm_sum(va, vb, c, k)));
                assert forall|jj: int|
                    0 <= jj < k implies #[trigger] va.at(c.update(c.len() - 1, jj)) == self.at(
                    bcast_src(c.update(c.len() - 1, jj), ad),
                ) by {
                    let cu = c.update(c.len() - 1, jj);
                    assert(coords_in(cu, ls)) by {
                        assert forall|i: int| 0 <= i < cu.len() implies 0 <= #[trigger] cu[i]
                            < ls[i] by {
                            if i < ll - 1 {
                                assert(cu[i] == c[i]);
                                assert(od[i] == ls[i]);
                            }
                        }
                    }
                }
                assert forall|jj: int|
                    0 <= jj < k implies #[trigger] vb.at(c.update(c.len() - 2, jj)) == rhs.at(
                    bcast_src(c.update(c.len() - 2, jj), bd),
                ) by {
                    let cu = c.update(c.len() - 2, jj);
                    assert(coords_in(cu, rs)) by {
                        assert forall|i: int| 0 <= i < cu.len() implies 0 <= #[trigger] cu[i]
                            < rs[i] by {
                            if i < ll - 2 {
                                assert(cu[i] == c[i]);
                                assert(od[i] == rs[i]);
                            } else if i == ll - 1 {
                                assert(cu[i] == c[i]);
                                assert(od[i] == bd.skip(lb - 2)[1]);
                                assert(rs[i] == bd.skip(lb - 2)[1]);
                            } else {
                                assert(cu[i] == jj);
                                assert(rs[i] == bd.skip(lb - 2)[0]);
                            }
                        }
                    }
                }
                lemma_bmm_sum_congr(*self, *rhs, va, vb, c, k);
            }
        }
        Ok(t)
    }
}

} // verus!
