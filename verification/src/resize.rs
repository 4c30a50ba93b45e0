//! Nearest-neighbour spatial resizing over the two trailing axes of a
//! 4-dimensional tensor.

use vstd::prelude::*;
use crate::dims::{coords_in, ints, lemma_ints_nonneg, lemma_shape_ok_suffix, phys, prod, shape_ok};
use crate::dtype::in_dtype;
use crate::error::Error;
use crate::kernel::build_grid;
use crate::op::{BackpropOp, Op};
use crate::shape::clone_dims;
use crate::tensor::Tensor;

verus! {

/// The source coordinates a nearest-neighbour upsampling cell reads: the
/// two trailing coordinates scaled back by the integer ratio of old to new
/// size.
pub open spec fn upsample_src(c: Seq<int>, h: int, w: int, th: int, tw: int) -> Seq<int> {
    c.update(2, c[2] * h / th).update(3, c[3] * w / tw)
}

impl Tensor {
    /// Upsamples a `(batch, channels, h, w)` tensor to `(batch, channels,
    /// target_h, target_w)`, each output cell taking the value of the
    /// nearest source cell.
    pub fn upsample_nearest2d(&self, target_h: usize, target_w: usize) -> (r: Result<
        Tensor,
        Error,
    >)
        requires
            self.wf(),
            self.dims_sp().len() == 4 ==> shape_ok(
                self.dims_sp().update(2, target_h as int).update(3, target_w as int),
            ),
            self.dims_sp().len() == 4 ==> self.dims_sp()[2] >= 1 && self.dims_sp()[3] >= 1,
        ensures
            match r {
                Ok(t) => {
                    &&& self.dims_sp().len() == 4
                    &&& t.wf()
                    &&& t.dims_sp() == self.dims_sp().update(2, target_h as int).update(
                        3,
                        target_w as int,
                    )
                    &&& t.dtype_sp() == self.dtype_sp()
                    &&& t.device_sp() == self.device_sp()
                    &&& forall|c: Seq<int>|
                        coords_in(c, t.dims_sp()) ==> #[trigger] t.at(c) == self.at(
                            upsample_src(
                                c,
                                self.dims_sp()[2],
                                self.dims_sp()[3],
                                target_h as int,
                                target_w as int,
                            ),
                        )
                },
                Err(e) => {
                    &&& self.dims_sp().len() != 4
                    &&& e matches Error::UnexpectedNumberOfDims { expected, got, .. } && expected
                        == 4 && got == self.dims_sp().len()
                },
            },
    {
        let ghost dd = self.dims_sp();
        if self.rank() != 4 {
            return Err(
                Error::UnexpectedNumberOfDims {
                    expected: 4,
                    got: self.rank(),
                    shape: self.shape().clone(),
                },
            );
        }
        let dims = self.dims();
        let h = dims[2];
        let w = dims[3];
        let mut outdims = clone_dims(dims);
        outdims[2] = target_h;
        outdims[3] = target_w;
        proof {
            assert(ints(outdims@) =~= dd.update(2, target_h as int).update(3, target_w as int));
            crate::dims::lemma_ints_nonneg(outdims@);
            lemma_shape_ok_suffix(ints(outdims@));
        }
        let dt = self.dtype();
        let ghost fs = |c: Seq<int>|
            self.at(upsample_src(c, dd[2], dd[3], target_h as int, target_w as int));
        let cell = |cv: &Vec<usize>| -> (v: i64)
            requires
                coords_in(ints(cv@), ints(outdims@)),
            ensures
                v == self.at(
                    upsample_src(
                        ints(cv@),
                        self.dims_sp()[2],
                        self.dims_sp()[3],
                        target_h as int,
                        target_w as int,
                    ),
                ),
            {
                proof {
                    assert(0 <= ints(cv@)[2] && ints(cv@)[2] < ints(outdims@)[2]);
                    assert(0 <= ints(cv@)[3] && ints(cv@)[3] < ints(outdims@)[3]);
                    assert(ints(outdims@)[2] == target_h as int);
                    assert(ints(outdims@)[3] == target_w as int);
                    lemma_scale_back(cv@[2] as int, h as int, target_h as int);
                    lemma_scale_back(cv@[3] as int, w as int, target_w as int);
                    assert((cv@[2] as int) * (h as int) <= u128::MAX) by (nonlinear_arith)
                        requires
                            0 <= (cv@[2] as int) && (cv@[2] as int) < 0x1_0000_0000_0000_0000,
                            0 <= (h as int) && (h as int) < 0x1_0000_0000_0000_0000,
                    ;
                    assert((cv@[3] as int) * (w as int) <= u128::MAX) by (nonlinear_arith)
                        requires
                            0 <= (cv@[3] as int) && (cv@[3] as int) < 0x1_0000_0000_0000_0000,
                            0 <= (w as int) && (w as int) < 0x1_0000_0000_0000_0000,
                    ;
                }
                let si = (((cv[2] as u128) * (h as u128)) / (target_h as u128)) as usize;
                let sj = (((cv[3] as u128) * (w as u128)) / (target_w as u128)) as usize;
                proof {
                    assert(si as int == ints(cv@)[2] * h / (target_h as int));
                    assert(sj as int == ints(cv@)[3] * w / (target_w as int));
                }
                let mut coord = clone_dims(cv);
                coord[2] = si;
                coord[3] = sj;
                proof {
                    assert(ints(coord@) =~= upsample_src(
                        ints(cv@),
                        self.dims_sp()[2],
                        self.dims_sp()[3],
                        target_h as int,
                        target_w as int,
                    ));
                    assert(coords_in(ints(coord@), self.dims_sp())) by {
                        assert forall|j: int|
                            0 <= j < coord@.len() implies 0 <= #[trigger] ints(coord@)[j]
                            < self.dims_sp()[j] by {
                            if j == 2 {
                                assert(0 <= (si as int) && (si as int) < self.dims_sp()[2]);
                            } else if j == 3 {
                                assert(0 <= (sj as int) && (sj as int) < self.dims_sp()[3]);
                            } else {
                                assert(ints(coord@)[j] == ints(cv@)[j]);
                                assert(ints(outdims@)[j] == self.dims_sp()[j]);
                            }
                        }
                    }
                    crate::dims::lemma_ints_nonneg(coord@);
                }
                let (stv, lay) = self.storage_and_layout();
                crate::kernel::read_at(stv, lay.stride(), lay.start_offset(), &coord)
            };
        proof {
            assert forall|cq: Vec<usize>|
                coords_in(ints(cq@), ints(outdims@)) implies #[trigger] call_requires(
                cell,
                (&cq,),
            ) by {}
            assert forall|cq: Vec<usize>, v: i64|
                coords_in(ints(cq@), ints(outdims@)) && #[trigger] call_ensures(
                cell,
                (&cq,),
                v,
            ) implies v == fs(ints(cq@)) by {}
            assert forall|c: Seq<int>|
                coords_in(c, ints(outdims@)) implies in_dtype(dt, #[trigger] fs(c) as int) by {
                lemma_scale_back(c[2], dd[2], target_h as int);
                lemma_scale_back(c[3], dd[3], target_w as int);
                let cu = upsample_src(c, dd[2], dd[3], target_h as int, target_w as int);
                assert(coords_in(cu, dd)) by {
                    assert forall|j: int| 0 <= j < cu.len() implies 0 <= #[trigger] cu[j]
                        < dd[j] by {
                        if j != 2 && j != 3 {
                            assert(cu[j] == c[j]);
                            assert(ints(outdims@)[j] == dd[j]);
                        }
                    }
                }
            }
        }
        let out = build_grid(&outdims, &cell, Ghost(fs));
        let opedge = BackpropOp::new1(self, Op::UpsampleNearest2D(self.clone()));
        let t = crate::tensor::grid_tensor(
            &outdims,
            out,
            Ghost(fs),
            opedge,
            dt,
            *self.device(),
            self.fresh_id(),
        );
        Ok(t)
    }
}

/// Scaling an in-range coordinate back to the source range: the rounded-down
/// rescaling of a coordinate below the target size lands below the source
/// size.
proof fn lemma_scale_back(i: int, h: int, th: int)
    requires
        0 <= i < th,
        0 <= h,
    ensures
        0 <= i * h / th < (if h == 0 {
            1int
        } else {
            h
        }),
{
    vstd::arithmetic::div_mod::lemma_fundamental_div_mod(i * h, th);
    vstd::arithmetic::div_mod::lemma_mod_bound(i * h, th);
    let q = i * h / th;
    let m = (i * h) % th;
    assert(0 <= i * h) by (nonlinear_arith)
        requires
            0 <= i,
            0 <= h,
    ;
    assert(0 <= q && q < (if h == 0 {
        1int
    } else {
        h
    })) by (nonlinear_arith)
        requires
            i * h == th * q + m,
            0 <= m < th,
            0 <= i < th,
            0 <= h,
            0 <= i * h,
    ;
}

} // verus!

verus! {

/// The shape of a repetition: rank-1 padding on the left aligns the tensor
/// shape and the repeat counts, and each axis is multiplied by its count.
/// `n` is the combined rank.
pub open spec fn repeat_dims(dims: Seq<int>, reps: Seq<int>, n: int) -> Seq<int> {
    Seq::new(
        n as nat,
        |j: int|
            {
                let dv = if j < n - dims.len() {
                    1int
                } else {
                    dims[j - (n - dims.len())]
                };
                let rv = if j < reps.len() {
                    reps[j]
                } else {
                    1int
                };
                dv * rv
            },
    )
}

impl Tensor {
    /// Tiles the tensor along each axis by the given counts, as if
    /// concatenated with itself that many times per axis; missing leading
    /// axes are added, and axes beyond the count list are kept once.
    pub fn repeat(&self, repeats: &Vec<usize>) -> (r: Result<Tensor, Error>)
        requires
            self.wf(),
            shape_ok(
                repeat_dims(
                    self.dims_sp(),
                    ints(repeats@),
                    if self.dims_sp().len() >= repeats@.len() {
                        self.dims_sp().len() as int
                    } else {
                        repeats@.len() as int
                    },
                ),
            ),
        ensures
            match r {
                Ok(t) => {
                    &&& t.wf()
                    &&& t.dims_sp() == repeat_dims(
                        self.dims_sp(),
                        ints(repeats@),
                        if self.dims_sp().len() >= repeats@.len() {
                            self.dims_sp().len() as int
                        } else {
                            repeats@.len() as int
                        },
                    )
                    &&& t.dtype_sp() == self.dtype_sp()
                    &&& t.device_sp() == self.device_sp()
                    &&& forall|c: Seq<int>|
                        coords_in(c, t.dims_sp()) ==> #[trigger] t.at(c) == self.at(
                            Seq::new(
                                self.dims_sp().len(),
                                |j: int|
                                    c[j + (t.dims_sp().len() - self.dims_sp().len())]
                                        % self.dims_sp()[j],
                            ),
                        )
                },
                Err(_) => false,
            },
    {
        let ghost dd = self.dims_sp();
        let ghost rr = ints(repeats@);
        let dims = self.dims();
        let rank = dims.len();
        let nr = repeats.len();
        let n = if rank >= nr {
            rank
        } else {
            nr
        };
        let ghost target = repeat_dims(dd, rr, n as int);
        let lead = n - rank;
        proof {
            self.lemma_dims_nonneg();
            lemma_ints_nonneg(repeats@);
            assert forall|j: int| 0 <= j < n implies #[trigger] target[j] >= 0 by {
                let dv: int = if j < lead as int {
                    1int
                } else {
                    dd[j - lead]
                };
                let rv: int = if j < rr.len() {
                    rr[j]
                } else {
                    1int
                };
                assert(dv * rv >= 0) by (nonlinear_arith)
                    requires
                        dv >= 0,
                        rv >= 0,
                ;
            }
            lemma_shape_ok_suffix(target);
        }
        let mut outdims: Vec<usize> = Vec::new();
        let mut j: usize = 0;
        while j < n
            invariant
                0 <= j <= n,
                n == (if rank >= nr {
                    rank
                } else {
                    nr
                }),
                lead == n - rank,
                rank == dims@.len(),
                nr == repeats@.len(),
                dd == ints(dims@),
                dd == self.dims_sp(),
                rr == ints(repeats@),
                target == repeat_dims(dd, rr, n as int),
                shape_ok(target),
                outdims@.len() == j,
                forall|x: int| 0 <= x < j ==> ints(outdims@)[x] == #[trigger] target[x],
            decreases n - j,
        {
            let dv: usize = if j < lead {
                1
            } else {
                dims[j - lead]
            };
            let rv: usize = if j < nr {
                repeats[j]
            } else {
                1
            };
            proof {
                assert(target[j as int] == (dv as int) * (rv as int));
                crate::dims::lemma_prod_le_pos_prod(target);
                crate::dims::lemma_pos_prod_pos(target);
                assert(crate::dims::pos1(target[j as int]) <= crate::dims::pos_prod(target)) by {
                    crate::dims::lemma_pos_prod_remove(target, j as int);
                    crate::dims::lemma_pos_prod_pos(target.remove(j as int));
                    assert(crate::dims::pos_prod(target) == crate::dims::pos1(target[j as int])
                        * crate::dims::pos_prod(target.remove(j as int)));
                    assert(crate::dims::pos1(target[j as int]) <= crate::dims::pos1(
                        target[j as int],
                    ) * crate::dims::pos_prod(target.remove(j as int))) by (nonlinear_arith)
                        requires
                            crate::dims::pos1(target[j as int]) >= 1,
                            crate::dims::pos_prod(target.remove(j as int)) >= 1,
                    ;
                }
                assert((dv as int) * (rv as int) <= usize::MAX);
            }
            outdims.push(dv * rv);
            proof {
                assert forall|x: int| 0 <= x < j + 1 implies ints(outdims@)[x]
                    == #[trigger] target[x] by {
                    if x == j {
                        assert(outdims@[x] == dv * rv);
                    }
                }
            }
            j = j + 1;
        }
        proof {
            assert(ints(outdims@) =~= target);
        }
        let dt = self.dtype();
        let ghost fs = |c: Seq<int>|
            self.at(
                Seq::new(
                    self.dims_sp().len(),
                    |j2: int| c[j2 + (target.len() - self.dims_sp().len())] % self.dims_sp()[j2],
                ),
            );
        let cell = |cv: &Vec<usize>| -> (v: i64)
            requires
                coords_in(ints(cv@), ints(outdims@)),
                ints(outdims@) == repeat_dims(
                    ints(dims@),
                    ints(repeats@),
                    ints(outdims@).len() as int,
                ),
                ints(dims@) == self.dims_sp(),
                lead == ints(outdims@).len() - ints(dims@).len(),
            ensures
                v == self.at(
                    Seq::new(
                        self.dims_sp().len(),
                        |j2: int|
                            ints(cv@)[j2 + (ints(outdims@).len() - self.dims_sp().len())]
                                % self.dims_sp()[j2],
                    ),
                ),
            {
                let mut coord: Vec<usize> = Vec::new();
                let mut x: usize = 0;
                while x < rank
                    invariant
                        0 <= x <= rank,
                        rank == dims@.len(),
                        ints(dims@) == self.dims_sp(),
                        lead == ints(cv@).len() - rank,
                        lead == ints(outdims@).len() - rank,
                        coords_in(ints(cv@), ints(outdims@)),
                        ints(outdims@) == repeat_dims(
                            ints(dims@),
                            ints(repeats@),
                            (lead + rank) as int,
                        ),
                        coord@.len() == x,
                        forall|y: int| 0 <= y < x ==> ints(coord@)[y] == #[trigger] ints(cv@)[y
                            + lead as int] % ints(dims@)[y],
                    decreases rank - x,
                {
                    proof {
                        let od = ints(outdims@);
                        let dde = ints(dims@);
                        let rre = ints(repeats@);
                        assert(0 <= ints(cv@)[x + lead] < od[x + lead]);
                        assert(od[x + lead] == dde[x as int] * (if x + lead < rre.len() {
                            rre[x + lead]
                        } else {
                            1int
                        }));
                        assert(dde[x as int] >= 1) by (nonlinear_arith)
                            requires
                                od[x + lead] >= 1,
                                od[x + lead] == dde[x as int] * (if x + lead < rre.len() {
                                    rre[x + lead]
                                } else {
                                    1int
                                }),
                                dde[x as int] >= 0,
                        ;
                        vstd::arithmetic::div_mod::lemma_mod_bound(
                            ints(cv@)[x + lead],
                            dde[x as int],
                        );
                    }
                    let cl = cv.len();
                    proof {
                        assert(lead + x < cl);
                    }
                    let cvx = cv[lead + x];
                    let m = cvx % dims[x];
                    coord.push(m);
                    proof {
                        assert forall|y: int|
                            0 <= y < x + 1 implies ints(coord@)[y] == #[trigger] ints(cv@)[y
                            + lead as int] % ints(dims@)[y] by {
                            if y == x {
                                assert(coord@[y] == m);
                            }
                        }
                    }
                    x = x + 1;
                }
                proof {
                    assert(ints(coord@) =~= Seq::new(
                        self.dims_sp().len(),
                        |j2: int|
                            ints(cv@)[j2 + (ints(outdims@).len() - self.dims_sp().len())]
                                % self.dims_sp()[j2],
                    ));
                    assert(coords_in(ints(coord@), ints(dims@))) by {
                        let od = ints(outdims@);
                        let dde = ints(dims@);
                        let rre = ints(repeats@);
                        assert forall|y: int|
                            0 <= y < coord@.len() implies 0 <= #[trigger] ints(coord@)[y]
                            < dde[y] by {
                            assert(0 <= ints(cv@)[y + lead] < od[y + lead]);
                            assert(od[y + lead] == dde[y] * (if y + lead < rre.len() {
                                rre[y + lead]
                            } else {
                                1int
                            }));
                            assert(dde[y] >= 1) by (nonlinear_arith)
                                requires
                                    od[y + lead as int] >= 1,
                                    od[y + lead as int] == dde[y] * (if y + lead < rre.len() {
                                        rre[y + lead as int]
                                    } else {
                                        1int
                                    }),
                                    dde[y] >= 0,
                            ;
                            vstd::arithmetic::div_mod::lemma_mod_bound(
                                ints(cv@)[y + lead],
                                dde[y],
                            );
                        }
                    }
                    crate::dims::lemma_ints_nonneg(coord@);
                }
                let (stv, lay) = self.storage_and_layout();
                crate::kernel::read_at(stv, lay.stride(), lay.start_offset(), &coord)
            };
        proof {
            assert forall|cq: Vec<usize>|
                coords_in(ints(cq@), ints(outdims@)) implies #[trigger] call_requires(
                cell,
                (&cq,),
            ) by {}
            assert forall|cq: Vec<usize>, v: i64|
                coords_in(ints(cq@), ints(outdims@)) && #[trigger] call_ensures(
                cell,
                (&cq,),
                v,
            ) implies v == fs(ints(cq@)) by {}
            assert forall|c: Seq<int>|
                coords_in(c, ints(outdims@)) implies in_dtype(dt, #[trigger] fs(c) as int) by {
                let cu = Seq::new(
                    self.dims_sp().len(),
                    |j2: int| c[j2 + (target.len() - self.dims_sp().len())] % self.dims_sp()[j2],
                );
                assert(coords_in(cu, dd)) by {
                    assert forall|y: int| 0 <= y < cu.len() implies 0 <= #[trigger] cu[y]
                        < dd[y] by {
                        assert(0 <= c[y + lead] < target[y + lead]);
                        assert(target[y + lead] == dd[y] * (if y + lead < rr.len() {
                            rr[y + lead]
                        } else {
                            1int
                        }));
                        assert(dd[y] >= 1) by (nonlinear_arith)
                            requires
                                target[y + lead as int] >= 1,
                                target[y + lead as int] == dd[y] * (if y + lead < rr.len() {
                                    rr[y + lead as int]
                                } else {
                                    1int
                                }),
                                dd[y] >= 0,
                        ;
                        vstd::arithmetic::div_mod::lemma_mod_bound(c[y + lead], dd[y]);
                    }
                }
            }
        }
        let out = build_grid(&outdims, &cell, Ghost(fs));
        let opedge = BackpropOp::none();
        let t = crate::tensor::grid_tensor(
            &outdims,
            out,
            Ghost(fs),
            opedge,
            dt,
            *self.device(),
            self.fresh_id(),
        );
        Ok(t)
    }
}

} // verus!
