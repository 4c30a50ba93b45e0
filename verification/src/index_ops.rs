//! Indexing operations: selecting rows by an index vector, gathering along
//! an axis by an index tensor, and the additive scatter duals. Every index
//! read from an index tensor is validated against the indexed dimension.

use vstd::prelude::*;
use crate::dims::{coords_in, flat_of, ints, lemma_shape_ok_suffix, phys, prod, shape_ok};
use crate::dtype::{in_dtype, wrap_val, DType};
use crate::error::Error;
use crate::kernel::build_grid;
use crate::op::{BackpropOp, Op};
use crate::shape::clone_dims;
use crate::tensor::Tensor;

verus! {

/// Whether every element of `vs` is a valid index below `bound`.
pub open spec fn all_indexes_in(vs: Seq<i64>, bound: int) -> bool {
    forall|i: int| 0 <= i < vs.len() ==> 0 <= #[trigger] vs[i] < bound
}

/// Checks that every element of `vs` lies in `0 .. bound`.
fn check_indexes(vs: &Vec<i64>, bound: usize, opname: &'static str) -> (r: Result<(), Error>)
    ensures
        match r {
            Ok(()) => all_indexes_in(vs@, bound as int),
            Err(e) => !all_indexes_in(vs@, bound as int) && (e matches Error::InvalidIndex { .. }),
        },
{
    let n = vs.len();
    let mut i: usize = 0;
    while i < n
        invariant
            0 <= i <= n,
            n == vs@.len(),
            forall|k: int| 0 <= k < i ==> 0 <= #[trigger] vs@[k] < bound,
        decreases n - i,
    {
        let v = vs[i];
        let bad = if v < 0 {
            true
        } else {
            (v as u64) >= (bound as u64)
        };
        if bad {
            proof {
                assert(!(0 <= vs@[i as int] < bound));
            }
            return Err(
                Error::InvalidIndex {
                    index: if v >= 0 {
                        v as usize
                    } else {
                        0
                    },
                    size: bound,
                    op: opname,
                },
            );
        }
        i = i + 1;
    }
    Ok(())
}

impl Tensor {
    /// Selects positions of dimension `dim` by a rank-1 index tensor: the
    /// output's size along `dim` is the index count, and position `v` of
    /// the output reads position `ids[v]` of the input.
    pub fn index_select(&self, ids: &Tensor, dim: usize) -> (r: Result<Tensor, Error>)
        requires
            self.wf(),
            ids.wf(),
            shape_ok(self.dims_sp().update(dim as int, ids.count_sp())) || !(dim
                < self.dims_sp().len() && ids.dims_sp().len() == 1),
        ensures
            match r {
                Ok(t) => {
                    &&& dim < self.dims_sp().len()
                    &&& ids.dims_sp().len() == 1
                    &&& all_indexes_in(ids.vals(), self.dims_sp()[dim as int])
                    &&& t.wf()
                    &&& t.dims_sp() == self.dims_sp().update(dim as int, ids.count_sp())
                    &&& t.dtype_sp() == self.dtype_sp()
                    &&& t.device_sp() == self.device_sp()
                    &&& forall|c: Seq<int>|
                        coords_in(c, t.dims_sp()) ==> #[trigger] t.at(c) == self.at(
                            c.update(dim as int, ids.vals()[c[dim as int]] as int),
                        )
                },
                Err(_) => !(dim < self.dims_sp().len() && ids.dims_sp().len() == 1
                    && all_indexes_in(ids.vals(), self.dims_sp()[dim as int])),
            },
    {
        let ghost dd = self.dims_sp();
        match self.check_dim(dim, "index-select") {
            Ok(()) => {},
            Err(e) => {
                return Err(e);
            },
        }
        if ids.rank() != 1 {
            return Err(
                Error::ShapeMismatchBinaryOp {
                    lhs: self.shape().clone(),
                    rhs: ids.shape().clone(),
                    op: "index-select",
                },
            );
        }
        let dims = self.dims();
        let bound = dims[dim];
        let iv = ids.materialize_self();
        match check_indexes(&iv, bound, "index-select") {
            Ok(()) => {},
            Err(e) => {
                return Err(e);
            },
        }
        let mut outdims = clone_dims(dims);
        outdims[dim] = iv.len();
        proof {
            ids.lemma_vals_len();
            assert(ints(outdims@) =~= dd.update(dim as int, ids.count_sp()));
            crate::dims::lemma_ints_nonneg(outdims@);
            lemma_shape_ok_suffix(ints(outdims@));
        }
        let dt = self.dtype();
        let ghost fs = |c: Seq<int>| self.at(c.update(dim as int, ids.vals()[c[dim as int]] as int));
        let cell = |cv: &Vec<usize>| -> (v: i64)
            requires
                coords_in(ints(cv@), ints(outdims@)),
            ensures
                v == self.at(
                    ints(cv@).update(dim as int, ids.vals()[ints(cv@)[dim as int]] as int),
                ),
            {
                let mut coord = clone_dims(cv);
                let pos = cv[dim];
                proof {
                    ids.lemma_vals_len();
                    assert(iv@.len() == ids.vals().len());
                    assert(pos as int == ints(cv@)[dim as int]);
                    assert(ints(cv@)[dim as int] < ints(outdims@)[dim as int]);
                    assert(0 <= iv@[pos as int] < self.dims_sp()[dim as int]);
                }
                let ix = iv[pos];
                coord[dim] = ix as usize;
                proof {
                    assert(ints(coord@) =~= ints(cv@).update(
                        dim as int,
                        ids.vals()[ints(cv@)[dim as int]] as int,
                    ));
                    assert(coords_in(ints(coord@), self.dims_sp())) by {
                        assert forall|j: int|
                            0 <= j < coord@.len() implies 0 <= #[trigger] ints(coord@)[j]
                            < self.dims_sp()[j] by {
                            if j != dim {
                                assert(ints(coord@)[j] == ints(cv@)[j]);
                                assert(ints(outdims@)[j] == self.dims_sp()[j]);
                            }
                        }
                    }
                    crate::dims::lemma_ints_nonneg(coord@);
                }
                let (stv, lay) = self.storage_and_layout();
                crate::kernel::read_at(stv, lay.stride(), lay.start_offset(), &coord)
            };
        proof {
            assert forall|cq: Vec<usize>|
                coords_in(ints(cq@), ints(outdims@)) implies #[trigger] call_requires(
                cell,
                (&cq,),
            ) by {}
            assert forall|cq: Vec<usize>, v: i64|
                coords_in(ints(cq@), ints(outdims@)) && #[trigger] call_ensures(
                cell,
                (&cq,),
                v,
            ) implies v == fs(ints(cq@)) by {}
            assert forall|c: Seq<int>|
                coords_in(c, ints(outdims@)) implies in_dtype(dt, #[trigger] fs(c) as int) by {
                let cu = c.update(dim as int, ids.vals()[c[dim as int]] as int);
                assert(coords_in(cu, self.dims_sp())) by {
                    assert forall|j: int| 0 <= j < cu.len() implies 0 <= #[trigger] cu[j]
                        < self.dims_sp()[j] by {
                        if j != dim {
                            assert(cu[j] == c[j]);
                            assert(ints(outdims@)[j] == self.dims_sp()[j]);
                        } else {
                            assert(0 <= c[dim as int] < ids.count_sp());
                            ids.lemma_vals_len();
                            assert(0 <= ids.vals()[c[dim as int]] < self.dims_sp()[dim as int]);
                        }
                    }
                }
            }
        }
        let out = build_grid(&outdims, &cell, Ghost(fs));
        let opedge = BackpropOp::new2(
            self,
            ids,
            Op::IndexSelect(self.clone(), ids.clone(), dim),
        );
        let t = crate::tensor::grid_tensor(
            &outdims,
            out,
            Ghost(fs),
            opedge,
            dt,
            *self.device(),
            self.fresh_id_with(ids),
        );
        Ok(t)
    }

    /// Looks rows of a vocabulary matrix up by a rank-1 tensor of ids: the
    /// matrix must have rank 2 and every id must index a row.
    pub fn embedding(&self, ids: &Tensor) -> (r: Result<Tensor, Error>)
        requires
            self.wf(),
            ids.wf(),
            shape_ok(self.dims_sp().update(0, ids.count_sp())) || !(self.dims_sp().len() == 2
                && ids.dims_sp().len() == 1),
        ensures
            match r {
                Ok(t) => {
                    &&& self.dims_sp().len() == 2
                    &&& ids.dims_sp().len() == 1
                    &&& all_indexes_in(ids.vals(), self.dims_sp()[0])
                    &&& t.wf()
                    &&& t.dims_sp() == self.dims_sp().update(0, ids.count_sp())
                    &&& t.dtype_sp() == self.dtype_sp()
                    &&& t.device_sp() == self.device_sp()
                    &&& forall|c: Seq<int>|
                        coords_in(c, t.dims_sp()) ==> #[trigger] t.at(c) == self.at(
                            c.update(0, ids.vals()[c[0]] as int),
                        )
                },
                Err(_) => !(self.dims_sp().len() == 2 && ids.dims_sp().len() == 1
                    && all_indexes_in(ids.vals(), self.dims_sp()[0])),
            },
    {
        if self.rank() != 2 || ids.rank() != 1 {
            return Err(
                Error::ShapeMismatchBinaryOp {
                    lhs: self.shape().clone(),
                    rhs: ids.shape().clone(),
                    op: "embedding",
                },
            );
        }
        self.index_select(ids, 0)
    }

    /// Gathers values along `dim`: the output has the index tensor's shape,
    /// and each cell reads the input at the coordinate given by the index
    /// tensor there. The index tensor matches the input on every other
    /// dimension.
    pub fn gather(&self, idx: &Tensor, dim: usize) -> (r: Result<Tensor, Error>)
        requires
            self.wf(),
            idx.wf(),
        ensures
            match r {
                Ok(t) => {
                    &&& dim < self.dims_sp().len()
                    &&& idx.dims_sp().len() == self.dims_sp().len()
                    &&& forall|j: int|
                        0 <= j < self.dims_sp().len() && j != dim ==> #[trigger] idx.dims_sp()[j]
                            == self.dims_sp()[j]
                    &&& t.wf()
                    &&& t.dims_sp() == idx.dims_sp()
                    &&& t.dtype_sp() == self.dtype_sp()
                    &&& t.device_sp() == self.device_sp()
                    &&& forall|c: Seq<int>|
                        coords_in(c, t.dims_sp()) ==> 0 <= idx.at(c) < self.dims_sp()[dim as int]
                            && #[trigger] t.at(c) == self.at(
                            c.update(dim as int, idx.at(c) as int),
                        )
                },
                Err(_) => !(dim < self.dims_sp().len() && idx.dims_sp().len()
                    == self.dims_sp().len() && (forall|j: int|
                    0 <= j < self.dims_sp().len() && j != dim ==> #[trigger] idx.dims_sp()[j]
                        == self.dims_sp()[j]) && (forall|c: Seq<int>|
                    coords_in(c, idx.dims_sp()) ==> 0 <= #[trigger] idx.at(c)
                        < self.dims_sp()[dim as int])),
            },
    {
        let ghost dd = self.dims_sp();
        match self.check_dim(dim, "gather") {
            Ok(()) => {},
            Err(e) => {
                return Err(e);
            },
        }
        let dims = self.dims();
        let idims = idx.dims();
        if idims.len() != dims.len() {
            return Err(
                Error::ShapeMismatchBinaryOp {
                    lhs: self.shape().clone(),
                    rhs: idx.shape().clone(),
                    op: "gather",
                },
            );
        }
        let rank = dims.len();
        let mut j: usize = 0;
        while j < rank
            invariant
                0 <= j <= rank,
                rank == dims@.len(),
                rank == idims@.len(),
                dd == ints(dims@),
                dd == self.dims_sp(),
                ints(idims@) == idx.dims_sp(),
                self.wf(),
                idx.wf(),
                dim < rank,
                forall|x: int|
                    0 <= x < j && x != dim ==> #[trigger] idx.dims_sp()[x] == self.dims_sp()[x],
            decreases rank - j,
        {
            if j != dim && idims[j] != dims[j] {
                proof {
                    assert(idx.dims_sp()[j as int] == ints(idims@)[j as int]);
                    assert(self.dims_sp()[j as int] == ints(dims@)[j as int]);
                }
                return Err(
                    Error::ShapeMismatchBinaryOp {
                        lhs: self.shape().clone(),
                        rhs: idx.shape().clone(),
                        op: "gather",
                    },
                );
            }
            j = j + 1;
        }
        // validate every index value
        let ivals = idx.materialize_self();
        let bound = dims[dim];
        match check_indexes(&ivals, bound, "gather") {
            Ok(()) => {},
            Err(e) => {
                proof {
                    idx.lemma_vals_len();
                    let bad = choose|i: int|
                        0 <= i < ivals@.len() && !(0 <= #[trigger] ivals@[i] < bound as int);
                    idx.lemma_dims_nonneg();
                    crate::dims::lemma_flat_all_elem(
                        idx.st(),
                        idx.dims_sp(),
                        idx.strides_sp(),
                        idx.off_sp(),
                        bad,
                    );
                    let cb = choose|cb: Seq<int>|
                        coords_in(cb, idx.dims_sp()) && flat_of(cb, idx.dims_sp()) == bad
                            && idx.vals()[bad] == idx.st()[#[trigger] phys(
                            idx.off_sp(),
                            cb,
                            idx.strides_sp(),
                        )];
                    assert(idx.at(cb) == ivals@[bad]);
                }
                return Err(e);
            },
        }
        proof {
            assert forall|c: Seq<int>| coords_in(c, idx.dims_sp()) implies 0 <= #[trigger] idx.at(
                c,
            ) < self.dims_sp()[dim as int] by {
                idx.lemma_at_vals(c);
                assert(idx.vals()[flat_of(c, idx.dims_sp())] == idx.at(c));
            }
            idx.lemma_wf_suffix();
        }
        let outdims = clone_dims(idims);
        proof {
            assert(ints(outdims@) == idx.dims_sp());
        }
        let dt = self.dtype();
        let ghost fs = |c: Seq<int>| self.at(c.update(dim as int, idx.at(c) as int));
        let cell = |cv: &Vec<usize>| -> (v: i64)
            requires
                coords_in(ints(cv@), ints(outdims@)),
            ensures
                v == self.at(ints(cv@).update(dim as int, idx.at(ints(cv@)) as int)),
            {
                proof {
                    crate::dims::lemma_ints_nonneg(cv@);
                }
                let (sti, layi) = idx.storage_and_layout();
                let ix = crate::kernel::read_at(sti, layi.stride(), layi.start_offset(), cv);
                proof {
                    assert(ix == idx.at(ints(cv@)));
                    assert(0 <= idx.at(ints(cv@)) < self.dims_sp()[dim as int]);
                }
                let mut coord = clone_dims(cv);
                coord[dim] = ix as usize;
                proof {
                    assert(ints(coord@) =~= ints(cv@).update(dim as int, idx.at(ints(cv@)) as int));
                    assert(coords_in(ints(coord@), self.dims_sp())) by {
                        assert forall|x: int|
                            0 <= x < coord@.len() implies 0 <= #[trigger] ints(coord@)[x]
                            < self.dims_sp()[x] by {
                            if x != dim {
                                assert(ints(coord@)[x] == ints(cv@)[x]);
                                assert(ints(outdims@)[x] == self.dims_sp()[x]);
                            }
                        }
                    }
                    crate::dims::lemma_ints_nonneg(coord@);
                }
                let (stv, lay) = self.storage_and_layout();
                crate::kernel::read_at(stv, lay.stride(), lay.start_offset(), &coord)
            };
        proof {
            assert forall|cq: Vec<usize>|
                coords_in(ints(cq@), ints(outdims@)) implies #[trigger] call_requires(
                cell,
                (&cq,),
            ) by {}
            assert forall|cq: Vec<usize>, v: i64|
                coords_in(ints(cq@), ints(outdims@)) && #[trigger] call_ensures(
                cell,
                (&cq,),
                v,
            ) implies v == fs(ints(cq@)) by {}
            assert forall|c: Seq<int>|
                coords_in(c, ints(outdims@)) implies in_dtype(dt, #[trigger] fs(c) as int) by {
                let cu = c.update(dim as int, idx.at(c) as int);
                assert(coords_in(cu, self.dims_sp())) by {
                    assert forall|x: int| 0 <= x < cu.len() implies 0 <= #[trigger] cu[x]
                        < self.dims_sp()[x] by {
                        if x != dim {
                            assert(cu[x] == c[x]);
                            assert(ints(outdims@)[x] == self.dims_sp()[x]);
                        }
                    }
                }
            }
        }
        let out = build_grid(&outdims, &cell, Ghost(fs));
        let opedge = BackpropOp::new2(self, idx, Op::Gather(self.clone(), idx.clone(), dim));
        let t = crate::tensor::grid_tensor(
            &outdims,
            out,
            Ghost(fs),
            opedge,
            dt,
            *self.device(),
            self.fresh_id_with(idx),
        );
        Ok(t)
    }
}

} // verus!

verus! {

/// The value of one scatter-add output cell after folding in the first `k`
/// positions of the source axis: source positions whose index matches the
/// cell's own coordinate along `dim` are added, wrapping in the dtype.
pub open spec fn scatter_cell(
    t: Tensor,
    idx: Tensor,
    src: Tensor,
    c: Seq<int>,
    dim: int,
    k: int,
) -> int
    decreases k,
{
    if k <= 0 {
        t.at(c) as int
    } else {
        let prev = scatter_cell(t, idx, src, c, dim, k - 1);
        if idx.at(c.update(dim, k - 1)) == c[dim] {
            wrap_val(t.dtype_sp(), prev + src.at(c.update(dim, k - 1)))
        } else {
            prev
        }
    }
}

/// The value of one index-add output cell after folding in the first `k`
/// index positions: source slices whose index equals the cell's coordinate
/// along `dim` are added, wrapping in the dtype.
pub open spec fn index_add_cell(
    t: Tensor,
    ids: Seq<i64>,
    src: Tensor,
    c: Seq<int>,
    dim: int,
    k: int,
) -> int
    decreases k,
{
    if k <= 0 {
        t.at(c) as int
    } else {
        let prev = index_add_cell(t, ids, src, c, dim, k - 1);
        if ids[k - 1] == c[dim] {
            wrap_val(t.dtype_sp(), prev + src.at(c.update(dim, k - 1)))
        } else {
            prev
        }
    }
}

/// Whether the self and source shapes agree everywhere but on `dim`.
pub open spec fn same_but(ad: Seq<int>, bd: Seq<int>, dim: int) -> bool {
    &&& bd.len() == ad.len()
    &&& forall|j: int| 0 <= j < ad.len() && j != dim ==> #[trigger] ad[j] == bd[j]
}

impl Tensor {

    /// One output cell of a scatter-add.
    fn scatter_cell_exec(&self, idx: &Tensor, src: &Tensor, cv: &Vec<usize>, dim: usize) -> (v:
        i64)
        requires
            self.wf(),
            idx.wf(),
            src.wf(),
            dim < self.dims_sp().len(),
            src.dims_sp().len() == self.dims_sp().len(),
            idx.dims_sp() == src.dims_sp(),
            self.dtype_sp() == src.dtype_sp(),
            same_but(self.dims_sp(), src.dims_sp(), dim as int),
            cv@.len() == self.dims_sp().len(),
            coords_in(ints(cv@), self.dims_sp()),
        ensures
            v as int == scatter_cell(
                *self,
                *idx,
                *src,
                ints(cv@),
                dim as int,
                src.dims_sp()[dim as int],
            ),
            in_dtype(self.dtype_sp(), v as int),
    {
        let dt = self.dtype();
        let ghost ci = ints(cv@);
        proof {
            crate::dims::lemma_ints_nonneg(cv@);
        }
        let (stv, lay) = self.storage_and_layout();
        let mut acc = crate::kernel::read_at(stv, lay.stride(), lay.start_offset(), cv);
        let sdimsv = src.dims();
        let kd = sdimsv[dim];
        proof {
            assert(acc == self.at(ci));
            assert(in_dtype(dt, acc as int));
            src.lemma_dims_nonneg();
            assert forall|v2: int|
                0 <= v2 < src.dims_sp()[dim as int] implies coords_in(
                #[trigger] ci.update(dim as int, v2),
                src.dims_sp(),
            ) && coords_in(ci.update(dim as int, v2), idx.dims_sp()) by {
                let cu = ci.update(dim as int, v2);
                assert forall|x: int| 0 <= x < cu.len() implies 0 <= #[trigger] cu[x]
                    < src.dims_sp()[x] by {
                    if x != dim {
                        assert(cu[x] == ci[x]);
                    }
                }
            }
        }
        let mut coord = crate::shape::clone_dims(cv);
        let mut k: usize = 0;
        while k < kd
            invariant
                0 <= k <= kd,
                self.wf(),
                idx.wf(),
                src.wf(),
                dt == self.dtype_sp(),
                dt == src.dtype_sp(),
                dim < self.dims_sp().len(),
                kd == src.dims_sp()[dim as int],
                ci == ints(cv@),
                coords_in(ci, self.dims_sp()),
                coord@.len() == cv@.len(),
                cv@.len() == self.dims_sp().len(),
                src.dims_sp().len() == self.dims_sp().len(),
                idx.dims_sp() == src.dims_sp(),
                forall|x: int| 0 <= x < coord@.len() && x != dim ==> #[trigger] coord@[x]
                    == cv@[x],
                forall|v2: int|
                    0 <= v2 < src.dims_sp()[dim as int] ==> coords_in(
                        #[trigger] ci.update(dim as int, v2),
                        src.dims_sp(),
                    ) && coords_in(ci.update(dim as int, v2), idx.dims_sp()),
                acc as int == scatter_cell(*self, *idx, *src, ci, dim as int, k as int),
                in_dtype(dt, acc as int),
            decreases kd - k,
        {
            coord[dim] = k;
            proof {
                assert(ints(coord@) =~= ci.update(dim as int, k as int));
                assert(coords_in(ints(coord@), idx.dims_sp()));
                assert(coords_in(ints(coord@), src.dims_sp()));
                crate::dims::lemma_ints_nonneg(coord@);
            }
            let (sti, layi) = idx.storage_and_layout();
            let ixv = crate::kernel::read_at(sti, layi.stride(), layi.start_offset(), &coord);
            proof {
                assert(ixv == idx.at(ci.update(dim as int, k as int)));
            }
            let here = if ixv >= 0 {
                (ixv as u64) == (cv[dim] as u64)
            } else {
                false
            };
            proof {
                assert(here == (idx.at(ci.update(dim as int, k as int)) == ci[dim as int])) by {
                    assert(0 <= ci[dim as int] < self.dims_sp()[dim as int]);
                }
            }
            if here {
                let (sts, lays) = src.storage_and_layout();
                let xv = crate::kernel::read_at(sts, lays.stride(), lays.start_offset(), &coord);
                proof {
                    assert(xv == src.at(ci.update(dim as int, k as int)));
                    assert(in_dtype(dt, xv as int));
                }
                acc = crate::dtype::wrap_add(dt, acc, xv);
            }
            k = k + 1;
        }
        acc
    }

    /// Adds values of `src` into a copy of this tensor: each source element
    /// lands at the coordinate obtained by replacing its position along
    /// `dim` with the value the index tensor holds there. The index tensor
    /// has the source's shape and its values index this tensor's `dim`.
    pub fn scatter_add(&self, idx: &Tensor, src: &Tensor, dim: usize) -> (r: Result<Tensor, Error>)
        requires
            self.wf(),
            idx.wf(),
            src.wf(),
        ensures
            match r {
                Ok(t) => {
                    &&& dim < self.dims_sp().len()
                    &&& same_but(self.dims_sp(), src.dims_sp(), dim as int)
                    &&& idx.dims_sp() == src.dims_sp()
                    &&& self.dtype_sp() == src.dtype_sp()
                    &&& t.wf()
                    &&& t.dims_sp() == self.dims_sp()
                    &&& t.dtype_sp() == self.dtype_sp()
                    &&& t.device_sp() == self.device_sp()
                    &&& forall|c: Seq<int>|
                        coords_in(c, t.dims_sp()) ==> #[trigger] t.at(c) as int == scatter_cell(
                            *self,
                            *idx,
                            *src,
                            c,
                            dim as int,
                            src.dims_sp()[dim as int],
                        )
                },
                Err(_) => !(dim < self.dims_sp().len() && same_but(
                    self.dims_sp(),
                    src.dims_sp(),
                    dim as int,
                ) && idx.dims_sp() == src.dims_sp() && self.dtype_sp() == src.dtype_sp() && (
                forall|c: Seq<int>|
                    coords_in(c, idx.dims_sp()) ==> 0 <= #[trigger] idx.at(c)
                        < self.dims_sp()[dim as int])),
            },
    {
        let ghost dd = self.dims_sp();
        match self.check_dim(dim, "scatter-add") {
            Ok(()) => {},
            Err(e) => {
                return Err(e);
            },
        }
        let dims = self.dims();
        let sdims = src.dims();
        let rank = dims.len();
        if sdims.len() != rank {
            return Err(
                Error::ShapeMismatchBinaryOp {
                    lhs: self.shape().clone(),
                    rhs: src.shape().clone(),
                    op: "scatter-add (self, src)",
                },
            );
        }
        let mut j: usize = 0;
        while j < rank
            invariant
                0 <= j <= rank,
                rank == dims@.len(),
                rank == sdims@.len(),
                dd == ints(dims@),
                dd == self.dims_sp(),
                ints(sdims@) == src.dims_sp(),
                self.wf(),
                src.wf(),
                dim < rank,
                forall|x: int|
                    0 <= x < j && x != dim ==> #[trigger] src.dims_sp()[x] == self.dims_sp()[x],
            decreases rank - j,
        {
            if j != dim && sdims[j] != dims[j] {
                proof {
                    assert(src.dims_sp()[j as int] == ints(sdims@)[j as int]);
                    assert(self.dims_sp()[j as int] == ints(dims@)[j as int]);
                }
                return Err(
                    Error::ShapeMismatchBinaryOp {
                        lhs: self.shape().clone(),
                        rhs: src.shape().clone(),
                        op: "scatter-add (self, src)",
                    },
                );
            }
            j = j + 1;
        }
        if !crate::elementwise::dims_equal(idx.dims(), sdims) {
            return Err(
                Error::ShapeMismatchBinaryOp {
                    lhs: idx.shape().clone(),
                    rhs: src.shape().clone(),
                    op: "scatter-add (indexes, src)",
                },
            );
        }
        if !crate::elementwise::dtype_same(self.dtype(), src.dtype()) {
            return Err(
                Error::DTypeMismatchBinaryOp {
                    lhs: self.dtype(),
                    rhs: src.dtype(),
                    op: "scatter-add",
                },
            );
        }
        let ivals = idx.materialize_self();
        match check_indexes(&ivals, dims[dim], "scatter-add") {
            Ok(()) => {},
            Err(e) => {
                proof {
                    idx.lemma_vals_len();
                    let bad = choose|i: int|
                        0 <= i < ivals@.len() && !(0 <= #[trigger] ivals@[i] < dd[dim as int]);
                    idx.lemma_dims_nonneg();
                    crate::dims::lemma_flat_all_elem(
                        idx.st(),
                        idx.dims_sp(),
                        idx.strides_sp(),
                        idx.off_sp(),
                        bad,
                    );
                    let cb = choose|cb: Seq<int>|
                        coords_in(cb, idx.dims_sp()) && flat_of(cb, idx.dims_sp()) == bad
                            && idx.vals()[bad] == idx.st()[#[trigger] phys(
                            idx.off_sp(),
                            cb,
                            idx.strides_sp(),
                        )];
                    assert(idx.at(cb) == ivals@[bad]);
                }
                return Err(e);
            },
        }
        proof {
            assert forall|c: Seq<int>| coords_in(c, idx.dims_sp()) implies 0 <= #[trigger] idx.at(
                c,
            ) < dd[dim as int] by {
                idx.lemma_at_vals(c);
                idx.lemma_vals_len();
            }
            self.lemma_wf_suffix();
        }
        let outdims = clone_dims(dims);
        let dt = self.dtype();
        let kd = sdims[dim];
        let ghost fs = |c: Seq<int>|
            (scatter_cell(*self, *idx, *src, c, dim as int, src.dims_sp()[dim as int]) as i64);
        let sg: Ghost<Tensor> = Ghost(*self);
        let ig: Ghost<Tensor> = Ghost(*idx);
        let rg: Ghost<Tensor> = Ghost(*src);
        let cell = |cv: &Vec<usize>| -> (v: i64)
            requires
                coords_in(ints(cv@), ints(outdims@)),
            ensures
                v as int == scatter_cell(
                    sg@,
                    ig@,
                    rg@,
                    ints(cv@),
                    dim as int,
                    src.dims_sp()[dim as int],
                ),
                in_dtype(self.dtype_sp(), v as int),
            {
                proof {
                    assert forall|x: int|
                        0 <= x < cv@.len() implies 0 <= #[trigger] ints(cv@)[x]
                        < self.dims_sp()[x] by {
                        assert(ints(outdims@)[x] == self.dims_sp()[x]);
                    }
                }
                self.scatter_cell_exec(idx, src, cv, dim)
            };
        proof {
            assert forall|cq: Vec<usize>|
                coords_in(ints(cq@), ints(outdims@)) implies #[trigger] call_requires(
                cell,
                (&cq,),
            ) by {}
            assert forall|cq: Vec<usize>, v: i64|
                coords_in(ints(cq@), ints(outdims@)) && #[trigger] call_ensures(
                cell,
                (&cq,),
                v,
            ) implies v == fs(ints(cq@)) by {
                assert(sg@ == *self && ig@ == *idx && rg@ == *src);
                lemma_scatter_cell_range(
                    *self,
                    *idx,
                    *src,
                    ints(cq@),
                    dim as int,
                    src.dims_sp()[dim as int],
                );
            }
            assert forall|c: Seq<int>|
                coords_in(c, ints(outdims@)) implies in_dtype(dt, #[trigger] fs(c) as int) by {
                lemma_scatter_cell_range(*self, *idx, *src, c, dim as int, src.dims_sp()[
                    dim as int]);
            }
        }
        let out = build_grid(&outdims, &cell, Ghost(fs));
        let opedge = BackpropOp::new3(
            self,
            idx,
            src,
            Op::ScatterAdd(self.clone(), idx.clone(), src.clone(), dim),
        );
        let t = crate::tensor::grid_tensor(
            &outdims,
            out,
            Ghost(fs),
            opedge,
            dt,
            *self.device(),
            src.merge_with(self.fresh_id_with(idx)),
        );
        proof {
            assert forall|c: Seq<int>| coords_in(c, t.dims_sp()) implies #[trigger] t.at(c) as int
                == scatter_cell(*self, *idx, *src, c, dim as int, src.dims_sp()[dim as int]) by {
                assert(t.at(c) == fs(c));
                lemma_scatter_cell_range(*self, *idx, *src, c, dim as int, src.dims_sp()[
                    dim as int]);
            }
        }
        Ok(t)
    }
}

/// A scatter cell's value stays in the dtype's range.
proof fn lemma_scatter_cell_range(t: Tensor, idx: Tensor, src: Tensor, c: Seq<int>, dim: int, k: int)
    requires
        t.wf(),
        coords_in(c, t.dims_sp()),
    ensures
        in_dtype(t.dtype_sp(), scatter_cell(t, idx, src, c, dim, k)),
    decreases k,
{
    if k <= 0 {
    } else {
        lemma_scatter_cell_range(t, idx, src, c, dim, k - 1);
        crate::dtype::lemma_wrap_in_dtype(
            t.dtype_sp(),
            scatter_cell(t, idx, src, c, dim, k - 1) + src.at(c.update(dim, k - 1)),
        );
    }
}

} // verus!

verus! {

impl Tensor {
    /// One output cell of an index-add.
    fn index_add_cell_exec(&self, iv: &Vec<i64>, src: &Tensor, cv: &Vec<usize>, dim: usize) -> (v:
        i64)
        requires
            self.wf(),
            src.wf(),
            dim < self.dims_sp().len(),
            src.dims_sp().len() == self.dims_sp().len(),
            self.dtype_sp() == src.dtype_sp(),
            same_but(self.dims_sp(), src.dims_sp(), dim as int),
            iv@.len() == src.dims_sp()[dim as int],
            cv@.len() == self.dims_sp().len(),
            coords_in(ints(cv@), self.dims_sp()),
        ensures
            v as int == index_add_cell(
                *self,
                iv@,
                *src,
                ints(cv@),
                dim as int,
                src.dims_sp()[dim as int],
            ),
            in_dtype(self.dtype_sp(), v as int),
    {
        let dt = self.dtype();
        let ghost ci = ints(cv@);
        proof {
            crate::dims::lemma_ints_nonneg(cv@);
        }
        let (stv, lay) = self.storage_and_layout();
        let mut acc = crate::kernel::read_at(stv, lay.stride(), lay.start_offset(), cv);
        let kd = iv.len();
        proof {
            assert(acc == self.at(ci));
            assert(in_dtype(dt, acc as int));
            src.lemma_dims_nonneg();
            assert forall|v2: int|
                0 <= v2 < src.dims_sp()[dim as int] implies coords_in(
                #[trigger] ci.update(dim as int, v2),
                src.dims_sp(),
            ) by {
                let cu = ci.update(dim as int, v2);
                assert forall|x: int| 0 <= x < cu.len() implies 0 <= #[trigger] cu[x]
                    < src.dims_sp()[x] by {
                    if x != dim {
                        assert(cu[x] == ci[x]);
                    }
                }
            }
        }
        let mut coord = crate::shape::clone_dims(cv);
        let mut k: usize = 0;
        while k < kd
            invariant
                0 <= k <= kd,
                self.wf(),
                src.wf(),
                dt == self.dtype_sp(),
                dt == src.dtype_sp(),
                dim < self.dims_sp().len(),
                kd == iv@.len(),
                kd == src.dims_sp()[dim as int],
                ci == ints(cv@),
                coords_in(ci, self.dims_sp()),
                coord@.len() == cv@.len(),
                cv@.len() == self.dims_sp().len(),
                src.dims_sp().len() == self.dims_sp().len(),
                forall|x: int| 0 <= x < coord@.len() && x != dim ==> #[trigger] coord@[x]
                    == cv@[x],
                forall|v2: int|
                    0 <= v2 < src.dims_sp()[dim as int] ==> coords_in(
                        #[trigger] ci.update(dim as int, v2),
                        src.dims_sp(),
                    ),
                acc as int == index_add_cell(*self, iv@, *src, ci, dim as int, k as int),
                in_dtype(dt, acc as int),
            decreases kd - k,
        {
            let ixv = iv[k];
            let here = if ixv >= 0 {
                (ixv as u64) == (cv[dim] as u64)
            } else {
                false
            };
            proof {
                assert(here == (iv@[k as int] == ci[dim as int])) by {
                    assert(0 <= ci[dim as int] < self.dims_sp()[dim as int]);
                }
            }
            if here {
                coord[dim] = k;
                proof {
                    assert(ints(coord@) =~= ci.update(dim as int, k as int));
                    assert(coords_in(ints(coord@), src.dims_sp()));
                    crate::dims::lemma_ints_nonneg(coord@);
                }
                let (sts, lays) = src.storage_and_layout();
                let xv = crate::kernel::read_at(sts, lays.stride(), lays.start_offset(), &coord);
                proof {
                    assert(xv == src.at(ci.update(dim as int, k as int)));
                    assert(in_dtype(dt, xv as int));
                }
                acc = crate::dtype::wrap_add(dt, acc, xv);
            }
            k = k + 1;
        }
        acc
    }

    /// Adds slices of `src` into a copy of this tensor: slice `k` of the
    /// source along `dim` lands at position `ids[k]` of this tensor's
    /// `dim`. The rank-1 index tensor's length is the source's size along
    /// `dim` and its values index this tensor's `dim`.
    pub fn index_add(&self, ids: &Tensor, src: &Tensor, dim: usize) -> (r: Result<Tensor, Error>)
        requires
            self.wf(),
            ids.wf(),
            src.wf(),
        ensures
            match r {
                Ok(t) => {
                    &&& dim < self.dims_sp().len()
                    &&& same_but(self.dims_sp(), src.dims_sp(), dim as int)
                    &&& ids.dims_sp().len() == 1
                    &&& ids.count_sp() == src.dims_sp()[dim as int]
                    &&& self.dtype_sp() == src.dtype_sp()
                    &&& all_indexes_in(ids.vals(), self.dims_sp()[dim as int])
                    &&& t.wf()
                    &&& t.dims_sp() == self.dims_sp()
                    &&& t.dtype_sp() == self.dtype_sp()
                    &&& t.device_sp() == self.device_sp()
                    &&& forall|c: Seq<int>|
                        coords_in(c, t.dims_sp()) ==> #[trigger] t.at(c) as int == index_add_cell(
                            *self,
                            ids.vals(),
                            *src,
                            c,
                            dim as int,
                            src.dims_sp()[dim as int],
                        )
                },
                Err(_) => !(dim < self.dims_sp().len() && same_but(
                    self.dims_sp(),
                    src.dims_sp(),
                    dim as int,
                ) && ids.dims_sp().len() == 1 && ids.count_sp() == src.dims_sp()[dim as int]
                    && self.dtype_sp() == src.dtype_sp() && all_indexes_in(
                    ids.vals(),
                    self.dims_sp()[dim as int],
                )),
            },
    {
        let ghost dd = self.dims_sp();
        match self.check_dim(dim, "index-add") {
            Ok(()) => {},
            Err(e) => {
                return Err(e);
            },
        }
        let dims = self.dims();
        let sdims = src.dims();
        let rank = dims.len();
        if sdims.len() != rank {
            return Err(
                Error::ShapeMismatchBinaryOp {
                    lhs: self.shape().clone(),
                    rhs: src.shape().clone(),
                    op: "index-add (self, source)",
                },
            );
        }
        let mut j: usize = 0;
        while j < rank
            invariant
                0 <= j <= rank,
                rank == dims@.len(),
                rank == sdims@.len(),
                dd == ints(dims@),
                dd == self.dims_sp(),
                ints(sdims@) == src.dims_sp(),
                self.wf(),
                src.wf(),
                dim < rank,
                forall|x: int|
                    0 <= x < j && x != dim ==> #[trigger] src.dims_sp()[x] == self.dims_sp()[x],
            decreases rank - j,
        {
            if j != dim && sdims[j] != dims[j] {
                proof {
                    assert(src.dims_sp()[j as int] == ints(sdims@)[j as int]);
                    assert(self.dims_sp()[j as int] == ints(dims@)[j as int]);
                }
                return Err(
                    Error::ShapeMismatchBinaryOp {
                        lhs: self.shape().clone(),
                        rhs: src.shape().clone(),
                        op: "index-add (self, source)",
                    },
                );
            }
            j = j + 1;
        }
        if ids.rank() != 1 {
            return Err(
                Error::ShapeMismatchBinaryOp {
                    lhs: ids.shape().clone(),
                    rhs: src.shape().clone(),
                    op: "index-add (ids, source)",
                },
            );
        }
        let iv = ids.materialize_self();
        proof {
            ids.lemma_vals_len();
        }
        if iv.len() != sdims[dim] {
            proof {
                assert(ids.count_sp() != src.dims_sp()[dim as int]);
            }
            return Err(
                Error::ShapeMismatchBinaryOp {
                    lhs: ids.shape().clone(),
                    rhs: src.shape().clone(),
                    op: "index-add (ids, source)",
                },
            );
        }
        if !crate::elementwise::dtype_same(self.dtype(), src.dtype()) {
            return Err(
                Error::DTypeMismatchBinaryOp {
                    lhs: self.dtype(),
                    rhs: src.dtype(),
                    op: "index-add",
                },
            );
        }
        match check_indexes(&iv, dims[dim], "index-add") {
            Ok(()) => {},
            Err(e) => {
                return Err(e);
            },
        }
        proof {
            self.lemma_wf_suffix();
        }
        let outdims = clone_dims(dims);
        let dt = self.dtype();
        let sg: Ghost<Tensor> = Ghost(*self);
        let rg: Ghost<Tensor> = Ghost(*src);
        let ghost fs = |c: Seq<int>|
            (index_add_cell(*self, ids.vals(), *src, c, dim as int, src.dims_sp()[dim as int])
                as i64);
        let cell = |cv: &Vec<usize>| -> (v: i64)
            requires
                coords_in(ints(cv@), ints(outdims@)),
            ensures
                v as int == index_add_cell(
                    sg@,
                    iv@,
                    rg@,
                    ints(cv@),
                    dim as int,
                    src.dims_sp()[dim as int],
                ),
                in_dtype(self.dtype_sp(), v as int),
            {
                proof {
                    assert forall|x: int|
                        0 <= x < cv@.len() implies 0 <= #[trigger] ints(cv@)[x]
                        < self.dims_sp()[x] by {
                        assert(ints(outdims@)[x] == self.dims_sp()[x]);
                    }
                }
                self.index_add_cell_exec(&iv, src, cv, dim)
            };
        proof {
            assert forall|cq: Vec<usize>|
                coords_in(ints(cq@), ints(outdims@)) implies #[trigger] call_requires(
                cell,
                (&cq,),
            ) by {}
            assert forall|cq: Vec<usize>, v: i64|
                coords_in(ints(cq@), ints(outdims@)) && #[trigger] call_ensures(
                cell,
                (&cq,),
                v,
            ) implies v == fs(ints(cq@)) by {
                lemma_index_add_cell_range(
                    *self,
                    ids.vals(),
                    *src,
                    ints(cq@),
                    dim as int,
                    src.dims_sp()[dim as int],
                );
            }
            assert forall|c: Seq<int>|
                coords_in(c, ints(outdims@)) implies in_dtype(dt, #[trigger] fs(c) as int) by {
                lemma_index_add_cell_range(*self, ids.vals(), *src, c, dim as int, src.dims_sp()[
                    dim as int]);
            }
        }
        let out = build_grid(&outdims, &cell, Ghost(fs));
        let opedge = BackpropOp::new3(
            self,
            ids,
            src,
            Op::IndexAdd(self.clone(), ids.clone(), src.clone(), dim),
        );
        let t = crate::tensor::grid_tensor(
            &outdims,
            out,
            Ghost(fs),
            opedge,
            dt,
            *self.device(),
            src.merge_with(self.fresh_id_with(ids)),
        );
        proof {
            assert forall|c: Seq<int>| coords_in(c, t.dims_sp()) implies #[trigger] t.at(c) as int
                == index_add_cell(*self, ids.vals(), *src, c, dim as int, src.dims_sp()[
                dim as int]) by {
                assert(t.at(c) == fs(c));
                lemma_index_add_cell_range(*self, ids.vals(), *src, c, dim as int, src.dims_sp()[
                    dim as int]);
            }
        }
        Ok(t)
    }
}

/// An index-add cell's value stays in the dtype's range.
proof fn lemma_index_add_cell_range(
    t: Tensor,
    ids: Seq<i64>,
    src: Tensor,
    c: Seq<int>,
    dim: int,
    k: int,
)
    requires
        t.wf(),
        coords_in(c, t.dims_sp()),
    ensures
        in_dtype(t.dtype_sp(), index_add_cell(t, ids, src, c, dim, k)),
    decreases k,
{
    if k <= 0 {
    } else {
        lemma_index_add_cell_range(t, ids, src, c, dim, k - 1);
        crate::dtype::lemma_wrap_in_dtype(
            t.dtype_sp(),
            index_add_cell(t, ids, src, c, dim, k - 1) + src.at(c.update(dim, k - 1)),
        );
    }
}

} // verus!
