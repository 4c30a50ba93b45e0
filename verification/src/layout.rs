//! Layouts: a shape together with per-dimension strides and a start offset
//! into the underlying storage, both counted in elements. A layout is
//! contiguous when its strides are the canonical row-major strides of its
//! shape; view operations change only the layout, never the storage.

use vstd::prelude::*;
use crate::dims::{coords_in, ints, phys, prod, row_major, suffix_ok};
use crate::shape::{clone_dims, row_major_of, Shape};

verus! {

/// The addressing part of a tensor: shape, strides and start offset.
#[derive(Debug)]
pub struct Layout {
    pub(crate) shape: Shape,
    pub(crate) strides: Vec<usize>,
    pub(crate) start_offset: usize,
}

impl Layout {
    /// The dimension sizes, as mathematical integers.
    pub closed spec fn dims_sp(&self) -> Seq<int> {
        self.shape@
    }

    /// The strides, as mathematical integers.
    pub closed spec fn strides_sp(&self) -> Seq<int> {
        ints(self.strides@)
    }

    /// The start offset.
    pub closed spec fn off_sp(&self) -> int {
        self.start_offset as int
    }

    /// Structural soundness of a layout over a storage of `n` elements:
    /// strides match the rank, every suffix product of the shape is
    /// representable, and every valid coordinate addresses inside the storage.
    pub open spec fn fits(&self, n: int) -> bool {
        &&& self.strides_sp().len() == self.dims_sp().len()
        &&& suffix_ok(self.dims_sp())
        &&& forall|c: Seq<int>|
            coords_in(c, self.dims_sp()) ==> #[trigger] phys(self.off_sp(), c, self.strides_sp())
                < n
    }

    /// Whether the strides are exactly the canonical row-major strides on
    /// every dimension of size greater than one; dimensions a single element
    /// wide place no constraint, since no stride is ever applied to them.
    pub open spec fn contiguous_sp(&self) -> bool {
        forall|j: int|
            0 <= j < self.dims_sp().len() && self.dims_sp()[j] > 1 ==> #[trigger] self.strides_sp()[j]
                == prod(self.dims_sp().skip(j + 1))
    }

    /// The column-major twin: each stride is the product of the sizes before it.
    pub open spec fn fortran_contiguous_sp(&self) -> bool {
        forall|j: int|
            0 <= j < self.dims_sp().len() && self.dims_sp()[j] > 1 ==> #[trigger] self.strides_sp()[j]
                == prod(self.dims_sp().take(j))
    }

    /// The dimension sizes, seen as integers, are nonnegative.
    pub proof fn lemma_dims_nonneg(&self)
        ensures
            forall|j: int| 0 <= j < self.dims_sp().len() ==> #[trigger] self.dims_sp()[j] >= 0,
    {
        self.shape.lemma_view_nonneg();
    }

    /// The strides, seen as integers, are nonnegative.
    pub proof fn lemma_strides_nonneg(&self)
        ensures
            forall|j: int| 0 <= j < self.strides_sp().len() ==> #[trigger] self.strides_sp()[j]
                >= 0,
    {
        crate::dims::lemma_ints_nonneg(self.strides@);
    }

    /// The start offset is nonnegative.
    pub proof fn lemma_off_nonneg(&self)
        ensures
            self.off_sp() >= 0,
    {
    }

    /// Assembles a layout from its parts.
    pub(crate) fn from_parts(shape: Shape, strides: Vec<usize>, start_offset: usize) -> (r: Layout)
        ensures
            r.dims_sp() == shape@,
            r.strides_sp() == ints(strides@),
            r.off_sp() == start_offset,
    {
        Layout { shape, strides, start_offset }
    }

    /// A contiguous (row-major) layout for a shape, starting at offset 0.
    pub fn contiguous(shape: Shape) -> (r: Layout)
        requires
            suffix_ok(shape@),
        ensures
            r.dims_sp() == shape@,
            r.strides_sp() == row_major(shape@),
            r.off_sp() == 0,
    {
        Layout::contiguous_with_offset(shape, 0)
    }

    /// A contiguous (row-major) layout for a shape, starting at the given offset.
    pub fn contiguous_with_offset(shape: Shape, offset: usize) -> (r: Layout)
        requires
            suffix_ok(shape@),
        ensures
            r.dims_sp() == shape@,
            r.strides_sp() == row_major(shape@),
            r.off_sp() == offset,
    {
        let strides = row_major_of(shape.dims());
        Layout { shape, strides, start_offset: offset }
    }

    /// The shape.
    pub fn shape(&self) -> (r: &Shape)
        ensures
            r@ == self.dims_sp(),
    {
        &self.shape
    }

    /// The dimension sizes.
    pub fn dims(&self) -> (r: &Vec<usize>)
        ensures
            ints(r@) == self.dims_sp(),
    {
        self.shape.dims()
    }

    /// The strides, one per dimension, in element counts.
    pub fn stride(&self) -> (r: &Vec<usize>)
        ensures
            ints(r@) == self.strides_sp(),
    {
        &self.strides
    }

    /// The start offset into the storage, in element counts.
    pub fn start_offset(&self) -> (r: usize)
        ensures
            r == self.off_sp(),
    {
        self.start_offset
    }

    /// Whether the layout is row-major contiguous.
    pub fn is_contiguous(&self) -> (r: bool)
        requires
            self.strides_sp().len() == self.dims_sp().len(),
            suffix_ok(self.dims_sp()),
        ensures
            r == self.contiguous_sp(),
    {
        let dims = self.shape.dims();
        let n = dims.len();
        let ghost d = self.dims_sp();
        let mut j: usize = 0;
        while j < n
            invariant
                0 <= j <= n,
                n == dims.len(),
                d == ints(dims@),
                d == self.dims_sp(),
                self.strides_sp().len() == d.len(),
                suffix_ok(d),
                forall|i: int|
                    0 <= i < j && d[i] > 1 ==> #[trigger] self.strides_sp()[i] == prod(
                        d.skip(i + 1),
                    ),
            decreases n - j,
        {
            if dims[j] > 1 {
                let expected = crate::shape::suffix_prod(dims, j + 1);
                if self.strides[j] != expected {
                    proof {
                        assert(self.strides_sp()[j as int] == self.strides@[j as int]);
                    }
                    return false;
                }
            }
            j = j + 1;
        }
        true
    }

    /// Whether the layout is column-major contiguous.
    pub fn is_fortran_contiguous(&self) -> (r: bool)
        requires
            self.strides_sp().len() == self.dims_sp().len(),
        ensures
            r == self.fortran_contiguous_sp(),
    {
        let dims = self.shape.dims();
        let n = dims.len();
        let ghost d = self.dims_sp();
        let mut acc: Option<usize> = Some(1usize);
        let mut j: usize = 0;
        proof {
            assert(d.take(0) =~= Seq::<int>::empty());
        }
        while j < n
            invariant
                0 <= j <= n,
                n == dims.len(),
                d == ints(dims@),
                d == self.dims_sp(),
                self.strides_sp().len() == d.len(),
                match acc {
                    Some(v) => v == prod(d.take(j as int)),
                    None => prod(d.take(j as int)) > usize::MAX,
                },
                forall|i: int|
                    0 <= i < j && d[i] > 1 ==> #[trigger] self.strides_sp()[i] == prod(d.take(i)),
            decreases n - j,
        {
            proof {
                crate::dims::lemma_prefix_prod_step(d, j as int);
            }
            if dims[j] > 1 {
                match acc {
                    Some(v) => {
                        if self.strides[j] != v {
                            proof {
                                assert(self.strides_sp()[j as int] == self.strides@[j as int]);
                            }
                            return false;
                        }
                    },
                    None => {
                        proof {
                            assert(self.strides_sp()[j as int] == self.strides@[j as int]);
                            assert(self.strides_sp()[j as int] <= usize::MAX);
                        }
                        return false;
                    },
                }
            }
            let dj = dims[j];
            acc = match acc {
                Some(v) => v.checked_mul(dj),
                None => {
                    if dj == 0 {
                        proof {
                            let p = prod(d.take(j as int));
                            assert(p * 0 == 0) by (nonlinear_arith);
                        }
                        Some(0usize)
                    } else {
                        proof {
                            let p = prod(d.take(j as int));
                            assert(p * d[j as int] >= p) by (nonlinear_arith)
                                requires
                                    p >= 0,
                                    d[j as int] >= 1,
                            ;
                        }
                        None
                    }
                },
            };
            j = j + 1;
        }
        proof {
            assert(d.take(n as int) =~= d);
        }
        true
    }
}

impl Clone for Layout {
    fn clone(&self) -> (r: Self)
        ensures
            r.dims_sp() == self.dims_sp(),
            r.strides_sp() == self.strides_sp(),
            r.off_sp() == self.off_sp(),
    {
        Layout {
            shape: self.shape.clone(),
            strides: clone_dims(&self.strides),
            start_offset: self.start_offset,
        }
    }
}

} // verus!
