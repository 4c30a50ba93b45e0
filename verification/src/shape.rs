//! Shapes: ordered sequences of nonnegative dimension sizes. The element
//! count of a shape is the product of its dimension sizes, 1 for the rank-0
//! scalar shape.

use vstd::prelude::*;
use crate::dims::{ints, prod, suffix_ok};

verus! {

/// An ordered sequence of dimension sizes. Immutable value type.
#[derive(Debug, PartialEq, Eq)]
pub struct Shape {
    pub(crate) dims: Vec<usize>,
}

impl View for Shape {
    type V = Seq<int>;

    closed spec fn view(&self) -> Seq<int> {
        ints(self.dims@)
    }
}

impl Clone for Shape {
    fn clone(&self) -> (r: Self)
        ensures
            r@ == self@,
    {
        Shape { dims: clone_dims(&self.dims) }
    }
}

/// Clones a dimension vector, keeping its contents.
pub(crate) fn clone_dims(dims: &Vec<usize>) -> (r: Vec<usize>)
    ensures
        r@ == dims@,
{
    let r = dims.clone();
    proof {
        assert forall|i: int| 0 <= i < dims@.len() implies r@[i] == dims@[i] by {
            assert(cloned::<usize>(dims[i], r[i]));
        }
        assert(r@ =~= dims@);
    }
    r
}

impl Shape {
    /// Wraps a dimension-size vector as a shape.
    pub fn new(dims: Vec<usize>) -> (r: Shape)
        ensures
            r@ == ints(dims@),
    {
        Shape { dims }
    }

    /// The dimension sizes.
    pub fn dims(&self) -> (r: &Vec<usize>)
        ensures
            ints(r@) == self@,
    {
        &self.dims
    }

    /// The number of dimensions.
    pub fn rank(&self) -> (r: usize)
        ensures
            r == self@.len(),
    {
        self.dims.len()
    }

    /// The total number of elements: the product of the dimension sizes.
    pub fn elem_count(&self) -> (r: usize)
        requires
            suffix_ok(self@),
        ensures
            r == prod(self@),
    {
        elem_count_of(&self.dims)
    }
}

/// Whether every suffix product of the dimension sizes fits in a `usize`,
/// so that element counts and row-major strides can be computed.
pub fn suffix_check(dims: &Vec<usize>) -> (r: bool)
    ensures
        r == suffix_ok(ints(dims@)),
{
    let ghost d = ints(dims@);
    let n = dims.len();
    let mut acc: usize = 1;
    let mut j: usize = n;
    proof {
        assert(d.skip(n as int) =~= Seq::<int>::empty());
    }
    while j > 0
        invariant
            0 <= j <= n,
            n == dims.len(),
            d == ints(dims@),
            acc == prod(d.skip(j as int)),
            forall|k: int| j <= k <= n ==> #[trigger] prod(d.skip(k)) <= usize::MAX,
        decreases j,
    {
        let jj = j - 1;
        proof {
            assert(d.skip(jj as int)[0] == d[jj as int]);
            assert(d.skip(jj as int).skip(1) =~= d.skip(j as int));
            assert(prod(d.skip(jj as int)) == d[jj as int] * prod(d.skip(j as int)));
        }
        match dims[jj].checked_mul(acc) {
            Some(v) => {
                acc = v;
                j = jj;
            },
            None => {
                proof {
                    assert(prod(d.skip(jj as int)) > usize::MAX);
                }
                return false;
            },
        }
    }
    proof {
        assert forall|k: int| 0 <= k <= d.len() implies #[trigger] prod(d.skip(k))
            <= usize::MAX by {}
    }
    true
}

/// The element count of a dimension vector whose suffix products fit.
pub fn elem_count_of(dims: &Vec<usize>) -> (r: usize)
    requires
        suffix_ok(ints(dims@)),
    ensures
        r == prod(ints(dims@)),
{
    let ghost d = ints(dims@);
    let n = dims.len();
    let mut acc: usize = 1;
    let mut j: usize = n;
    proof {
        assert(d.skip(n as int) =~= Seq::<int>::empty());
    }
    while j > 0
        invariant
            0 <= j <= n,
            n == dims.len(),
            d == ints(dims@),
            suffix_ok(d),
            acc == prod(d.skip(j as int)),
        decreases j,
    {
        let jj = j - 1;
        proof {
            assert(d.skip(jj as int)[0] == d[jj as int]);
            assert(d.skip(jj as int).skip(1) =~= d.skip(j as int));
            assert(prod(d.skip(jj as int)) == d[jj as int] * prod(d.skip(j as int)));
            assert(prod(d.skip(jj as int)) <= usize::MAX);
            assert(d[jj as int] >= 0);
            crate::dims::lemma_prod_nonneg(d.skip(j as int));
        }
        acc = dims[jj] * acc;
        j = jj;
    }
    proof {
        assert(d.skip(0) =~= d);
    }
    acc
}

/// The canonical row-major strides of a dimension vector: each entry is the
/// product of the sizes that follow it.
pub fn row_major_of(dims: &Vec<usize>) -> (r: Vec<usize>)
    requires
        suffix_ok(ints(dims@)),
    ensures
        ints(r@) == crate::dims::row_major(ints(dims@)),
        r@.len() == dims@.len(),
{
    let ghost d = ints(dims@);
    let n = dims.len();
    let mut r: Vec<usize> = Vec::new();
    let mut j: usize = 0;
    proof {
        crate::dims::lemma_row_major_len(d);
    }
    while j < n
        invariant
            0 <= j <= n,
            n == dims.len(),
            d == ints(dims@),
            suffix_ok(d),
            crate::dims::row_major(d).len() == n,
            r@.len() == j,
            ints(r@) == crate::dims::row_major(d).take(j as int),
        decreases n - j,
    {
        let ghost old_r = r@;
        let s = suffix_prod(dims, j + 1);
        r.push(s);
        proof {
            lemma_row_major_entry(d, j as int);
            assert(ints(r@) =~= crate::dims::row_major(d).take(j as int + 1)) by {
                assert(ints(r@).len() == j + 1);
                assert forall|i: int| 0 <= i < j + 1 implies ints(r@)[i] == crate::dims::row_major(
                    d,
                ).take(j as int + 1)[i] by {
                    if i < j {
                        assert(ints(old_r)[i] == crate::dims::row_major(d).take(j as int)[i]);
                        assert(r@[i] == old_r[i]);
                    } else {
                        assert(r@[i] == s);
                    }
                }
            }
        }
        j = j + 1;
    }
    proof {
        assert(crate::dims::row_major(d).take(n as int) =~= crate::dims::row_major(d));
    }
    r
}

/// Entry `j` of the row-major strides is the product of the sizes after `j`.
pub proof fn lemma_row_major_entry_pub(d: Seq<int>, j: int)
    requires
        0 <= j < d.len(),
    ensures
        crate::dims::row_major(d)[j] == prod(d.skip(j + 1)),
{
    lemma_row_major_entry(d, j);
}

/// Entry `j` of the row-major strides is the product of the sizes after `j`.
proof fn lemma_row_major_entry(d: Seq<int>, j: int)
    requires
        0 <= j < d.len(),
    ensures
        crate::dims::row_major(d)[j] == prod(d.skip(j + 1)),
    decreases j,
{
    crate::dims::lemma_row_major_len(d);
    if j == 0 {
        assert(crate::dims::row_major(d)[0] == prod(d.skip(1)));
    } else {
        lemma_row_major_entry(d.skip(1), j - 1);
        crate::dims::lemma_row_major_len(d.skip(1));
        assert(crate::dims::row_major(d)[j] == crate::dims::row_major(d.skip(1))[j - 1]);
        assert(d.skip(1).skip(j) =~= d.skip(j + 1));
    }
}

/// The product of the dimension sizes from position `from` on.
pub fn suffix_prod(dims: &Vec<usize>, from: usize) -> (r: usize)
    requires
        from <= dims@.len(),
        suffix_ok(ints(dims@)),
    ensures
        r == prod(ints(dims@).skip(from as int)),
{
    let ghost d = ints(dims@);
    let n = dims.len();
    let mut acc: usize = 1;
    let mut j: usize = n;
    proof {
        assert(d.skip(n as int) =~= Seq::<int>::empty());
    }
    while j > from
        invariant
            from <= j <= n,
            n == dims.len(),
            d == ints(dims@),
            suffix_ok(d),
            acc == prod(d.skip(j as int)),
        decreases j,
    {
        let jj = j - 1;
        proof {
            assert(d.skip(jj as int)[0] == d[jj as int]);
            assert(d.skip(jj as int).skip(1) =~= d.skip(j as int));
            assert(prod(d.skip(jj as int)) <= usize::MAX);
            crate::dims::lemma_prod_nonneg(d.skip(j as int));
        }
        acc = dims[jj] * acc;
        j = jj;
    }
    acc
}

} // verus!

verus! {

impl Shape {
    /// The dimension sizes, seen as integers, are nonnegative.
    pub proof fn lemma_view_nonneg(&self)
        ensures
            forall|j: int| 0 <= j < self@.len() ==> #[trigger] self@[j] >= 0,
    {
        crate::dims::lemma_ints_nonneg(self.dims@);
    }
}

} // verus!
